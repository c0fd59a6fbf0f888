use json_tools::flatten::Flatten;
use json_tools::json::Json;
use json_tools::path::{index_text, join, split_key};
use json_tools::tree::{StructuralError, Unflatten};

fn options() -> Flatten {
    Flatten { sep: ".".to_string() }
}

fn num(n: u64) -> Json {
    Json::Number(serde_json::Number::from(n))
}

fn obj(fields: Vec<(&str, Json)>) -> Json {
    Json::Object(fields.into_iter().map(|(k, v)| (k.to_string(), v)).collect())
}

fn flatten(value: Json) -> Json {
    options().process_one(value)
}

fn unflatten(value: Json) -> Json {
    Unflatten(options()).process_one(value).unwrap()
}

#[test]
fn simple() {
    let input = obj(vec![("a", obj(vec![("b", num(1))]))]);
    let flat = obj(vec![("a.b", num(1))]);
    assert_eq!(flatten(input), flat);
}

#[test]
fn clobber() {
    let input = obj(vec![("a.b", Json::Array(vec![num(1)])), ("a", num(2))]);
    let unflat = obj(vec![("a", obj(vec![("b", Json::Array(vec![num(1)]))]))]);
    assert_eq!(unflatten(input), unflat);
}

#[test]
#[should_panic]
fn bad_top_level_object() {
    unflatten(Json::Null);
}

#[test]
fn clobber_shorter_key_first() {
    let input = obj(vec![("a", num(2)), ("a.b", Json::Array(vec![num(1)]))]);
    let unflat = obj(vec![("a", obj(vec![("b", Json::Array(vec![num(1)]))]))]);
    assert_eq!(unflatten(input), unflat);
}

#[test]
fn unflatten_one_dotted_key() {
    let flat = obj(vec![("a.b", num(1))]);
    assert_eq!(unflatten(flat), obj(vec![("a", obj(vec![("b", num(1))]))]));
}

#[test]
fn unflatten_refuses_null_and_array() {
    let u = Unflatten(options());
    assert_eq!(u.process_one(Json::Null), Err(StructuralError));
    assert_eq!(u.process_one(Json::Array(vec![num(1), num(2)])), Err(StructuralError));
    assert_eq!(u.process_one(Json::String("a.b".to_string())), Err(StructuralError));
}

#[test]
fn flatten_top_level_scalar() {
    assert_eq!(flatten(num(5)), num(5));
    assert_eq!(flatten(Json::Null), Json::Null);
    assert_eq!(flatten(Json::Bool(true)), Json::Bool(true));
}

#[test]
fn flatten_flat_object_unchanged() {
    let flat = || {
        obj(vec![
            ("z", num(1)),
            ("a", Json::String("x".to_string())),
            ("m", Json::Null),
            ("b", Json::Bool(false)),
        ])
    };
    assert_eq!(flatten(flat()), flat());
}

#[test]
fn flatten_arrays_use_indices() {
    let input = obj(vec![(
        "a",
        Json::Array(vec![num(7), obj(vec![("b", num(8))]), Json::Array(vec![num(9)])]),
    )]);
    let flat = obj(vec![("a.0", num(7)), ("a.1.b", num(8)), ("a.2.0", num(9))]);
    assert_eq!(flatten(input), flat);
}

#[test]
fn flatten_top_level_array() {
    let input = Json::Array(vec![num(1), Json::Array(vec![num(2)])]);
    assert_eq!(flatten(input), obj(vec![("0", num(1)), ("1.0", num(2))]));
}

#[test]
fn flatten_colliding_paths_keep_first_place() {
    let input = obj(vec![("a.b", num(1)), ("c", num(3)), ("a", obj(vec![("b", num(2))]))]);
    assert_eq!(flatten(input), obj(vec![("a.b", num(2)), ("c", num(3))]));
}

#[test]
fn flatten_empty_containers() {
    assert_eq!(flatten(obj(vec![])), obj(vec![]));
    assert_eq!(flatten(obj(vec![("a", obj(vec![]))])), obj(vec![]));
}

#[test]
fn flatten_custom_separator() {
    let f = Flatten { sep: "::".to_string() };
    let input = obj(vec![("a", obj(vec![("b", obj(vec![("c", num(1))]))]))]);
    assert_eq!(f.process_one(input), obj(vec![("a::b::c", num(1))]));
}

#[test]
fn round_trip_nested_object() {
    let v = || {
        obj(vec![
            ("a", obj(vec![("b", num(1)), ("c", obj(vec![("d", Json::Null)]))])),
            ("e", Json::String("s".to_string())),
        ])
    };
    assert_eq!(unflatten(flatten(v())), v());
}

#[test]
fn unflatten_array_path_gives_object() {
    let flat = obj(vec![("a.0", num(1)), ("a.1", num(2))]);
    assert_eq!(unflatten(flat), obj(vec![("a", obj(vec![("0", num(1)), ("1", num(2))]))]));
}

#[test]
fn unflatten_empty_object_is_null() {
    assert_eq!(unflatten(obj(vec![])), Json::Null);
}

#[test]
fn unflatten_same_key_last_wins() {
    let flat = obj(vec![("a", num(1)), ("b", num(2)), ("a", num(3))]);
    assert_eq!(unflatten(flat), obj(vec![("a", num(3)), ("b", num(2))]));
}

#[test]
fn unflatten_keeps_first_appearance_order() {
    let flat = obj(vec![("x.b", num(1)), ("y", num(2)), ("x.a", num(3))]);
    let expected = obj(vec![("x", obj(vec![("b", num(1)), ("a", num(3))])), ("y", num(2))]);
    assert_eq!(unflatten(flat), expected);
}

#[test]
fn split_key_like_str_split() {
    let cases = [("a.b.c", "."), ("", "."), ("a..b.", "."), ("aaa", "aa"), ("ab", ""), ("", ""), ("x::y", "::")];
    for (key, sep) in cases {
        let expected: Vec<String> = key.split(sep).map(|s| s.to_string()).collect();
        assert_eq!(split_key(key, sep), expected, "key {:?} sep {:?}", key, sep);
    }
}

#[test]
fn join_adds_separator_after_any_segment() {
    assert_eq!(join(&None, "a", "."), "a");
    assert_eq!(join(&Some("a".to_string()), "b", "."), "a.b");
    assert_eq!(join(&Some("a".to_string()), "b", "--"), "a--b");
    assert_eq!(join(&Some(String::new()), "b", "."), ".b");
    assert_eq!(join(&None, "", "."), "");
}

#[test]
fn index_text_is_decimal() {
    assert_eq!(index_text(0), "0");
    assert_eq!(index_text(7), "7");
    assert_eq!(index_text(10), "10");
    assert_eq!(index_text(1234567), "1234567");
    assert_eq!(index_text(usize::MAX), usize::MAX.to_string());
}

#[test]
fn flatten_empty_key_keeps_separator() {
    assert_eq!(flatten(obj(vec![("", obj(vec![("b", num(1))]))])), obj(vec![(".b", num(1))]));
    assert_eq!(flatten(obj(vec![("", Json::Array(vec![num(1)]))])), obj(vec![(".0", num(1))]));
    assert_eq!(flatten(obj(vec![("", obj(vec![("", num(2))]))])), obj(vec![(".", num(2))]));
}

#[test]
fn round_trip_with_empty_keys() {
    let v = || obj(vec![("", obj(vec![("b", num(1)), ("", Json::Null)])), ("c", num(3))]);
    assert_eq!(unflatten(flatten(v())), v());
}

#[test]
fn flatten_twice_is_flatten_once() {
    let v = obj(vec![("a", Json::Array(vec![num(1), obj(vec![("b", Json::Null)])])), ("c", num(2))]);
    let once = flatten(v);
    assert_eq!(flatten(once.deep_clone()), once);
}
