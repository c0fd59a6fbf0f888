use json_tools::csv::{quote_text, CsvTable, Json2Csv, NotAnObject, OutputField};
use json_tools::json::{Json, ValueError, ValueExt};
use json_tools::resolve::Resolve;
use regex::Regex;

fn num(n: i64) -> Json {
    Json::Number(serde_json::Number::from(n))
}

fn text(s: &str) -> Json {
    Json::String(s.to_string())
}

fn obj(fields: Vec<(&str, Json)>) -> Json {
    Json::Object(fields.into_iter().map(|(k, v)| (k.to_string(), v)).collect())
}

#[test]
fn csv_columns_in_first_appearance_order() {
    let opts = Json2Csv { delimiter: ",".to_string(), quote_strings: false };
    let mut table = CsvTable::new();
    opts.add_record(&mut table, obj(vec![("a", num(1)), ("b", text("x"))])).unwrap();
    opts.add_record(&mut table, obj(vec![("c", Json::Bool(true)), ("a", num(-2))])).unwrap();
    opts.add_record(&mut table, obj(vec![("b", Json::Null), ("n", obj(vec![])), ("l", Json::Array(vec![]))])).unwrap();
    assert_eq!(opts.render(&table), "a,b,c\n1,x,\n-2,,1\n,,\n");
}

#[test]
fn csv_quoted_strings() {
    let opts = Json2Csv { delimiter: ";".to_string(), quote_strings: true };
    let mut table = CsvTable::new();
    opts.add_record(&mut table, obj(vec![("k\"1", text("this, string \" has")), ("f", Json::Bool(false))])).unwrap();
    assert_eq!(opts.render(&table), "\"k\\\"1\";\"f\"\n\"this, string \\\" has\";0\n");
}

#[test]
fn csv_refuses_non_object() {
    let opts = Json2Csv { delimiter: ",".to_string(), quote_strings: false };
    let mut table = CsvTable::new();
    assert_eq!(opts.add_record(&mut table, Json::Array(vec![])), Err(NotAnObject { found: "array" }));
    assert_eq!(opts.add_record(&mut table, num(3)), Err(NotAnObject { found: "number" }));
    assert_eq!(opts.render(&table), "\n");
}

#[test]
fn csv_cells() {
    let opts = Json2Csv { delimiter: ",".to_string(), quote_strings: true };
    assert_eq!(opts.cell(text("a")), Some(OutputField::QuotedString("a".to_string())));
    assert_eq!(opts.cell(Json::Null), Some(OutputField::Empty));
    assert_eq!(opts.cell(Json::Array(vec![])), None);
    assert_eq!(quote_text("say \"hi\""), "\"say \\\"hi\\\"\"");
}

#[test]
fn resolve_replaces_matching_names() {
    let r = Resolve { regex: Regex::new(r"\.json$").unwrap() };
    let mut v = obj(vec![
        ("a", text("a.json")),
        ("b", Json::Array(vec![text("b.json"), text("plain"), text("a.json")])),
        ("c", text("missing.json")),
    ]);
    assert_eq!(
        r.file_names(&v),
        vec!["a.json", "b.json", "a.json", "missing.json"]
    );
    let loaded = vec![("a.json".to_string(), num(1)), ("b.json".to_string(), obj(vec![("x", num(2))]))];
    r.resolve(&mut v, &loaded);
    let expected = obj(vec![
        ("a", num(1)),
        ("b", Json::Array(vec![obj(vec![("x", num(2))]), text("plain"), num(1)])),
        ("c", text("missing.json")),
    ]);
    assert_eq!(v, expected);
}

#[test]
fn resolve_custom_pattern() {
    let r = Resolve { regex: Regex::new(r"d\.json$").unwrap() };
    let v = obj(vec![("x", text("d.json")), ("y", text("e.json"))]);
    assert_eq!(r.file_names(&v), vec!["d.json"]);
}

#[test]
fn value_access() {
    assert_eq!(text("s").kind(), "string");
    assert_eq!(obj(vec![]).kind(), "object");
    assert_eq!(Json::Bool(true).kind(), "boolean");
    assert_eq!(text("s").expect_string(), Ok("s".to_string()));
    assert_eq!(
        num(1).expect_string(),
        Err(ValueError::Mismatch { expected: "string", found: "number" })
    );
    assert_eq!(num(-5).expect_int(), Ok(-5));
    assert_eq!(num(-5).expect_uint(), Err(ValueError::NotUnsigned));
    assert_eq!(Json::Number(serde_json::Number::from(u64::MAX)).expect_int(), Err(ValueError::NotInteger));
    assert_eq!(Json::Null.expect_int(), Err(ValueError::Mismatch { expected: "number", found: "null" }));
    assert_eq!(Json::Array(vec![num(1)]).unwrap_array(), vec![num(1)]);
    assert_eq!(text("q").unwrap_str(), "q");
}

#[test]
fn deep_clone_equal() {
    let v = obj(vec![("a", Json::Array(vec![num(1), text("t")])), ("b", Json::Null)]);
    assert_eq!(v.deep_clone(), v);
}

#[test]
fn resolve_leaves_unmarked_strings() {
    let r = Resolve { regex: Regex::new(r"\.json$").unwrap() };
    let mut v = Json::Array(vec![text("notes.txt"), text("a.json")]);
    let loaded = vec![("notes.txt".to_string(), num(7)), ("a.json".to_string(), num(1))];
    r.resolve(&mut v, &loaded);
    assert_eq!(v, Json::Array(vec![text("notes.txt"), num(1)]));
}
