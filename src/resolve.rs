//! Dereferencing of file names: strings that a pattern marks as file names
//! are replaced by the JSON values loaded from those files.
use vstd::prelude::*;
use regex::Regex;
use crate::json::{seq_views, field_views, Json, JsonV};
use crate::path::views_of;

verus! {

/// A compiled regular expression, used only through `is_match`.
#[verifier::external_type_specification]
#[verifier::external_body]
pub struct ExRegex(Regex);

/// Whether the regular expression matches somewhere in the text.
pub uninterp spec fn regex_matches(re: Regex, s: Seq<char>) -> bool;

/// Relies on `Regex::is_match`: whether the expression matches somewhere in
/// the haystack, which depends on the two alone.
#[verifier::external_body]
fn is_match(re: &Regex, s: &str) -> (r: bool)
    ensures
        r == regex_matches(*re, s@),
{
    re.is_match(s)
}

/// Relies on the derived `Clone` of `serde_json::Number`: the copy is equal.
pub assume_specification[ <serde_json::Number as core::clone::Clone>::clone ](
    n: &serde_json::Number,
) -> (r: serde_json::Number)
    ensures
        r == *n,
;

/// The strings of `v` that the expression marks as file names, in walk
/// order.
pub open spec fn file_names(re: Regex, v: JsonV) -> Seq<Seq<char>>
    decreases v,
{
    match v {
        JsonV::Array(items) => names_in_items(re, items),
        JsonV::Object(fields) => names_in_fields(re, fields),
        JsonV::Str(s) => if regex_matches(re, s) {
            seq![s]
        } else {
            Seq::empty()
        },
        _ => Seq::empty(),
    }
}

pub open spec fn names_in_items(re: Regex, items: Seq<JsonV>) -> Seq<Seq<char>>
    decreases items,
{
    if items.len() == 0 {
        Seq::empty()
    } else {
        let n = items.len() - 1;
        names_in_items(re, items.subrange(0, n)) + file_names(re, items[n])
    }
}

pub open spec fn names_in_fields(re: Regex, fields: Seq<(Seq<char>, JsonV)>) -> Seq<Seq<char>>
    decreases fields,
{
    if fields.len() == 0 {
        Seq::empty()
    } else {
        let n = fields.len() - 1;
        names_in_fields(re, fields.subrange(0, n)) + file_names(re, fields[n].1)
    }
}

/// The value loaded for `name`, if the table holds it; the first entry wins.
pub open spec fn loaded_for(table: Seq<(Seq<char>, JsonV)>, name: Seq<char>) -> Option<JsonV>
    decreases table.len(),
{
    if table.len() == 0 {
        None
    } else if table[0].0 == name {
        Some(table[0].1)
    } else {
        loaded_for(table.drop_first(), name)
    }
}

/// `v` with each string that the expression marks as a file name and that
/// the table holds replaced by its value; every other value stays.
pub open spec fn substituted(re: Regex, v: JsonV, table: Seq<(Seq<char>, JsonV)>) -> JsonV
    decreases v,
{
    match v {
        JsonV::Array(items) => JsonV::Array(
            Seq::new(
                items.len(),
                |i: int|
                    if 0 <= i < items.len() {
                        substituted(re, items[i], table)
                    } else {
                        JsonV::Null
                    },
            ),
        ),
        JsonV::Object(fields) => JsonV::Object(
            Seq::new(
                fields.len(),
                |i: int|
                    if 0 <= i < fields.len() {
                        (fields[i].0, substituted(re, fields[i].1, table))
                    } else {
                        (Seq::empty(), JsonV::Null)
                    },
            ),
        ),
        JsonV::Str(s) => if regex_matches(re, s) {
            match loaded_for(table, s) {
                Some(w) => w,
                None => v,
            }
        } else {
            v
        },
        _ => v,
    }
}

impl Json {
    /// A copy of this value.
    pub fn deep_clone(&self) -> (r: Json)
        ensures
            r@ == self@,
        decreases self,
    {
        match self {
            Json::Null => Json::Null,
            Json::Bool(b) => Json::Bool(*b),
            Json::Number(n) => Json::Number(n.clone()),
            Json::String(s) => Json::String(s.clone()),
            Json::Array(items) => {
                let out = Self::clone_items(items);
                let ghost ov = out@;
                let r = Json::Array(out);
                assert(r@->Array_0 =~= seq_views(ov));
                assert(self@->Array_0 =~= seq_views(items@));
                r
            },
            Json::Object(fields) => {
                let out = Self::clone_fields(fields);
                let ghost ov = out@;
                let r = Json::Object(out);
                assert(r@->Object_0 =~= field_views(ov));
                assert(self@->Object_0 =~= field_views(fields@));
                r
            },
        }
    }

    fn clone_items(items: &Vec<Json>) -> (r: Vec<Json>)
        ensures
            seq_views(r@) == seq_views(items@),
        decreases items,
    {
        let mut out: Vec<Json> = Vec::new();
        let mut i: usize = 0;
        while i < items.len()
            invariant
                i <= items.len(),
                seq_views(out@) =~= seq_views(items@).subrange(0, i as int),
            decreases items.len() - i,
        {
            proof {
                assert(decreases_to!(items => items@[i as int]));
            }
            let c = items[i].deep_clone();
            let ghost before = seq_views(out@);
            out.push(c);
            assert(seq_views(out@) =~= before.push(items@[i as int]@));
            i += 1;
        }
        assert(seq_views(items@).subrange(0, items.len() as int) =~= seq_views(items@));
        out
    }

    fn clone_fields(fields: &Vec<(String, Json)>) -> (r: Vec<(String, Json)>)
        ensures
            field_views(r@) == field_views(fields@),
        decreases fields,
    {
        let mut out: Vec<(String, Json)> = Vec::new();
        let mut i: usize = 0;
        while i < fields.len()
            invariant
                i <= fields.len(),
                field_views(out@) =~= field_views(fields@).subrange(0, i as int),
            decreases fields.len() - i,
        {
            proof {
                assert(decreases_to!(fields => fields@[i as int]));
            }
            let c = fields[i].1.deep_clone();
            let k = fields[i].0.clone();
            let ghost before = field_views(out@);
            out.push((k, c));
            assert(field_views(out@) =~= before.push((fields@[i as int].0@, fields@[i as int].1@)));
            i += 1;
        }
        assert(field_views(fields@).subrange(0, fields.len() as int) =~= field_views(fields@));
        out
    }
}

/// Options of file dereferencing: the expression that marks a string as a
/// file name.
pub struct Resolve {
    pub regex: Regex,
}

impl Resolve {
    /// The strings of `val` that the expression marks as file names, in
    /// walk order.
    pub fn file_names(&self, val: &Json) -> (r: Vec<String>)
        ensures
            views_of(r@) == file_names(self.regex, val@),
    {
        let mut out: Vec<String> = Vec::new();
        self.collect(val, &mut out);
        assert(views_of(out@) =~= Seq::<Seq<char>>::empty() + file_names(self.regex, val@));
        out
    }

    fn collect(&self, val: &Json, out: &mut Vec<String>)
        ensures
            views_of(final(out)@) == views_of(old(out)@) + file_names(self.regex, val@),
        decreases val,
    {
        match val {
            Json::Array(items) => {
                self.collect_items(items, out);
                assert(val@->Array_0 =~= seq_views(items@));
            },
            Json::Object(fields) => {
                self.collect_fields(fields, out);
                assert(val@->Object_0 =~= field_views(fields@));
            },
            Json::String(s) => {
                if is_match(&self.regex, s.as_str()) {
                    let ghost before = views_of(out@);
                    out.push(s.clone());
                    assert(views_of(out@) =~= before + seq![s@]);
                } else {
                    assert(views_of(out@) =~= views_of(out@) + Seq::<Seq<char>>::empty());
                }
            },
            _ => {
                assert(views_of(out@) =~= views_of(out@) + Seq::<Seq<char>>::empty());
            },
        }
    }

    fn collect_items(&self, items: &Vec<Json>, out: &mut Vec<String>)
        ensures
            views_of(final(out)@) == views_of(old(out)@) + names_in_items(self.regex, seq_views(items@)),
        decreases items,
    {
        let ghost start = views_of(out@);
        let ghost iv = seq_views(items@);
        let mut i: usize = 0;
        assert(iv.subrange(0, 0) =~= Seq::<JsonV>::empty());
        assert(views_of(out@) =~= start + names_in_items(self.regex, iv.subrange(0, 0)));
        while i < items.len()
            invariant
                i <= items.len(),
                iv == seq_views(items@),
                views_of(out@) == start + names_in_items(self.regex, iv.subrange(0, i as int)),
            decreases items.len() - i,
        {
            proof {
                assert(decreases_to!(items => items@[i as int]));
            }
            self.collect(&items[i], out);
            proof {
                let sub = iv.subrange(0, i + 1);
                assert(sub.subrange(0, i as int) =~= iv.subrange(0, i as int));
                assert(sub[i as int] == items@[i as int]@);
                assert(views_of(out@) =~= start + names_in_items(self.regex, sub));
            }
            i += 1;
        }
        assert(iv.subrange(0, iv.len() as int) =~= iv);
    }

    fn collect_fields(&self, fields: &Vec<(String, Json)>, out: &mut Vec<String>)
        ensures
            views_of(final(out)@) == views_of(old(out)@) + names_in_fields(self.regex, field_views(fields@)),
        decreases fields,
    {
        let ghost start = views_of(out@);
        let ghost fv = field_views(fields@);
        let mut i: usize = 0;
        assert(fv.subrange(0, 0) =~= Seq::<(Seq<char>, JsonV)>::empty());
        assert(views_of(out@) =~= start + names_in_fields(self.regex, fv.subrange(0, 0)));
        while i < fields.len()
            invariant
                i <= fields.len(),
                fv == field_views(fields@),
                views_of(out@) == start + names_in_fields(self.regex, fv.subrange(0, i as int)),
            decreases fields.len() - i,
        {
            proof {
                assert(decreases_to!(fields => fields@[i as int]));
            }
            self.collect(&fields[i].1, out);
            proof {
                let sub = fv.subrange(0, i + 1);
                assert(sub.subrange(0, i as int) =~= fv.subrange(0, i as int));
                assert(sub[i as int].1 == fields@[i as int].1@);
                assert(views_of(out@) =~= start + names_in_fields(self.regex, sub));
            }
            i += 1;
        }
        assert(fv.subrange(0, fv.len() as int) =~= fv);
    }

    /// Replaces in `val` each string that the expression marks as a file
    /// name and that names a loaded file by the value loaded from it; other
    /// strings stay.
    pub fn resolve(&self, val: &mut Json, loaded: &Vec<(String, Json)>)
        ensures
            final(val)@ == substituted(self.regex, old(val)@, field_views(loaded@)),
    {
        let mut v = Json::Null;
        std::mem::swap(val, &mut v);
        *val = substitute(&self.regex, v, loaded);
    }
}

fn find_loaded(loaded: &Vec<(String, Json)>, name: &String) -> (r: Option<Json>)
    ensures
        match loaded_for(field_views(loaded@), name@) {
            Some(w) => r is Some && r->Some_0@ == w,
            None => r is None,
        },
{
    let ghost t = field_views(loaded@);
    let mut i: usize = 0;
    assert(t.subrange(0, t.len() as int) =~= t);
    while i < loaded.len()
        invariant
            i <= loaded.len(),
            t == field_views(loaded@),
            loaded_for(t, name@) == loaded_for(t.subrange(i as int, t.len() as int), name@),
        decreases loaded.len() - i,
    {
        let ghost rest = t.subrange(i as int, t.len() as int);
        assert(rest[0] == t[i as int]);
        if loaded[i].0 == *name {
            return Some(loaded[i].1.deep_clone());
        }
        assert(rest.drop_first() =~= t.subrange(i + 1, t.len() as int));
        i += 1;
    }
    None
}

fn substitute(re: &Regex, v: Json, loaded: &Vec<(String, Json)>) -> (r: Json)
    ensures
        r@ == substituted(*re, v@, field_views(loaded@)),
    decreases v,
{
    let ghost whole = v@;
    match v {
        Json::Array(items) => {
            let ghost iv = seq_views(items@);
            assert(whole->Array_0 =~= iv);
            let out = substitute_items(re, items, loaded);
            let ghost ov = out@;
            let r = Json::Array(out);
            assert(r@->Array_0 =~= seq_views(ov));
            assert(substituted(*re, whole, field_views(loaded@))->Array_0 =~= seq_views(ov));
            r
        },
        Json::Object(fields) => {
            let ghost fv = field_views(fields@);
            assert(whole->Object_0 =~= fv);
            let out = substitute_fields(re, fields, loaded);
            let ghost ov = out@;
            let r = Json::Object(out);
            assert(r@->Object_0 =~= field_views(ov));
            assert(substituted(*re, whole, field_views(loaded@))->Object_0 =~= field_views(ov));
            r
        },
        Json::String(s) => {
            if is_match(re, s.as_str()) {
                match find_loaded(loaded, &s) {
                    Some(w) => w,
                    None => Json::String(s),
                }
            } else {
                Json::String(s)
            }
        },
        other => other,
    }
}

fn substitute_items(re: &Regex, items: Vec<Json>, loaded: &Vec<(String, Json)>) -> (r: Vec<Json>)
    ensures
        r@.len() == items@.len(),
        forall|i: int| 0 <= i < items@.len() ==> (#[trigger] r@[i])@ == substituted(*re, items@[i]@, field_views(loaded@)),
    decreases items,
{
    let ghost all = items@;
    let mut out: Vec<Json> = Vec::new();
    for item in it: items.into_iter()
        invariant
            it.seq() == all,
            out@.len() == it.index(),
            forall|i: int| 0 <= i < out@.len() ==> (#[trigger] out@[i])@ == substituted(*re, all[i]@, field_views(loaded@)),
    {
        let ghost i = it.index() as int;
        proof {
            assert(decreases_to!(items => all[i]));
        }
        out.push(substitute(re, item, loaded));
    }
    out
}

fn substitute_fields(re: &Regex, fields: Vec<(String, Json)>, loaded: &Vec<(String, Json)>) -> (r: Vec<(String, Json)>)
    ensures
        r@.len() == fields@.len(),
        forall|i: int| 0 <= i < fields@.len() ==> (#[trigger] r@[i]).0@ == fields@[i].0@ && r@[i].1@ == substituted(*re, fields@[i].1@, field_views(loaded@)),
    decreases fields,
{
    let ghost all = fields@;
    let mut out: Vec<(String, Json)> = Vec::new();
    for pair in it: fields.into_iter()
        invariant
            it.seq() == all,
            out@.len() == it.index(),
            forall|i: int| 0 <= i < out@.len() ==> (#[trigger] out@[i]).0@ == all[i].0@ && out@[i].1@ == substituted(*re, all[i].1@, field_views(loaded@)),
    {
        let ghost i = it.index() as int;
        assert(pair == all[i]);
        let (k, val) = pair;
        proof {
            assert(decreases_to!(fields => all[i]));
        }
        out.push((k, substitute(re, val, loaded)));
    }
    out
}

} // verus!
