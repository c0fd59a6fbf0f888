//! Flattening: a depth-first walk that turns a nested value into an ordered
//! map from path keys to scalars.
use vstd::prelude::*;
use indexmap::IndexMap;
use crate::json::{Json, JsonV};
use crate::path::{decimal, index_text, join, join_key, key_text, key_view};

verus! {

/// The ordered map that collects the flattened entries.
#[verifier::external_type_specification]
#[verifier::external_body]
#[verifier::reject_recursive_types(K)]
#[verifier::reject_recursive_types(V)]
#[verifier::reject_recursive_types(S)]
pub struct ExIndexMap<K, V, S>(IndexMap<K, V, S>);

/// The entries of an ordered map of flattened values, in map order.
pub uninterp spec fn flat_entries(m: IndexMap<String, Json>) -> Seq<(Seq<char>, JsonV)>;

/// The models of a sequence of entries.
pub open spec fn entry_views(v: Seq<(String, Json)>) -> Seq<(Seq<char>, JsonV)> {
    v.map_values(|e: (String, Json)| (e.0@, e.1@))
}

/// The models of a sequence of values.
pub open spec fn item_views(v: Seq<Json>) -> Seq<JsonV> {
    v.map_values(|j: Json| j@)
}

/// Whether `k` is the key of some entry of `m`.
pub open spec fn has_key(m: Seq<(Seq<char>, JsonV)>, k: Seq<char>) -> bool {
    exists|i: int| 0 <= i < m.len() && m[i].0 == k
}

/// No key occurs twice.
pub open spec fn keys_unique(m: Seq<(Seq<char>, JsonV)>) -> bool {
    forall|i: int, j: int| 0 <= i < m.len() && 0 <= j < m.len() && i != j ==> m[i].0 != m[j].0
}

/// Inserting into an ordered map: an existing key keeps its place and takes
/// the new value; a new key goes last.
pub open spec fn insert_entry(m: Seq<(Seq<char>, JsonV)>, k: Seq<char>, v: JsonV) -> Seq<
    (Seq<char>, JsonV),
> {
    if has_key(m, k) {
        let i = choose|i: int| 0 <= i < m.len() && m[i].0 == k;
        m.update(i, (k, v))
    } else {
        m.push((k, v))
    }
}

/// Inserting pairs one after the other, from the first.
pub open spec fn insert_all(m: Seq<(Seq<char>, JsonV)>, pairs: Seq<(Seq<char>, JsonV)>) -> Seq<
    (Seq<char>, JsonV),
>
    decreases pairs.len(),
{
    if pairs.len() == 0 {
        m
    } else {
        let last = pairs[pairs.len() - 1];
        insert_entry(insert_all(m, pairs.subrange(0, pairs.len() - 1)), last.0, last.1)
    }
}

/// The (key, scalar) pairs met by a depth-first walk of `v` that starts at
/// `key`; `None` is the top, where no segment has been joined yet.
pub open spec fn flat_pairs(key: Option<Seq<char>>, v: JsonV, sep: Seq<char>) -> Seq<(Seq<char>, JsonV)>
    decreases v,
{
    match v {
        JsonV::Array(items) => flat_items(key, items, sep),
        JsonV::Object(fields) => flat_fields(key, fields, sep),
        _ => seq![(key_text(key), v)],
    }
}

/// The walk over array elements, each under its index.
pub open spec fn flat_items(key: Option<Seq<char>>, items: Seq<JsonV>, sep: Seq<char>) -> Seq<
    (Seq<char>, JsonV),
>
    decreases items,
{
    if items.len() == 0 {
        Seq::empty()
    } else {
        let n = items.len() - 1;
        flat_items(key, items.subrange(0, n), sep) + flat_pairs(
            Some(join_key(key, decimal(n as nat), sep)),
            items[n],
            sep,
        )
    }
}

/// The walk over object fields, each under its name.
pub open spec fn flat_fields(key: Option<Seq<char>>, fields: Seq<(Seq<char>, JsonV)>, sep: Seq<char>) -> Seq<
    (Seq<char>, JsonV),
>
    decreases fields,
{
    if fields.len() == 0 {
        Seq::empty()
    } else {
        let n = fields.len() - 1;
        flat_fields(key, fields.subrange(0, n), sep) + flat_pairs(
            Some(join_key(key, fields[n].0, sep)),
            fields[n].1,
            sep,
        )
    }
}

/// What flattening a whole value gives: a scalar is returned as it is; a
/// container becomes the object of its flattened entries.
pub open spec fn flatten_spec(v: JsonV, sep: Seq<char>) -> JsonV {
    if v.is_scalar() {
        v
    } else {
        JsonV::Object(insert_all(Seq::empty(), flat_pairs(None, v, sep)))
    }
}

/// Relies on `IndexMap::new`: the new map is empty.
#[verifier::external_body]
fn flat_new() -> (r: IndexMap<String, Json>)
    ensures
        flat_entries(r) == Seq::<(Seq<char>, JsonV)>::empty(),
{
    IndexMap::new()
}

/// Relies on `IndexMap::insert`: an existing key keeps its place and takes
/// the new value; a new key goes last.
#[verifier::external_body]
fn flat_insert(m: &mut IndexMap<String, Json>, k: String, v: Json)
    ensures
        flat_entries(*final(m)) == insert_entry(flat_entries(*old(m)), k@, v@),
{
    m.insert(k, v);
}

/// Relies on `IntoIterator for IndexMap`: the entries come out in map order.
#[verifier::external_body]
fn flat_into_entries(m: IndexMap<String, Json>) -> (r: Vec<(String, Json)>)
    ensures
        entry_views(r@) == flat_entries(m),
{
    m.into_iter().collect()
}

pub proof fn lemma_insert_all_append(
    m: Seq<(Seq<char>, JsonV)>,
    a: Seq<(Seq<char>, JsonV)>,
    b: Seq<(Seq<char>, JsonV)>,
)
    ensures
        insert_all(m, a + b) == insert_all(insert_all(m, a), b),
    decreases b.len(),
{
    if b.len() == 0 {
        assert(a + b =~= a);
    } else {
        let n = b.len() - 1;
        assert((a + b).subrange(0, (a + b).len() - 1) =~= a + b.subrange(0, n));
        assert((a + b)[(a + b).len() - 1] == b[n]);
        lemma_insert_all_append(m, a, b.subrange(0, n));
    }
}


/// Flattening and unflattening, with the separator that joins path segments.
pub struct Flatten {
    pub sep: String,
}

impl Flatten {
    /// Flattens each (name, value) pair in order, under the key that joins
    /// `current_key` and the name.
    pub fn recurse(
        &self,
        output: &mut IndexMap<String, Json>,
        current_key: Option<String>,
        items: Vec<(String, Json)>,
    )
        ensures
            flat_entries(*final(output)) == insert_all(
                flat_entries(*old(output)),
                flat_fields(key_view(current_key), entry_views(items@), self.sep@),
            ),
        decreases items,
    {
        let ghost fields = entry_views(items@);
        let ghost start = flat_entries(*output);
        let ghost all = items@;
        for pair in it: items.into_iter()
            invariant
                it.seq() == all,
                fields == entry_views(all),
                flat_entries(*output) == insert_all(
                    start,
                    flat_fields(key_view(current_key), fields.subrange(0, it.index() as int), self.sep@),
                ),
        {
            let ghost i = it.index() as int;
            let (k, val) = pair;
            let key = join(&current_key, k.as_str(), self.sep.as_str());
            proof {
                assert(decreases_to!(items => all[i]));
            }
            self.flatten(output, Some(key), val);
            proof {
                let f = fields.subrange(0, i + 1);
                assert(f.subrange(0, i) =~= fields.subrange(0, i));
                lemma_insert_all_append(
                    start,
                    flat_fields(key_view(current_key), fields.subrange(0, i), self.sep@),
                    flat_pairs(Some(key@), val@, self.sep@),
                );
            }
        }
        assert(fields.subrange(0, fields.len() as int) =~= fields);
    }

    /// Flattens each array element in order, under the key that joins
    /// `current_key` and the element's index.
    fn recurse_items(&self, output: &mut IndexMap<String, Json>, current_key: Option<String>, items: Vec<Json>)
        ensures
            flat_entries(*final(output)) == insert_all(
                flat_entries(*old(output)),
                flat_items(key_view(current_key), item_views(items@), self.sep@),
            ),
        decreases items,
    {
        let ghost all = items@;
        let ghost elems = item_views(all);
        let ghost start = flat_entries(*output);
        let n = items.len();
        let mut idx: usize = 0;
        for item in it: items.into_iter()
            invariant
                it.seq() == all,
                all.len() == n,
                idx == it.index(),
                elems == item_views(all),
                flat_entries(*output) == insert_all(
                    start,
                    flat_items(key_view(current_key), elems.subrange(0, idx as int), self.sep@),
                ),
        {
            let ghost i = it.index() as int;
            let key = join(&current_key, index_text(idx).as_str(), self.sep.as_str());
            proof {
                assert(decreases_to!(items => all[i]));
            }
            self.flatten(output, Some(key), item);
            assert(i < n);
            proof {
                let f = elems.subrange(0, i + 1);
                assert(f.subrange(0, i) =~= elems.subrange(0, i));
                lemma_insert_all_append(
                    start,
                    flat_items(key_view(current_key), elems.subrange(0, i), self.sep@),
                    flat_pairs(Some(key@), item@, self.sep@),
                );
            }
            idx = idx + 1;
        }
        assert(elems.subrange(0, elems.len() as int) =~= elems);
    }

    /// Flattens `current_value`, found at `current_key`, into `output`:
    /// array elements go under their index, object fields under their
    /// name, and a scalar is inserted at `current_key`.
    pub fn flatten(&self, output: &mut IndexMap<String, Json>, current_key: Option<String>, current_value: Json)
        ensures
            flat_entries(*final(output)) == insert_all(
                flat_entries(*old(output)),
                flat_pairs(key_view(current_key), current_value@, self.sep@),
            ),
        decreases current_value,
    {
        let ghost whole = current_value@;
        match current_value {
            Json::Array(items) => {
                let ghost all = items@;
                self.recurse_items(output, current_key, items);
                assert(whole->Array_0 =~= item_views(all));
            },
            Json::Object(fields) => {
                let ghost all = fields@;
                self.recurse(output, current_key, fields);
                assert(whole->Object_0 =~= entry_views(all));
            },
            scalar => {
                let ghost before = flat_entries(*output);
                let ghost key = key_text(key_view(current_key));
                assert(whole.is_scalar());
                assert(flat_pairs(key_view(current_key), whole, self.sep@) == seq![(key, whole)]);
                let k = match current_key {
                    Some(k) => k,
                    None => String::new(),
                };
                flat_insert(output, k, scalar);
                let ghost one = seq![(key, whole)];
                assert(one.subrange(0, 0) =~= Seq::<(Seq<char>, JsonV)>::empty());
                assert(insert_all(before, one.subrange(0, 0)) == before);
                assert(insert_all(before, one) == insert_entry(before, key, whole));
            },
        }
    }

    /// Flattens one value: an array or object becomes the object of its
    /// flattened entries, in walk order; a scalar is returned unchanged.
    pub fn process_one(&self, value: Json) -> (r: Json)
        ensures
            r@ == flatten_spec(value@, self.sep@),
    {
        let is_container = match &value {
            Json::Array(_) => true,
            Json::Object(_) => true,
            _ => false,
        };
        if is_container {
            let mut flat = flat_new();
            self.flatten(&mut flat, None, value);
            let entries = flat_into_entries(flat);
            let ghost ev = entries@;
            let r = Json::Object(entries);
            assert(r@->Object_0 =~= entry_views(ev));
            r
        } else {
            value
        }
    }
}

} // verus!
