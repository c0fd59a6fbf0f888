//! Laws relating flattening and unflattening.
use vstd::prelude::*;
use crate::json::JsonV;
use crate::flatten::{flat_items, flat_fields, flat_pairs, flatten_spec, insert_all, insert_entry, keys_unique, has_key};
use crate::tree::{build_tree, child_index, first_at, tree_insert, tree_json, unflatten_spec, TreeV};
use crate::path::{decimal, join_key, lemma_split_nonempty, split_on};

verus! {

proof fn lemma_insert_all_unique(s: Seq<(Seq<char>, JsonV)>)
    requires
        keys_unique(s),
    ensures
        insert_all(Seq::empty(), s) == s,
    decreases s.len(),
{
    if s.len() > 0 {
        let n = s.len() - 1;
        let pre = s.subrange(0, n);
        lemma_insert_all_unique(pre);
        assert(!has_key(pre, s[n].0)) by {
            if has_key(pre, s[n].0) {
                let i = choose|i: int| 0 <= i < pre.len() && pre[i].0 == s[n].0;
                assert(s[i].0 == s[n].0);
            }
        }
        assert(insert_entry(pre, s[n].0, s[n].1) =~= s);
    }
}

proof fn lemma_flat_fields_of_scalars(fields: Seq<(Seq<char>, JsonV)>, sep: Seq<char>)
    requires
        forall|i: int| 0 <= i < fields.len() ==> (#[trigger] fields[i]).1.is_scalar(),
    ensures
        flat_fields(None, fields, sep) == fields,
    decreases fields.len(),
{
    if fields.len() > 0 {
        let n = fields.len() - 1;
        let pre = fields.subrange(0, n);
        lemma_flat_fields_of_scalars(pre, sep);
        assert(join_key(None, fields[n].0, sep) == fields[n].0);
        assert(flat_pairs(Some(fields[n].0), fields[n].1, sep) == seq![fields[n]]);
        assert(pre + seq![fields[n]] =~= fields);
    }
}

/// Flattening an object whose values are all scalars gives the same object:
/// the same pairs in the same order.
pub proof fn lemma_flatten_flat_object(fields: Seq<(Seq<char>, JsonV)>, sep: Seq<char>)
    requires
        keys_unique(fields),
        forall|i: int| 0 <= i < fields.len() ==> (#[trigger] fields[i]).1.is_scalar(),
    ensures
        flatten_spec(JsonV::Object(fields), sep) == JsonV::Object(fields),
{
    lemma_flat_fields_of_scalars(fields, sep);
    lemma_insert_all_unique(fields);
}

/// Every value of the entries is a scalar.
pub open spec fn all_scalar(s: Seq<(Seq<char>, JsonV)>) -> bool {
    forall|i: int| 0 <= i < s.len() ==> (#[trigger] s[i]).1.is_scalar()
}

proof fn lemma_flat_pairs_scalar(key: Option<Seq<char>>, v: JsonV, sep: Seq<char>)
    ensures
        all_scalar(flat_pairs(key, v, sep)),
    decreases v, 0nat,
{
    match v {
        JsonV::Array(items) => lemma_flat_items_scalar(key, items, sep),
        JsonV::Object(fields) => lemma_flat_fields_scalar(key, fields, sep),
        _ => {},
    }
}

proof fn lemma_flat_items_scalar(key: Option<Seq<char>>, items: Seq<JsonV>, sep: Seq<char>)
    ensures
        all_scalar(flat_items(key, items, sep)),
    decreases items, 1nat,
{
    if items.len() > 0 {
        let n = items.len() - 1;
        lemma_flat_items_scalar(key, items.subrange(0, n), sep);
        lemma_flat_pairs_scalar(Some(join_key(key, decimal(n as nat), sep)), items[n], sep);
        let a = flat_items(key, items.subrange(0, n), sep);
        let b = flat_pairs(Some(join_key(key, decimal(n as nat), sep)), items[n], sep);
        assert forall|i: int| 0 <= i < (a + b).len() implies (#[trigger] (a + b)[i]).1.is_scalar() by {
            if i >= a.len() {
                assert((a + b)[i] == b[i - a.len()]);
            } else {
                assert((a + b)[i] == a[i]);
            }
        }
    }
}

proof fn lemma_flat_fields_scalar(key: Option<Seq<char>>, fields: Seq<(Seq<char>, JsonV)>, sep: Seq<char>)
    ensures
        all_scalar(flat_fields(key, fields, sep)),
    decreases fields, 1nat,
{
    if fields.len() > 0 {
        let n = fields.len() - 1;
        lemma_flat_fields_scalar(key, fields.subrange(0, n), sep);
        assert(decreases_to!(fields => fields[n].1)) by {
            assert(decreases_to!(fields => fields[n]));
        }
        lemma_flat_pairs_scalar(Some(join_key(key, fields[n].0, sep)), fields[n].1, sep);
        let a = flat_fields(key, fields.subrange(0, n), sep);
        let b = flat_pairs(Some(join_key(key, fields[n].0, sep)), fields[n].1, sep);
        assert forall|i: int| 0 <= i < (a + b).len() implies (#[trigger] (a + b)[i]).1.is_scalar() by {
            if i >= a.len() {
                assert((a + b)[i] == b[i - a.len()]);
            } else {
                assert((a + b)[i] == a[i]);
            }
        }
    }
}

proof fn lemma_insert_entry_keeps(m: Seq<(Seq<char>, JsonV)>, k: Seq<char>, v: JsonV)
    requires
        keys_unique(m),
        all_scalar(m),
        v.is_scalar(),
    ensures
        keys_unique(insert_entry(m, k, v)),
        all_scalar(insert_entry(m, k, v)),
{
    let r = insert_entry(m, k, v);
    if has_key(m, k) {
        let i = choose|i: int| 0 <= i < m.len() && m[i].0 == k;
        assert(r == m.update(i, (k, v)));
        assert(keys_unique(r)) by {
            assert forall|x: int, y: int| 0 <= x < r.len() && 0 <= y < r.len() && x != y implies r[x].0
                != r[y].0 by {
                assert(r[x].0 == m[x].0);
                assert(r[y].0 == m[y].0);
            }
        }
    } else {
        assert(r == m.push((k, v)));
        assert(keys_unique(r)) by {
            assert forall|x: int, y: int| 0 <= x < r.len() && 0 <= y < r.len() && x != y implies r[x].0
                != r[y].0 by {
                if x == m.len() {
                    assert(r[y] == m[y]);
                } else if y == m.len() {
                    assert(r[x] == m[x]);
                } else {
                    assert(r[x] == m[x] && r[y] == m[y]);
                }
            }
        }
    }
}

proof fn lemma_insert_all_keeps(m: Seq<(Seq<char>, JsonV)>, pairs: Seq<(Seq<char>, JsonV)>)
    requires
        keys_unique(m),
        all_scalar(m),
        all_scalar(pairs),
    ensures
        keys_unique(insert_all(m, pairs)),
        all_scalar(insert_all(m, pairs)),
    decreases pairs.len(),
{
    if pairs.len() > 0 {
        let n = pairs.len() - 1;
        let front = pairs.subrange(0, n);
        assert forall|i: int| 0 <= i < front.len() implies (#[trigger] front[i]).1.is_scalar() by {
            assert(front[i] == pairs[i]);
        }
        lemma_insert_all_keeps(m, front);
        assert(pairs[n].1.is_scalar());
        lemma_insert_entry_keeps(insert_all(m, front), pairs[n].0, pairs[n].1);
    }
}

/// Flattening is idempotent: flattening the result of a flattening gives it
/// back unchanged, the same pairs in the same order.
pub proof fn lemma_flatten_idempotent(v: JsonV, sep: Seq<char>)
    ensures
        flatten_spec(flatten_spec(v, sep), sep) == flatten_spec(v, sep),
{
    if !v.is_scalar() {
        let e = Seq::<(Seq<char>, JsonV)>::empty();
        lemma_flat_pairs_scalar(None, v, sep);
        lemma_insert_all_keeps(e, flat_pairs(None, v, sep));
        let fields = insert_all(e, flat_pairs(None, v, sep));
        lemma_flatten_flat_object(fields, sep);
    }
}

/// A key that splits back to itself: the first occurrence of the separator
/// in the key followed by the separator is the appended one.
pub open spec fn clean_key(k: Seq<char>, sep: Seq<char>) -> bool {
    split_on(k + sep, sep) == seq![k, Seq::<char>::empty()]
}

/// A value whose flattened keys cannot collide: no arrays, no empty
/// objects, and in each object distinct clean keys.
pub open spec fn nested(v: JsonV, sep: Seq<char>) -> bool
    decreases v,
{
    match v {
        JsonV::Object(fields) => {
            &&& fields.len() > 0
            &&& keys_unique(fields)
            &&& forall|i: int|
                0 <= i < fields.len() ==> clean_key(#[trigger] fields[i].0, sep) && nested(
                    fields[i].1,
                    sep,
                )
        },
        JsonV::Array(_) => false,
        _ => true,
    }
}

proof fn lemma_split_clean_head(t: Seq<char>, sep: Seq<char>, r: Seq<char>)
    requires
        sep.len() > 0,
        split_on(t + sep, sep) == seq![t, Seq::<char>::empty()],
    ensures
        split_on(t + sep + r, sep) == seq![t] + split_on(r, sep),
    decreases t.len(),
{
    let u = t + sep;
    let w = t + sep + r;
    let m = sep.len() as int;
    if t.len() == 0 {
        assert(w.subrange(0, m) =~= sep);
        assert(w.subrange(m, w.len() as int) =~= r);
        assert(t =~= Seq::<char>::empty());
    } else {
        assert(u.subrange(0, m) != sep) by {
            if u.subrange(0, m) == sep {
                assert(split_on(u, sep)[0] == Seq::<char>::empty());
            }
        }
        let t1 = t.drop_first();
        assert(u.drop_first() =~= t1 + sep);
        lemma_split_nonempty(t1 + sep, sep);
        let rr = split_on(t1 + sep, sep);
        assert(rr.update(0, seq![t[0]] + rr[0]) == seq![t, Seq::<char>::empty()]);
        assert(rr.len() == 2);
        assert(rr[1] == Seq::<char>::empty()) by {
            assert(rr.update(0, seq![t[0]] + rr[0])[1] == rr[1]);
        }
        assert(rr[0] =~= t1) by {
            assert(seq![t[0]] + rr[0] == t) by {
                assert(rr.update(0, seq![t[0]] + rr[0])[0] == seq![t[0]] + rr[0]);
            }
            assert((seq![t[0]] + rr[0]).drop_first() =~= rr[0]);
        }
        assert(rr =~= seq![t1, Seq::<char>::empty()]);
        lemma_split_clean_head(t1, sep, r);
        assert(w.subrange(0, m) =~= u.subrange(0, m));
        assert(w.drop_first() =~= t1 + sep + r);
        let ss = split_on(t1 + sep + r, sep);
        assert(seq![t[0]] + t1 =~= t);
        assert(ss.update(0, seq![t[0]] + ss[0]) =~= seq![t] + split_on(r, sep));
    }
}

proof fn lemma_split_clean_whole(t: Seq<char>, sep: Seq<char>)
    requires
        sep.len() > 0,
        split_on(t + sep, sep) == seq![t, Seq::<char>::empty()],
    ensures
        split_on(t, sep) == seq![t],
    decreases t.len(),
{
    let u = t + sep;
    let m = sep.len() as int;
    if t.len() > 0 {
        assert(u.subrange(0, m) != sep) by {
            if u.subrange(0, m) == sep {
                assert(split_on(u, sep)[0] == Seq::<char>::empty());
            }
        }
        let t1 = t.drop_first();
        assert(u.drop_first() =~= t1 + sep);
        lemma_split_nonempty(t1 + sep, sep);
        let rr = split_on(t1 + sep, sep);
        assert(rr.update(0, seq![t[0]] + rr[0]) == seq![t, Seq::<char>::empty()]);
        assert(rr.len() == 2);
        assert(rr[1] == Seq::<char>::empty()) by {
            assert(rr.update(0, seq![t[0]] + rr[0])[1] == rr[1]);
        }
        assert(rr[0] =~= t1) by {
            assert(seq![t[0]] + rr[0] == t) by {
                assert(rr.update(0, seq![t[0]] + rr[0])[0] == seq![t[0]] + rr[0]);
            }
            assert((seq![t[0]] + rr[0]).drop_first() =~= rr[0]);
        }
        assert(rr =~= seq![t1, Seq::<char>::empty()]);
        lemma_split_clean_whole(t1, sep);
        assert(seq![t[0]] + t1 =~= t);
        if t.len() >= m {
            assert(t.subrange(0, m) =~= u.subrange(0, m));
            assert(t.drop_first() =~= t1);
            let ss = split_on(t1, sep);
            assert(ss.update(0, seq![t[0]] + ss[0]) =~= seq![t]);
        }
    }
}

/// The key of a path of segments: the segments joined by the separator.
pub open spec fn join_path(q: Seq<Seq<char>>, sep: Seq<char>) -> Seq<char>
    decreases q.len(),
{
    if q.len() == 0 {
        Seq::empty()
    } else if q.len() == 1 {
        q[0]
    } else {
        join_path(q.subrange(0, q.len() - 1), sep) + sep + q[q.len() - 1]
    }
}

/// The key that the walk carries at the end of a path; `None` at the top.
pub open spec fn path_key(q: Seq<Seq<char>>, sep: Seq<char>) -> Option<Seq<char>> {
    if q.len() == 0 {
        None
    } else {
        Some(join_path(q, sep))
    }
}

/// Every segment of the path is a clean key.
pub open spec fn clean_path(q: Seq<Seq<char>>, sep: Seq<char>) -> bool {
    forall|i: int| 0 <= i < q.len() ==> clean_key(#[trigger] q[i], sep)
}

proof fn lemma_join_path_head(q: Seq<Seq<char>>, sep: Seq<char>)
    requires
        q.len() >= 2,
    ensures
        join_path(q, sep) == q[0] + sep + join_path(q.drop_first(), sep),
    decreases q.len(),
{
    let n = q.len() - 1;
    let q1 = q.subrange(0, n);
    let d = q.drop_first();
    assert(d.subrange(0, d.len() - 1) =~= q1.drop_first());
    if n == 1 {
        assert(join_path(q1, sep) == q[0]);
        assert(join_path(d, sep) == q[1]);
    } else {
        lemma_join_path_head(q1, sep);
        assert(q1[0] == q[0]);
        assert(join_path(d, sep) == join_path(q1.drop_first(), sep) + sep + q[n]);
        assert(join_path(q, sep) =~= q[0] + sep + join_path(d, sep));
    }
}

/// Splitting the key of a clean path gives the path back.
proof fn lemma_split_join_path(q: Seq<Seq<char>>, sep: Seq<char>)
    requires
        sep.len() > 0,
        q.len() > 0,
        clean_path(q, sep),
    ensures
        split_on(join_path(q, sep), sep) == q,
    decreases q.len(),
{
    assert(clean_key(q[0], sep));
    if q.len() == 1 {
        assert(q.subrange(0, 0) =~= Seq::<Seq<char>>::empty());
        lemma_split_clean_whole(q[0], sep);
        assert(join_path(q, sep) == q[0]);
        assert(seq![q[0]] =~= q);
    } else {
        lemma_join_path_head(q, sep);
        assert(clean_path(q.drop_first(), sep)) by {
            assert forall|i: int| 0 <= i < q.drop_first().len() implies clean_key(
                #[trigger] q.drop_first()[i],
                sep,
            ) by {
                assert(q.drop_first()[i] == q[i + 1]);
            }
        }
        lemma_split_join_path(q.drop_first(), sep);
        lemma_split_clean_head(q[0], sep, join_path(q.drop_first(), sep));
        assert(seq![q[0]] + q.drop_first() =~= q);
    }
}

/// The leaves of a value, each with its path of object keys.
pub open spec fn paths(v: JsonV) -> Seq<(Seq<Seq<char>>, JsonV)>
    decreases v,
{
    match v {
        JsonV::Object(fields) => paths_fields(fields),
        _ => seq![(Seq::empty(), v)],
    }
}

/// The leaves of the fields of an object, field by field.
pub open spec fn paths_fields(fields: Seq<(Seq<char>, JsonV)>) -> Seq<(Seq<Seq<char>>, JsonV)>
    decreases fields,
{
    if fields.len() == 0 {
        Seq::empty()
    } else {
        let n = fields.len() - 1;
        paths_fields(fields.subrange(0, n)) + prefix_all(fields[n].0, paths(fields[n].1))
    }
}

/// Puts `k` in front of every path.
pub open spec fn prefix_all(k: Seq<char>, ps: Seq<(Seq<Seq<char>>, JsonV)>) -> Seq<
    (Seq<Seq<char>>, JsonV),
> {
    ps.map_values(|p: (Seq<Seq<char>>, JsonV)| (seq![k] + p.0, p.1))
}

/// The flat entries of leaves found under the path `pre`.
pub open spec fn keyed(pre: Seq<Seq<char>>, ps: Seq<(Seq<Seq<char>>, JsonV)>, sep: Seq<char>) -> Seq<
    (Seq<char>, JsonV),
> {
    ps.map_values(|p: (Seq<Seq<char>>, JsonV)| (join_path(pre + p.0, sep), p.1))
}

/// No arrays anywhere.
pub open spec fn no_arrays(v: JsonV) -> bool
    decreases v,
{
    match v {
        JsonV::Object(fields) => forall|i: int|
            0 <= i < fields.len() ==> no_arrays(#[trigger] fields[i].1),
        JsonV::Array(_) => false,
        _ => true,
    }
}

proof fn lemma_flat_pairs_paths(pre: Seq<Seq<char>>, v: JsonV, sep: Seq<char>)
    requires
        no_arrays(v),
    ensures
        flat_pairs(path_key(pre, sep), v, sep) == keyed(pre, paths(v), sep),
    decreases v, 0nat,
{
    match v {
        JsonV::Object(fields) => {
            lemma_flat_fields_paths(pre, fields, sep);
        },
        _ => {
            assert(pre + Seq::<Seq<char>>::empty() =~= pre);
            assert(keyed(pre, paths(v), sep) =~= seq![(join_path(pre, sep), v)]);
        },
    }
}

proof fn lemma_flat_fields_paths(pre: Seq<Seq<char>>, fields: Seq<(Seq<char>, JsonV)>, sep: Seq<char>)
    requires
        forall|i: int| 0 <= i < fields.len() ==> no_arrays(#[trigger] fields[i].1),
    ensures
        flat_fields(path_key(pre, sep), fields, sep) == keyed(pre, paths_fields(fields), sep),
    decreases fields, 1nat,
{
    if fields.len() > 0 {
        let n = fields.len() - 1;
        let front = fields.subrange(0, n);
        let k = fields[n].0;
        let v = fields[n].1;
        assert(no_arrays(v));
        lemma_flat_fields_paths(pre, front, sep);
        let pk = pre.push(k);
        assert(pk.subrange(0, pk.len() - 1) =~= pre);
        if pre.len() > 0 {
            assert(join_path(pk, sep) == join_path(pre, sep) + sep + k);
        }
        assert(path_key(pk, sep) == Some(join_key(path_key(pre, sep), k, sep)));
        assert(decreases_to!(fields => v)) by {
            assert(decreases_to!(fields => fields[n]));
        }
        lemma_flat_pairs_paths(pk, v, sep);
        let ps = paths(v);
        assert forall|i: int| 0 <= i < ps.len() implies pre + (seq![k] + ps[i].0) == pk + ps[i].0 by {
            assert(pre + (seq![k] + ps[i].0) =~= pk + ps[i].0);
        }
        assert(keyed(pre, prefix_all(k, ps), sep) =~= keyed(pk, ps, sep));
        assert(keyed(pre, paths_fields(front) + prefix_all(k, ps), sep) =~= keyed(
            pre,
            paths_fields(front),
            sep,
        ) + keyed(pre, prefix_all(k, ps), sep));
    }
}

/// Paths made of clean keys, no two alike.
pub open spec fn good_paths(ps: Seq<(Seq<Seq<char>>, JsonV)>, sep: Seq<char>) -> bool {
    &&& forall|i: int| 0 <= i < ps.len() ==> clean_path(#[trigger] ps[i].0, sep)
    &&& forall|i: int, j: int|
        0 <= i < ps.len() && 0 <= j < ps.len() && i != j ==> #[trigger] ps[i].0 != #[trigger] ps[j].0
}

/// Every path starts with the key of one of the fields.
pub open spec fn heads_in(ps: Seq<(Seq<Seq<char>>, JsonV)>, fields: Seq<(Seq<char>, JsonV)>) -> bool {
    forall|i: int|
        0 <= i < ps.len() ==> (#[trigger] ps[i]).0.len() >= 1 && exists|j: int|
            0 <= j < fields.len() && ps[i].0[0] == fields[j].0
}

/// The conditions that `nested` puts on the fields of an object.
pub open spec fn nested_fields(fields: Seq<(Seq<char>, JsonV)>, sep: Seq<char>) -> bool {
    &&& keys_unique(fields)
    &&& forall|i: int|
        0 <= i < fields.len() ==> clean_key(#[trigger] fields[i].0, sep) && nested(fields[i].1, sep)
}

proof fn lemma_nested_no_arrays(v: JsonV, sep: Seq<char>)
    requires
        nested(v, sep),
    ensures
        no_arrays(v),
    decreases v,
{
    if let JsonV::Object(fields) = v {
        assert forall|i: int| 0 <= i < fields.len() implies no_arrays(#[trigger] fields[i].1) by {
            assert(clean_key(fields[i].0, sep));
            lemma_nested_no_arrays(fields[i].1, sep);
        }
    }
}

proof fn lemma_paths_good(v: JsonV, sep: Seq<char>)
    requires
        nested(v, sep),
    ensures
        paths(v).len() >= 1,
        good_paths(paths(v), sep),
        v is Object ==> forall|i: int| 0 <= i < paths(v).len() ==> (#[trigger] paths(v)[i]).0.len() >= 1,
    decreases v, 0nat,
{
    match v {
        JsonV::Object(fields) => {
            assert(nested_fields(fields, sep)) by {
                assert forall|i: int| 0 <= i < fields.len() implies clean_key(#[trigger] fields[i].0, sep)
                    && nested(fields[i].1, sep) by {
                    assert(clean_key(fields[i].0, sep));
                }
            }
            lemma_paths_fields_good(fields, sep);
        },
        _ => {
            assert(clean_path(Seq::<Seq<char>>::empty(), sep));
        },
    }
}

proof fn lemma_paths_fields_good(fields: Seq<(Seq<char>, JsonV)>, sep: Seq<char>)
    requires
        nested_fields(fields, sep),
    ensures
        fields.len() >= 1 ==> paths_fields(fields).len() >= 1,
        good_paths(paths_fields(fields), sep),
        heads_in(paths_fields(fields), fields),
    decreases fields, 1nat,
{
    if fields.len() > 0 {
        let n = fields.len() - 1;
        let front = fields.subrange(0, n);
        let k = fields[n].0;
        let v = fields[n].1;
        assert(clean_key(k, sep) && nested(v, sep));
        assert(nested_fields(front, sep)) by {
            assert forall|i: int| 0 <= i < front.len() implies clean_key(#[trigger] front[i].0, sep)
                && nested(front[i].1, sep) by {
                assert(front[i] == fields[i]);
                assert(clean_key(fields[i].0, sep));
            }
        }
        lemma_paths_fields_good(front, sep);
        assert(decreases_to!(fields => v)) by {
            assert(decreases_to!(fields => fields[n]));
        }
        lemma_paths_good(v, sep);
        let a = paths_fields(front);
        let pv = paths(v);
        let b = prefix_all(k, pv);
        let ps = a + b;
        assert(paths_fields(fields) == ps);
        assert forall|i: int| 0 <= i < ps.len() implies clean_path(#[trigger] ps[i].0, sep) by {
            if i >= a.len() {
                let q = pv[i - a.len()].0;
                assert(ps[i].0 == seq![k] + q);
                assert(clean_path(q, sep));
                assert forall|x: int| 0 <= x < ps[i].0.len() implies clean_key(#[trigger] ps[i].0[x], sep) by {
                    if x > 0 {
                        assert(ps[i].0[x] == q[x - 1]);
                    }
                }
            }
        }
        assert forall|i: int| 0 <= i < ps.len() implies (#[trigger] ps[i]).0.len() >= 1 && exists|j: int|
            0 <= j < fields.len() && ps[i].0[0] == fields[j].0 by {
            if i < a.len() {
                assert(ps[i] == a[i]);
                let j = choose|j: int| 0 <= j < front.len() && a[i].0[0] == front[j].0;
                assert(front[j] == fields[j]);
            } else {
                assert(ps[i].0 == seq![k] + pv[i - a.len()].0);
                assert(ps[i].0[0] == fields[n].0);
            }
        }
        assert forall|i: int, j: int|
            0 <= i < ps.len() && 0 <= j < ps.len() && i != j implies #[trigger] ps[i].0
            != #[trigger] ps[j].0 by {
            if i < a.len() && j < a.len() {
                assert(ps[i] == a[i] && ps[j] == a[j]);
            } else if i >= a.len() && j >= a.len() {
                let qi = pv[i - a.len()].0;
                let qj = pv[j - a.len()].0;
                if ps[i].0 == ps[j].0 {
                    assert((seq![k] + qi).drop_first() =~= qi);
                    assert((seq![k] + qj).drop_first() =~= qj);
                }
            } else if i < a.len() {
                let x = choose|x: int| 0 <= x < front.len() && a[i].0[0] == front[x].0;
                assert(front[x] == fields[x]);
                assert(ps[i] == a[i]);
                assert(ps[j].0 == seq![k] + pv[j - a.len()].0);
                assert(ps[i].0[0] != ps[j].0[0]);
            } else {
                let x = choose|x: int| 0 <= x < front.len() && a[j].0[0] == front[x].0;
                assert(front[x] == fields[x]);
                assert(ps[j] == a[j]);
                assert(ps[i].0 == seq![k] + pv[i - a.len()].0);
                assert(ps[i].0[0] != ps[j].0[0]);
            }
        }
    }
}

/// Inserting each leaf at its path, in order.
pub open spec fn fold_insert(t: TreeV, ps: Seq<(Seq<Seq<char>>, JsonV)>) -> TreeV
    decreases ps.len(),
{
    if ps.len() == 0 {
        t
    } else {
        let n = ps.len() - 1;
        tree_insert(fold_insert(t, ps.subrange(0, n)), ps[n].0, ps[n].1)
    }
}

/// The tree that holds a value: a branch for each object, a leaf for
/// anything else.
pub open spec fn tree_of(v: JsonV) -> TreeV
    decreases v,
{
    match v {
        JsonV::Object(fields) => TreeV::Branch(
            Seq::new(
                fields.len(),
                |i: int|
                    if 0 <= i < fields.len() {
                        (fields[i].0, tree_of(fields[i].1))
                    } else {
                        (Seq::empty(), TreeV::Empty)
                    },
            ),
        ),
        _ => TreeV::Leaf(v),
    }
}

proof fn lemma_fold_insert_append(
    t: TreeV,
    a: Seq<(Seq<Seq<char>>, JsonV)>,
    b: Seq<(Seq<Seq<char>>, JsonV)>,
)
    ensures
        fold_insert(t, a + b) == fold_insert(fold_insert(t, a), b),
    decreases b.len(),
{
    if b.len() == 0 {
        assert(a + b =~= a);
    } else {
        let n = b.len() - 1;
        assert((a + b).subrange(0, (a + b).len() - 1) =~= a + b.subrange(0, n));
        assert((a + b)[(a + b).len() - 1] == b[n]);
        lemma_fold_insert_append(t, a, b.subrange(0, n));
    }
}

proof fn lemma_child_index_at(ch: Seq<(Seq<char>, TreeV)>, k: Seq<char>, i: int)
    requires
        first_at(ch, k, i),
    ensures
        child_index(ch, k) == i,
{
    let c = child_index(ch, k);
    assert(first_at(ch, k, c));
    if c < i {
        assert(ch[c].0 != k);
    } else if c > i {
        assert(ch[i].0 != k);
    }
}

proof fn lemma_empty_as_branch(ps: Seq<(Seq<Seq<char>>, JsonV)>)
    requires
        ps.len() >= 1,
        ps[0].0.len() >= 1,
    ensures
        fold_insert(TreeV::Empty, ps) == fold_insert(TreeV::Branch(Seq::empty()), ps),
    decreases ps.len(),
{
    let n = ps.len() - 1;
    let front = ps.subrange(0, n);
    if n == 0 {
        let q = ps[0].0;
        let k = q[0];
        let rest = q.subrange(1, q.len() as int);
        let e = Seq::<(Seq<char>, TreeV)>::empty();
        assert(fold_insert(TreeV::Empty, front) == TreeV::Empty);
        assert(fold_insert(TreeV::Branch(e), front) == TreeV::Branch(e));
        assert(!exists|i: int| first_at(e, k, i));
        assert(e.push((k, tree_insert(TreeV::Empty, rest, ps[0].1))) =~= seq![
            (k, tree_insert(TreeV::Empty, rest, ps[0].1)),
        ]);
    } else {
        assert(front[0] == ps[0]);
        lemma_empty_as_branch(front);
    }
}

proof fn lemma_insert_new_child(
    ch: Seq<(Seq<char>, TreeV)>,
    k: Seq<char>,
    ps: Seq<(Seq<Seq<char>>, JsonV)>,
)
    requires
        forall|i: int| 0 <= i < ch.len() ==> (#[trigger] ch[i]).0 != k,
        ps.len() >= 1,
    ensures
        fold_insert(TreeV::Branch(ch), prefix_all(k, ps)) == TreeV::Branch(
            ch.push((k, fold_insert(TreeV::Empty, ps))),
        ),
    decreases ps.len(),
{
    let n = ps.len() - 1;
    let front = ps.subrange(0, n);
    let pre = prefix_all(k, ps);
    let q = seq![k] + ps[n].0;
    assert(pre[n] == (q, ps[n].1));
    assert(q[0] == k);
    assert(q.subrange(1, q.len() as int) =~= ps[n].0);
    assert(pre.subrange(0, n) =~= prefix_all(k, front));
    if n == 0 {
        assert(fold_insert(TreeV::Branch(ch), pre.subrange(0, 0)) == TreeV::Branch(ch));
        assert(fold_insert(TreeV::Empty, front) == TreeV::Empty);
        assert(!exists|i: int| first_at(ch, k, i));
    } else {
        lemma_insert_new_child(ch, k, front);
        let t1 = fold_insert(TreeV::Empty, front);
        let c1 = ch.push((k, t1));
        assert(first_at(c1, k, ch.len() as int));
        lemma_child_index_at(c1, k, ch.len() as int);
        assert(c1.update(ch.len() as int, (k, tree_insert(t1, ps[n].0, ps[n].1))) =~= ch.push(
            (k, tree_insert(t1, ps[n].0, ps[n].1)),
        ));
    }
}

/// The children of the tree of an object, in field order.
pub open spec fn tree_children(fields: Seq<(Seq<char>, JsonV)>) -> Seq<(Seq<char>, TreeV)> {
    Seq::new(
        fields.len(),
        |i: int|
            if 0 <= i < fields.len() {
                (fields[i].0, tree_of(fields[i].1))
            } else {
                (Seq::empty(), TreeV::Empty)
            },
    )
}

proof fn lemma_fold_paths(v: JsonV, sep: Seq<char>)
    requires
        nested(v, sep),
    ensures
        fold_insert(TreeV::Empty, paths(v)) == tree_of(v),
    decreases v, 0nat,
{
    match v {
        JsonV::Object(fields) => {
            assert(nested_fields(fields, sep)) by {
                assert forall|i: int| 0 <= i < fields.len() implies clean_key(#[trigger] fields[i].0, sep)
                    && nested(fields[i].1, sep) by {
                    assert(clean_key(fields[i].0, sep));
                }
            }
            lemma_paths_good(v, sep);
            lemma_empty_as_branch(paths(v));
            lemma_fold_paths_fields(fields, sep);
            assert(tree_of(v)->Branch_0 =~= tree_children(fields));
        },
        _ => {
            let ps = paths(v);
            assert(ps.subrange(0, 0) =~= Seq::<(Seq<Seq<char>>, JsonV)>::empty());
            assert(fold_insert(TreeV::Empty, ps.subrange(0, 0)) == TreeV::Empty);
        },
    }
}

proof fn lemma_fold_paths_fields(fields: Seq<(Seq<char>, JsonV)>, sep: Seq<char>)
    requires
        nested_fields(fields, sep),
    ensures
        fold_insert(TreeV::Branch(Seq::empty()), paths_fields(fields)) == TreeV::Branch(
            tree_children(fields),
        ),
    decreases fields, 1nat,
{
    if fields.len() == 0 {
        assert(tree_children(fields) =~= Seq::<(Seq<char>, TreeV)>::empty());
    } else {
        let n = fields.len() - 1;
        let front = fields.subrange(0, n);
        let k = fields[n].0;
        let v = fields[n].1;
        assert(clean_key(k, sep) && nested(v, sep));
        assert(nested_fields(front, sep)) by {
            assert forall|i: int| 0 <= i < front.len() implies clean_key(#[trigger] front[i].0, sep)
                && nested(front[i].1, sep) by {
                assert(front[i] == fields[i]);
                assert(clean_key(fields[i].0, sep));
            }
        }
        lemma_fold_paths_fields(front, sep);
        assert(decreases_to!(fields => v)) by {
            assert(decreases_to!(fields => fields[n]));
        }
        lemma_paths_good(v, sep);
        lemma_fold_paths(v, sep);
        let c = tree_children(front);
        lemma_fold_insert_append(
            TreeV::Branch(Seq::empty()),
            paths_fields(front),
            prefix_all(k, paths(v)),
        );
        assert forall|i: int| 0 <= i < c.len() implies (#[trigger] c[i]).0 != k by {
            assert(front[i] == fields[i]);
            assert(i != n);
        }
        lemma_insert_new_child(c, k, paths(v));
        assert(c.push((k, tree_of(v))) =~= tree_children(fields));
    }
}

proof fn lemma_json_of_tree(v: JsonV, sep: Seq<char>)
    requires
        nested(v, sep),
    ensures
        tree_json(tree_of(v)) == v,
    decreases v,
{
    if let JsonV::Object(fields) = v {
        let t = tree_of(v);
        assert forall|i: int| 0 <= i < fields.len() implies tree_json(
            #[trigger] t->Branch_0[i].1,
        ) == fields[i].1 by {
            assert(clean_key(fields[i].0, sep));
            lemma_json_of_tree(fields[i].1, sep);
        }
        assert(tree_json(t)->Object_0 =~= fields);
    }
}

proof fn lemma_build_keyed(ps: Seq<(Seq<Seq<char>>, JsonV)>, sep: Seq<char>)
    requires
        forall|i: int| 0 <= i < ps.len() ==> split_on(join_path(#[trigger] ps[i].0, sep), sep) == ps[i].0,
    ensures
        build_tree(keyed(Seq::empty(), ps, sep), sep) == fold_insert(TreeV::Empty, ps),
    decreases ps.len(),
{
    if ps.len() > 0 {
        let n = ps.len() - 1;
        let front = ps.subrange(0, n);
        let kd = keyed(Seq::empty(), ps, sep);
        assert(kd.subrange(0, n) =~= keyed(Seq::empty(), front, sep));
        assert(Seq::<Seq<char>>::empty() + ps[n].0 =~= ps[n].0);
        assert(kd[n] == (join_path(ps[n].0, sep), ps[n].1));
        assert forall|i: int| 0 <= i < front.len() implies split_on(
            join_path(#[trigger] front[i].0, sep),
            sep,
        ) == front[i].0 by {
            assert(front[i] == ps[i]);
        }
        lemma_build_keyed(front, sep);
    }
}

/// Unflattening the flattening of an object gives the object back, when
/// the object holds no arrays and no empty objects, and its keys are
/// distinct within each object and never hold the separator in a way that
/// splitting would find. Empty keys are allowed.
pub proof fn lemma_round_trip(v: JsonV, sep: Seq<char>)
    requires
        sep.len() > 0,
        v is Object,
        nested(v, sep),
    ensures
        unflatten_spec(flatten_spec(v, sep)->Object_0, sep) == v,
{
    let e = Seq::<Seq<char>>::empty();
    lemma_nested_no_arrays(v, sep);
    assert(path_key(e, sep) == None::<Seq<char>>);
    lemma_flat_pairs_paths(e, v, sep);
    lemma_paths_good(v, sep);
    let ps = paths(v);
    let pairs = keyed(e, ps, sep);
    assert forall|i: int| 0 <= i < ps.len() implies split_on(join_path(#[trigger] ps[i].0, sep), sep)
        == ps[i].0 by {
        lemma_split_join_path(ps[i].0, sep);
    }
    assert(keys_unique(pairs)) by {
        assert forall|i: int, j: int|
            0 <= i < pairs.len() && 0 <= j < pairs.len() && i != j implies pairs[i].0 != pairs[j].0 by {
            assert(e + ps[i].0 =~= ps[i].0);
            assert(e + ps[j].0 =~= ps[j].0);
            if pairs[i].0 == pairs[j].0 {
                assert(split_on(join_path(ps[i].0, sep), sep) == ps[i].0);
                assert(split_on(join_path(ps[j].0, sep), sep) == ps[j].0);
                assert(ps[i].0 != ps[j].0);
            }
        }
    }
    lemma_insert_all_unique(pairs);
    lemma_build_keyed(ps, sep);
    lemma_fold_paths(v, sep);
    lemma_json_of_tree(v, sep);
}

proof fn lemma_two_segments(a: Seq<char>, b: Seq<char>, sep: Seq<char>)
    requires
        sep.len() > 0,
        clean_key(a, sep),
        clean_key(b, sep),
    ensures
        split_on(a, sep) == seq![a],
        split_on(a + sep + b, sep) == seq![a, b],
{
    lemma_split_clean_whole(a, sep);
    lemma_split_clean_whole(b, sep);
    lemma_split_clean_head(a, sep, b);
    assert(seq![a] + seq![b] =~= seq![a, b]);
}

/// A later longer key replaces the leaf of an earlier shorter one: the
/// entries `a` then `a` + separator + `b` give `{a: {b: w}}`.
pub proof fn lemma_longer_key_clobbers(a: Seq<char>, b: Seq<char>, sep: Seq<char>, v: JsonV, w: JsonV)
    requires
        sep.len() > 0,
        clean_key(a, sep),
        clean_key(b, sep),
    ensures
        unflatten_spec(seq![(a, v), (a + sep + b, w)], sep) == JsonV::Object(
            seq![(a, JsonV::Object(seq![(b, w)]))],
        ),
{
    lemma_two_segments(a, b, sep);
    let entries = seq![(a, v), (a + sep + b, w)];
    let none = Seq::<Seq<char>>::empty();
    assert(entries.subrange(0, 1) =~= seq![(a, v)]);
    assert(entries.subrange(0, 1).subrange(0, 0) =~= Seq::<(Seq<char>, JsonV)>::empty());
    assert(seq![a, b].subrange(1, 2) =~= seq![b]);
    assert(seq![b].subrange(1, 1) =~= none);
    assert(seq![a].subrange(1, 1) =~= none);
    let t1 = TreeV::Branch(seq![(a, TreeV::Leaf(v))]);
    assert(tree_insert(TreeV::Empty, none, v) == TreeV::Leaf(v));
    let s1 = entries.subrange(0, 1);
    assert(build_tree(s1.subrange(0, 0), sep) == TreeV::Empty);
    assert(s1[0] == (a, v));
    assert(tree_insert(TreeV::Empty, seq![a], v) == t1);
    assert(build_tree(s1, sep) == t1);
    let inner = TreeV::Branch(seq![(b, TreeV::Leaf(w))]);
    assert(tree_insert(TreeV::Empty, none, w) == TreeV::Leaf(w));
    assert(tree_insert(TreeV::Leaf(v), seq![b], w) == inner);
    assert(first_at(seq![(a, TreeV::Leaf(v))], a, 0));
    lemma_child_index_at(seq![(a, TreeV::Leaf(v))], a, 0);
    assert(seq![(a, TreeV::Leaf(v))].update(0, (a, inner)) =~= seq![(a, inner)]);
    let t = TreeV::Branch(seq![(a, inner)]);
    assert(build_tree(entries, sep) == t);
    assert(tree_json(TreeV::Leaf(w)) == w);
    assert(tree_json(inner)->Object_0 =~= seq![(b, w)]);
    assert(tree_json(t)->Object_0 =~= seq![(a, JsonV::Object(seq![(b, w)]))]);
}

/// A later shorter key is dropped where a branch already stands: the
/// entries `a` + separator + `b` then `a` give `{a: {b: w}}` as well.
pub proof fn lemma_shorter_key_dropped(a: Seq<char>, b: Seq<char>, sep: Seq<char>, v: JsonV, w: JsonV)
    requires
        sep.len() > 0,
        clean_key(a, sep),
        clean_key(b, sep),
    ensures
        unflatten_spec(seq![(a + sep + b, w), (a, v)], sep) == JsonV::Object(
            seq![(a, JsonV::Object(seq![(b, w)]))],
        ),
{
    lemma_two_segments(a, b, sep);
    let entries = seq![(a + sep + b, w), (a, v)];
    let none = Seq::<Seq<char>>::empty();
    assert(entries.subrange(0, 1) =~= seq![(a + sep + b, w)]);
    assert(entries.subrange(0, 1).subrange(0, 0) =~= Seq::<(Seq<char>, JsonV)>::empty());
    assert(seq![a, b].subrange(1, 2) =~= seq![b]);
    assert(seq![b].subrange(1, 1) =~= none);
    assert(seq![a].subrange(1, 1) =~= none);
    assert(tree_insert(TreeV::Empty, none, w) == TreeV::Leaf(w));
    let inner = TreeV::Branch(seq![(b, TreeV::Leaf(w))]);
    assert(tree_insert(TreeV::Empty, seq![b], w) == inner);
    let t = TreeV::Branch(seq![(a, inner)]);
    assert(tree_insert(TreeV::Empty, seq![a, b], w) == t);
    let s1 = entries.subrange(0, 1);
    assert(build_tree(s1.subrange(0, 0), sep) == TreeV::Empty);
    assert(s1[0] == (a + sep + b, w));
    assert(build_tree(s1, sep) == t);
    assert(first_at(seq![(a, inner)], a, 0));
    lemma_child_index_at(seq![(a, inner)], a, 0);
    assert(tree_insert(inner, none, v) == inner);
    assert(seq![(a, inner)].update(0, (a, inner)) =~= seq![(a, inner)]);
    assert(build_tree(entries, sep) == t);
    assert(tree_json(TreeV::Leaf(w)) == w);
    assert(tree_json(inner)->Object_0 =~= seq![(b, w)]);
    assert(tree_json(t)->Object_0 =~= seq![(a, JsonV::Object(seq![(b, w)]))]);
}

} // verus!
