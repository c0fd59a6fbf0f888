//! Unflattening: path keys are split into segments and inserted one by one
//! into a tree of nodes, which is then turned back into a JSON value.
use vstd::prelude::*;
use crate::json::{Json, JsonV};
use crate::flatten::{entry_views, Flatten};
use crate::path::{split_key, split_on, views_of};

verus! {

/// A node of the tree under reconstruction.
pub enum UnflattenTree {
    Branch(Vec<(String, UnflattenTree)>),
    Empty,
    Leaf(Json),
}

/// The model of a tree node; a branch keeps its children in order of
/// creation.
pub enum TreeV {
    Branch(Seq<(Seq<char>, TreeV)>),
    Empty,
    Leaf(JsonV),
}

/// The model of a tree node.
pub open spec fn tree_view(t: UnflattenTree) -> TreeV
    decreases t,
{
    match t {
        UnflattenTree::Branch(children) => TreeV::Branch(
            Seq::new(
                children.len() as nat,
                |i: int|
                    if 0 <= i < children.len() {
                        (children[i].0@, tree_view(children[i].1))
                    } else {
                        (Seq::empty(), TreeV::Empty)
                    },
            ),
        ),
        UnflattenTree::Empty => TreeV::Empty,
        UnflattenTree::Leaf(v) => TreeV::Leaf(v@),
    }
}

impl View for UnflattenTree {
    type V = TreeV;

    open spec fn view(&self) -> TreeV {
        tree_view(*self)
    }
}

/// `i` is the first position of a child named `k`.
pub open spec fn first_at(children: Seq<(Seq<char>, TreeV)>, k: Seq<char>, i: int) -> bool {
    &&& 0 <= i < children.len()
    &&& children[i].0 == k
    &&& forall|j: int| 0 <= j < i ==> children[j].0 != k
}

/// The position of the first child named `k`, or -1 when there is none.
pub open spec fn child_index(children: Seq<(Seq<char>, TreeV)>, k: Seq<char>) -> int {
    if exists|i: int| first_at(children, k, i) {
        choose|i: int| first_at(children, k, i)
    } else {
        -1
    }
}

/// Inserting `v` at the path `keys`. With no segment left, an empty node or
/// a leaf becomes a leaf of `v` and a branch stays as it is. With a segment
/// left, a branch descends into the child of that name, made empty if it is
/// missing; an empty node or a leaf is replaced by a branch with that child.
pub open spec fn tree_insert(t: TreeV, keys: Seq<Seq<char>>, v: JsonV) -> TreeV
    decreases keys.len(),
{
    if keys.len() == 0 {
        if t is Branch {
            t
        } else {
            TreeV::Leaf(v)
        }
    } else {
        let k = keys[0];
        let rest = keys.subrange(1, keys.len() as int);
        match t {
            TreeV::Branch(children) => {
                let i = child_index(children, k);
                if i >= 0 {
                    TreeV::Branch(children.update(i, (k, tree_insert(children[i].1, rest, v))))
                } else {
                    TreeV::Branch(children.push((k, tree_insert(TreeV::Empty, rest, v))))
                }
            },
            _ => TreeV::Branch(seq![(k, tree_insert(TreeV::Empty, rest, v))]),
        }
    }
}

/// No two children share a name.
pub open spec fn names_distinct(ch: Seq<(Seq<char>, TreeV)>) -> bool {
    forall|i: int, j: int| 0 <= i < ch.len() && 0 <= j < ch.len() && i != j ==> ch[i].0 != ch[j].0
}

/// In every branch of the tree, no two children share a name.
pub open spec fn tree_wf(t: TreeV) -> bool
    decreases t,
{
    match t {
        TreeV::Branch(ch) => names_distinct(ch) && forall|i: int|
            0 <= i < ch.len() ==> tree_wf(#[trigger] ch[i].1),
        _ => true,
    }
}

/// Insertion keeps the names of each branch distinct.
pub proof fn lemma_insert_wf(t: TreeV, keys: Seq<Seq<char>>, v: JsonV)
    requires
        tree_wf(t),
    ensures
        tree_wf(tree_insert(t, keys, v)),
    decreases keys.len(),
{
    if keys.len() > 0 {
        let k = keys[0];
        let rest = keys.subrange(1, keys.len() as int);
        lemma_insert_wf(TreeV::Empty, rest, v);
        match t {
            TreeV::Branch(ch) => {
                let i = child_index(ch, k);
                if i >= 0 {
                    assert(first_at(ch, k, i));
                    assert(tree_wf(ch[i].1));
                    lemma_insert_wf(ch[i].1, rest, v);
                    let c2 = ch.update(i, (k, tree_insert(ch[i].1, rest, v)));
                    assert forall|x: int| 0 <= x < c2.len() implies tree_wf(#[trigger] c2[x].1) by {
                        if x != i {
                            assert(c2[x] == ch[x]);
                        }
                    }
                    assert(names_distinct(c2)) by {
                        assert forall|x: int, y: int|
                            0 <= x < c2.len() && 0 <= y < c2.len() && x != y implies c2[x].0 != c2[y].0 by {
                            assert(c2[x].0 == ch[x].0);
                            assert(c2[y].0 == ch[y].0);
                        }
                    }
                } else {
                    assert forall|j: int| 0 <= j < ch.len() implies ch[j].0 != k by {
                        if ch[j].0 == k {
                            assert forall|x: int| 0 <= x < j implies ch[x].0 != k by {
                                assert(ch[x].0 != ch[j].0);
                            }
                            assert(first_at(ch, k, j));
                        }
                    }
                    let c2 = ch.push((k, tree_insert(TreeV::Empty, rest, v)));
                    assert forall|x: int| 0 <= x < c2.len() implies tree_wf(#[trigger] c2[x].1) by {
                        if x < ch.len() {
                            assert(c2[x] == ch[x]);
                        }
                    }
                    assert(names_distinct(c2)) by {
                        assert forall|x: int, y: int|
                            0 <= x < c2.len() && 0 <= y < c2.len() && x != y implies c2[x].0 != c2[y].0 by {
                            if x < ch.len() && y < ch.len() {
                                assert(c2[x] == ch[x] && c2[y] == ch[y]);
                            } else if x < ch.len() {
                                assert(c2[x] == ch[x]);
                            } else {
                                assert(c2[y] == ch[y]);
                            }
                        }
                    }
                }
            },
            _ => {
                let c2 = seq![(k, tree_insert(TreeV::Empty, rest, v))];
                assert forall|x: int| 0 <= x < c2.len() implies tree_wf(#[trigger] c2[x].1) by {}
            },
        }
    }
}

/// The JSON value of a tree: a leaf gives its value, a branch the object of
/// its children in order, and an empty node `null`.
pub open spec fn tree_json(t: TreeV) -> JsonV
    decreases t,
{
    match t {
        TreeV::Branch(children) => JsonV::Object(
            Seq::new(
                children.len(),
                |i: int|
                    if 0 <= i < children.len() {
                        (children[i].0, tree_json(children[i].1))
                    } else {
                        (Seq::empty(), JsonV::Null)
                    },
            ),
        ),
        TreeV::Empty => JsonV::Null,
        TreeV::Leaf(v) => v,
    }
}

/// The tree built by inserting each (key, value) entry in order, each key
/// split at the separator.
pub open spec fn build_tree(entries: Seq<(Seq<char>, JsonV)>, sep: Seq<char>) -> TreeV
    decreases entries.len(),
{
    if entries.len() == 0 {
        TreeV::Empty
    } else {
        let n = entries.len() - 1;
        tree_insert(build_tree(entries.subrange(0, n), sep), split_on(entries[n].0, sep), entries[n].1)
    }
}

/// The JSON values of a sequence of children, under their names.
pub open spec fn children_json(ch: Seq<(Seq<char>, TreeV)>) -> Seq<(Seq<char>, JsonV)> {
    Seq::new(
        ch.len(),
        |i: int|
            if 0 <= i < ch.len() {
                (ch[i].0, tree_json(ch[i].1))
            } else {
                (Seq::empty(), JsonV::Null)
            },
    )
}

/// What unflattening the entries of an object gives.
pub open spec fn unflatten_spec(entries: Seq<(Seq<char>, JsonV)>, sep: Seq<char>) -> JsonV {
    tree_json(build_tree(entries, sep))
}

/// The models of a sequence of children.
pub open spec fn child_views(v: Seq<(String, UnflattenTree)>) -> Seq<(Seq<char>, TreeV)> {
    v.map_values(|e: (String, UnflattenTree)| (e.0@, e.1@))
}

/// A reconstruction refused: the value to unflatten is not an object.
#[derive(Debug, PartialEq, Eq, Structural)]
pub struct StructuralError;

/// The position of the first child named `k`, or the number of children
/// when there is none.
fn find_child(children: &Vec<(String, UnflattenTree)>, k: &String) -> (r: usize)
    ensures
        r <= children.len(),
        r < children.len() ==> r as int == child_index(child_views(children@), k@),
        r == children.len() ==> child_index(child_views(children@), k@) == -1,
{
    let ghost cv = child_views(children@);
    let mut i: usize = 0;
    while i < children.len()
        invariant
            i <= children.len(),
            cv == child_views(children@),
            forall|j: int| 0 <= j < i ==> cv[j].0 != k@,
        decreases children.len() - i,
    {
        if children[i].0 == *k {
            assert(first_at(cv, k@, i as int));
            return i;
        }
        i += 1;
    }
    assert(!exists|j: int| first_at(cv, k@, j));
    i
}

impl UnflattenTree {
    pub fn has_children(&self) -> (r: bool)
        ensures
            r == (self@ is Branch),
    {
        match self {
            UnflattenTree::Branch(_) => true,
            _ => false,
        }
    }

    /// The JSON value of this tree.
    pub fn into_json(self) -> (r: Json)
        ensures
            r@ == tree_json(self@),
        decreases self,
    {
        match self {
            UnflattenTree::Branch(children) => {
                let ghost cv = child_views(children@);
                let fields = Self::children_into_json(children);
                let ghost fv = fields@;
                let r = Json::Object(fields);
                assert(r@->Object_0 =~= entry_views(fv));
                assert(children_json(cv) =~= tree_json(self@)->Object_0);
                r
            },
            UnflattenTree::Empty => Json::Null,
            UnflattenTree::Leaf(v) => v,
        }
    }

    fn children_into_json(children: Vec<(String, UnflattenTree)>) -> (r: Vec<(String, Json)>)
        ensures
            entry_views(r@) == children_json(child_views(children@)),
        decreases children,
    {
        let ghost all = children@;
        let ghost cv = child_views(all);
        let mut out: Vec<(String, Json)> = Vec::new();
        for pair in it: children.into_iter()
            invariant
                it.seq() == all,
                cv == child_views(all),
                entry_views(out@) =~= children_json(cv.subrange(0, it.index() as int)),
        {
            let ghost i = it.index() as int;
            let ghost before = entry_views(out@);
            assert(pair == all[i]);
            let (k, child) = pair;
            proof {
                assert(decreases_to!(children => all[i]));
            }
            let v = child.into_json();
            assert(k@ == cv[i].0 && child@ == cv[i].1);
            out.push((k, v));
            assert(entry_views(out@) =~= before.push((cv[i].0, tree_json(cv[i].1))));
            assert(children_json(cv.subrange(0, i + 1)) =~= children_json(cv.subrange(0, i)).push(
                (cv[i].0, tree_json(cv[i].1)),
            ));
        }
        assert(cv.subrange(0, cv.len() as int) =~= cv);
        out
    }

    /// Inserts `value` at the path `keys[pos..]`, as `tree_insert` says;
    /// child names stay distinct.
    pub fn insert(&mut self, keys: &Vec<String>, pos: usize, value: Json)
        requires
            pos <= keys.len(),
        ensures
            final(self)@ == tree_insert(
                old(self)@,
                views_of(keys@).subrange(pos as int, keys.len() as int),
                value@,
            ),
            tree_wf(old(self)@) ==> tree_wf(final(self)@),
        decreases keys.len() - pos,
    {
        let ghost path = views_of(keys@).subrange(pos as int, keys.len() as int);
        proof {
            if tree_wf(self@) {
                lemma_insert_wf(self@, path, value@);
            }
        }
        let ghost rest = views_of(keys@).subrange(pos + 1, keys.len() as int);
        let mut t = UnflattenTree::Empty;
        std::mem::swap(self, &mut t);
        let ghost before = t@;
        if pos == keys.len() {
            if t.has_children() {
                *self = t;
            } else {
                *self = UnflattenTree::Leaf(value);
            }
            return;
        }
        assert(path.subrange(1, path.len() as int) =~= rest);
        let key = &keys[pos];
        match t {
            UnflattenTree::Branch(mut children) => {
                let ghost cv = child_views(children@);
                assert(before->Branch_0 =~= cv);
                assert(path[0] == key@);
                let idx = find_child(&children, key);
                if idx < children.len() {
                    let mut slot = (String::new(), UnflattenTree::Empty);
                    children.set_and_swap(idx, &mut slot);
                    let (k, mut child) = slot;
                    child.insert(keys, pos + 1, value);
                    let mut back = (k, child);
                    children.set_and_swap(idx, &mut back);
                    assert(child_views(children@) =~= cv.update(
                        idx as int,
                        (key@, tree_insert(cv[idx as int].1, rest, value@)),
                    ));
                } else {
                    let mut child = UnflattenTree::Empty;
                    child.insert(keys, pos + 1, value);
                    children.push((key.clone(), child));
                    assert(child_views(children@) =~= cv.push(
                        (key@, tree_insert(TreeV::Empty, rest, value@)),
                    ));
                }
                let ghost nv = children@;
                *self = UnflattenTree::Branch(children);
                assert(self@->Branch_0 =~= child_views(nv));
            },
            _ => {
                assert(path[0] == key@);
                assert(!(before is Branch));
                let mut child = UnflattenTree::Empty;
                child.insert(keys, pos + 1, value);
                let mut children: Vec<(String, UnflattenTree)> = Vec::new();
                children.push((key.clone(), child));
                let ghost nv = children@;
                *self = UnflattenTree::Branch(children);
                assert(self@->Branch_0 =~= seq![(key@, tree_insert(TreeV::Empty, rest, value@))]);
            },
        }
    }
}

impl Flatten {
    /// Builds the tree of an object's entries, in order; anything but an
    /// object is refused.
    pub fn unflatten(&self, input: Json) -> (r: Result<UnflattenTree, StructuralError>)
        ensures
            (input@ is Object) <==> (r is Ok),
            r is Ok ==> r->Ok_0@ == build_tree(input@->Object_0, self.sep@),
            r is Ok ==> tree_wf(r->Ok_0@),
    {
        let ghost whole = input@;
        match input {
            Json::Object(entries) => {
                let ghost all = entries@;
                let ghost ev = entry_views(all);
                assert(whole->Object_0 =~= ev);
                let mut tree = UnflattenTree::Empty;
                assert(ev.subrange(0, 0) =~= Seq::<(Seq<char>, JsonV)>::empty());
                for pair in it: entries.into_iter()
                    invariant
                        it.seq() == all,
                        ev == entry_views(all),
                        tree@ == build_tree(ev.subrange(0, it.index() as int), self.sep@),
                        tree_wf(tree@),
                {
                    let ghost i = it.index() as int;
                    assert(pair == all[i]);
                    let (key, value) = pair;
                    let segs = split_key(key.as_str(), self.sep.as_str());
                    tree.insert(&segs, 0, value);
                    proof {
                        let sub = ev.subrange(0, i + 1);
                        assert(sub.subrange(0, i) =~= ev.subrange(0, i));
                        assert(views_of(segs@).subrange(0, segs.len() as int) =~= views_of(segs@));
                    }
                }
                assert(ev.subrange(0, ev.len() as int) =~= ev);
                Ok(tree)
            },
            _ => Err(StructuralError),
        }
    }
}

/// Unflattening, with the options of flattening.
pub struct Unflatten(pub Flatten);

impl Unflatten {
    /// Rebuilds the nested value of a flat object; anything but an object is
    /// refused.
    pub fn process_one(&self, value: Json) -> (r: Result<Json, StructuralError>)
        ensures
            (value@ is Object) <==> (r is Ok),
            r is Ok ==> r->Ok_0@ == unflatten_spec(value@->Object_0, self.0.sep@),
    {
        let tree = self.0.unflatten(value)?;
        Ok(tree.into_json())
    }
}

} // verus!
