//! A reverse index from item values to the paths at which they occur.
//!
//! A [`TreePathMap`] maps each item value of a [`Tree`] to the ordered list
//! of every [`Path`] at which that value occurs, in the order of a pre-order,
//! children-in-index-order walk from the root. It is built once from a
//! completed tree; mutating the tree afterwards does not update the index.

use crate::path::Path;
use crate::tree::spec_lookup;
use crate::tree::Tree;
use vstd::laws_eq::obeys_concrete_eq;
use vstd::prelude::*;

verus! {

/// The views of a list of paths.
pub open spec fn paths_view(paths: Seq<Path>) -> Seq<Seq<int>> {
    paths.map_values(|p: Path| p@)
}

/// One recorded occurrence: appends `path` to the list held for `k`, or
/// starts a new single-element list when `k` has no entry yet.
pub open spec fn spec_insert<T>(m: Map<T, Seq<Seq<int>>>, k: T, path: Seq<int>) -> Map<
    T,
    Seq<Seq<int>>,
> {
    if m.dom().contains(k) {
        m.insert(k, m[k].push(path))
    } else {
        m.insert(k, seq![path])
    }
}

/// The (path, item) pairs met by a pre-order, children-in-index-order walk
/// of the subtrees `cs[j..]`, where `cs` sits at `prefix` and child `c`
/// of `cs` is addressed by `prefix` followed by the index of `c`: each
/// subtree's own pair first, then its whole subtree, then its next sibling.
pub open spec fn forest_entries<T>(cs: Seq<Tree<T>>, prefix: Seq<int>, j: int) -> Seq<
    (Seq<int>, T),
>
    decreases cs, cs.len() - j,
{
    if j < 0 || j >= cs.len() {
        Seq::empty()
    } else {
        seq![(prefix.push(j), cs[j].item)] + forest_entries(cs[j].children@, prefix.push(j), 0)
            + forest_entries(cs, prefix, j + 1)
    }
}

/// The (path, item) pairs met by a pre-order, children-in-index-order walk
/// of `t`, whose root sits at `prefix`: the root's pair first.
pub open spec fn tree_entries<T>(t: Tree<T>, prefix: Seq<int>) -> Seq<(Seq<int>, T)> {
    seq![(prefix, t.item)] + forest_entries(t.children@, prefix, 0)
}

/// The paths of the entries whose item is `k`, in entry order.
pub open spec fn paths_for<T>(es: Seq<(Seq<int>, T)>, k: T) -> Seq<Seq<int>>
    decreases es.len(),
{
    if es.len() == 0 {
        Seq::empty()
    } else {
        let front = paths_for(es.drop_last(), k);
        if es.last().1 == k {
            front.push(es.last().0)
        } else {
            front
        }
    }
}

/// Every path at which `k` occurs in `t`, in pre-order discovery order.
pub open spec fn spec_paths_of<T>(t: Tree<T>, k: T) -> Seq<Seq<int>> {
    paths_for(tree_entries(t, Seq::empty()), k)
}

/// Records the entries `es` into `m`, in order.
pub open spec fn insert_all<T>(m: Map<T, Seq<Seq<int>>>, es: Seq<(Seq<int>, T)>) -> Map<
    T,
    Seq<Seq<int>>,
>
    decreases es.len(),
{
    if es.len() == 0 {
        m
    } else {
        spec_insert(insert_all(m, es.drop_last()), es.last().1, es.last().0)
    }
}

/// The map denoted by an association list, later pairs overriding earlier
/// ones with the same key.
spec fn assoc_view<T>(pairs: Seq<(T, Vec<Path>)>) -> Map<T, Seq<Seq<int>>>
    decreases pairs.len(),
{
    if pairs.len() == 0 {
        Map::empty()
    } else {
        assoc_view(pairs.drop_last()).insert(
            pairs.last().0,
            paths_view(pairs.last().1@),
        )
    }
}

/// No two pairs hold the same key.
spec fn distinct_keys<T>(pairs: Seq<(T, Vec<Path>)>) -> bool {
    forall|i: int, j: int| 0 <= i < j < pairs.len() ==> pairs[i].0 != pairs[j].0
}

/// A reverse index from item values to every path at which they occur.
#[derive(Clone, Debug, PartialEq)]
pub struct TreePathMap<T> {
    pairs: Vec<(T, Vec<Path>)>,
}

impl<T: Eq> TreePathMap<T> {
    /// Keys are never repeated and no key holds an empty path list.
    pub closed spec fn wf(&self) -> bool {
        &&& distinct_keys(self.pairs@)
        &&& forall|i: int| 0 <= i < self.pairs@.len() ==> self.pairs@[i].1@.len() > 0
    }

    /// The mapping from each recorded value to its ordered path list.
    pub closed spec fn view(&self) -> Map<T, Seq<Seq<int>>> {
        assoc_view(self.pairs@)
    }

    /// The empty index.
    pub fn new() -> (m: TreePathMap<T>)
        ensures
            m.wf(),
            m@ == Map::<T, Seq<Seq<int>>>::empty(),
    {
        let m = TreePathMap { pairs: Vec::new() };
        m
    }

    /// Records one occurrence of `k` at `path`: appends `path` to the list
    /// held for `k`, or starts a new single-element list when `k` is new.
    pub fn insert(&mut self, k: T, path: Path)
        requires
            old(self).wf(),
            obeys_concrete_eq::<T>(),
        ensures
            final(self).wf(),
            final(self)@ == spec_insert(old(self)@, k, path@),
    {
        let ghost pairs0 = self.pairs@;
        let n = self.pairs.len();
        let mut i: usize = 0;
        while i < n
            invariant
                old(self).wf(),
                obeys_concrete_eq::<T>(),
                pairs0 == old(self).pairs@,
                self.pairs@ == pairs0,
                n == pairs0.len(),
                i <= n,
                forall|j: int| 0 <= j < i ==> pairs0[j].0 != k,
            decreases n - i,
        {
            proof {
                reveal(vstd::laws_eq::obeys_concrete_eq);
            }
            let hit = self.pairs[i].0 == k;
            if hit {
                let mut entry = self.pairs.remove(i);
                entry.1.push(path);
                self.pairs.insert(i, entry);
                proof {
                    assert(self.pairs@ =~= pairs0.update(i as int, (pairs0[i as int].0, entry.1)));
                    lemma_assoc_view_key_present(pairs0, i as int, k);
                    lemma_assoc_view_update(
                        pairs0,
                        i as int,
                        (pairs0[i as int].0, entry.1),
                    );
                    assert(paths_view(entry.1@) =~= paths_view(pairs0[i as int].1@).push(path@));
                    assert(self@ =~= spec_insert(assoc_view(pairs0), k, path@));
                }
                return ;
            }
            i += 1;
        }
        let mut fresh_paths: Vec<Path> = Vec::new();
        fresh_paths.push(path);
        self.pairs.push((k, fresh_paths));
        proof {
            lemma_assoc_view_key_absent(pairs0, k);
            lemma_assoc_view_push(pairs0, (k, fresh_paths));
            assert(paths_view(fresh_paths@) =~= seq![path@]);
            assert(self@ =~= spec_insert(assoc_view(pairs0), k, path@));
        }
    }

    /// Builds the index of `tree`, consuming it: every value of the tree is
    /// mapped to the list of every path at which it occurs, in pre-order,
    /// children-in-index-order discovery order.
    pub fn from_tree(tree: Tree<T>) -> (m: TreePathMap<T>)
        requires
            obeys_concrete_eq::<T>(),
        ensures
            m.wf(),
            forall|k: T|
                #![trigger spec_paths_of(tree, k)]
                #![trigger m@.dom().contains(k)]
                (m@.dom().contains(k) <==> spec_paths_of(tree, k).len() > 0) && (
                m@.dom().contains(k) ==> m@[k] == spec_paths_of(tree, k)),
    {
        let ghost t0 = tree;
        let Tree { item, children } = tree;
        let mut m = TreePathMap::new();
        m.insert(item, Path::new());
        m.insert_children_own(children, Path::new());
        proof {
            let root_entry = (Seq::<int>::empty(), t0.item);
            let rest = forest_entries(t0.children@, Seq::<int>::empty(), 0);
            lemma_insert_all_singleton(Map::<T, Seq<Seq<int>>>::empty(), root_entry);
            lemma_insert_all_concat(Map::<T, Seq<Seq<int>>>::empty(), seq![root_entry], rest);
            assert(tree_entries(t0, Seq::<int>::empty()) == seq![root_entry] + rest);
            assert(m@ == insert_all(
                Map::<T, Seq<Seq<int>>>::empty(),
                tree_entries(t0, Seq::<int>::empty()),
            ));
            assert forall|k: T|
                (m@.dom().contains(k) <==> spec_paths_of(t0, k).len() > 0) && (
                m@.dom().contains(k) ==> m@[k] == spec_paths_of(t0, k)) by {
                lemma_insert_all_paths(
                    Map::<T, Seq<Seq<int>>>::empty(),
                    tree_entries(t0, Seq::<int>::empty()),
                    k,
                );
                if m@.dom().contains(k) {
                    assert(Seq::<Seq<int>>::empty() + spec_paths_of(t0, k) =~= spec_paths_of(
                        t0,
                        k,
                    ));
                }
            }
        }
        m
    }

    /// Records, under the parent path `path`, every node of every subtree in
    /// `children`, in pre-order, children in index order.
    #[verifier::loop_isolation(false)]
    fn insert_children_own(&mut self, children: Vec<Tree<T>>, path: Path)
        requires
            old(self).wf(),
            obeys_concrete_eq::<T>(),
        ensures
            final(self).wf(),
            final(self)@ == insert_all(old(self)@, forest_entries(children@, path@, 0)),
        decreases children,
    {
        let ghost m0 = self@;
        let ghost cs = children@;
        let ghost children0 = children;
        let mut remaining = children;
        let n = remaining.len();
        let mut k: usize = 0;
        while k < n
            invariant
                self.wf(),
                obeys_concrete_eq::<T>(),
                n == cs.len(),
                k <= n,
                remaining@ == cs.subrange(k as int, n as int),
                insert_all(m0, forest_entries(cs, path@, 0)) == insert_all(
                    self@,
                    forest_entries(cs, path@, k as int),
                ),
            decreases n - k,
        {
            let child = remaining.remove(0);
            proof {
                assert(child == cs[k as int]);
                assert(remaining@ =~= cs.subrange(k as int + 1, n as int));
            }
            let ghost m_before = self@;
            let child_path = path.push_back(k);
            let Tree { item, children: grand } = child;
            self.insert(item, child_path);
            proof {
                assert(decreases_to!(children0 => children0@));
                assert(decreases_to!(cs => cs[k as int]));
                assert(decreases_to!(cs[k as int] => cs[k as int].children));
                assert(grand == cs[k as int].children);
            }
            self.insert_children_own(grand, path.push_back(k));
            proof {
                let pre = path@;
                let ek = seq![(pre.push(k as int), cs[k as int].item)];
                let gk = forest_entries(cs[k as int].children@, pre.push(k as int), 0);
                let fk1 = forest_entries(cs, pre, k as int + 1);
                assert(forest_entries(cs, pre, k as int) == (ek + gk) + fk1);
                lemma_insert_all_concat(m_before, ek + gk, fk1);
                lemma_insert_all_concat(m_before, ek, gk);
                lemma_insert_all_singleton(m_before, (pre.push(k as int), cs[k as int].item));
            }
            k += 1;
        }
        proof {
            assert(forest_entries(cs, path@, n as int) == Seq::<(Seq<int>, T)>::empty());
        }
    }

    /// The first recorded path for `k`, in discovery order, or `None` when
    /// `k` was never recorded.
    pub fn lookup_first(&self, k: &T) -> (r: Option<&Path>)
        requires
            self.wf(),
            obeys_concrete_eq::<T>(),
        ensures
            match r {
                Some(p) => {
                    &&& self@.dom().contains(*k)
                    &&& self@[*k].len() > 0
                    &&& p@ == self@[*k][0]
                },
                None => !self@.dom().contains(*k),
            },
    {
        let n = self.pairs.len();
        let mut i: usize = 0;
        while i < n
            invariant
                self.wf(),
                obeys_concrete_eq::<T>(),
                n == self.pairs@.len(),
                i <= n,
                forall|j: int| 0 <= j < i ==> self.pairs@[j].0 != *k,
            decreases n - i,
        {
            proof {
                reveal(vstd::laws_eq::obeys_concrete_eq);
            }
            let hit = self.pairs[i].0 == *k;
            if hit {
                proof {
                    lemma_assoc_view_key_present(self.pairs@, i as int, *k);
                }
                return Some(&self.pairs[i].1[0]);
            }
            i += 1;
        }
        proof {
            lemma_assoc_view_key_absent(self.pairs@, *k);
        }
        None
    }
}

impl<T: Clone + Eq> TreePathMap<T> {
    /// Builds the index of `tree` without consuming it, duplicating each
    /// item; the result is the same index that consuming the tree builds.
    pub fn from_tree_ref(tree: &Tree<T>) -> (m: TreePathMap<T>)
        requires
            obeys_concrete_eq::<T>(),
            forall|x: T, y: T| #[trigger] cloned::<T>(x, y) ==> x == y,
        ensures
            m.wf(),
            forall|k: T|
                #![trigger spec_paths_of(*tree, k)]
                #![trigger m@.dom().contains(k)]
                (m@.dom().contains(k) <==> spec_paths_of(*tree, k).len() > 0) && (
                m@.dom().contains(k) ==> m@[k] == spec_paths_of(*tree, k)),
    {
        let mut m = TreePathMap::new();
        let root_item = tree.item.clone();
        proof {
            assert(cloned::<T>(tree.item, root_item));
        }
        m.insert(root_item, Path::new());
        m.insert_children(&tree.children, Path::new());
        proof {
            let root_entry = (Seq::<int>::empty(), tree.item);
            let rest = forest_entries(tree.children@, Seq::<int>::empty(), 0);
            lemma_insert_all_singleton(Map::<T, Seq<Seq<int>>>::empty(), root_entry);
            lemma_insert_all_concat(Map::<T, Seq<Seq<int>>>::empty(), seq![root_entry], rest);
            assert(tree_entries(*tree, Seq::<int>::empty()) == seq![root_entry] + rest);
            assert(m@ == insert_all(
                Map::<T, Seq<Seq<int>>>::empty(),
                tree_entries(*tree, Seq::<int>::empty()),
            ));
            assert forall|k: T|
                (m@.dom().contains(k) <==> spec_paths_of(*tree, k).len() > 0) && (
                m@.dom().contains(k) ==> m@[k] == spec_paths_of(*tree, k)) by {
                lemma_insert_all_paths(
                    Map::<T, Seq<Seq<int>>>::empty(),
                    tree_entries(*tree, Seq::<int>::empty()),
                    k,
                );
                if m@.dom().contains(k) {
                    assert(Seq::<Seq<int>>::empty() + spec_paths_of(*tree, k) =~= spec_paths_of(
                        *tree,
                        k,
                    ));
                }
            }
        }
        m
    }

    /// Records, under the parent path `path`, every node of every subtree in
    /// `children`, in pre-order, children in index order, duplicating each
    /// item.
    #[verifier::loop_isolation(false)]
    fn insert_children(&mut self, children: &Vec<Tree<T>>, path: Path)
        requires
            old(self).wf(),
            obeys_concrete_eq::<T>(),
            forall|x: T, y: T| #[trigger] cloned::<T>(x, y) ==> x == y,
        ensures
            final(self).wf(),
            final(self)@ == insert_all(old(self)@, forest_entries(children@, path@, 0)),
        decreases *children,
    {
        let ghost m0 = self@;
        let ghost cs = children@;
        let n = children.len();
        let mut k: usize = 0;
        while k < n
            invariant
                self.wf(),
                k <= n,
                insert_all(m0, forest_entries(cs, path@, 0)) == insert_all(
                    self@,
                    forest_entries(cs, path@, k as int),
                ),
            decreases n - k,
        {
            let child = &children[k];
            let ghost m_before = self@;
            let item = child.item.clone();
            proof {
                assert(cloned::<T>(child.item, item));
            }
            self.insert(item, path.push_back(k));
            proof {
                assert(decreases_to!(*children => children@));
                assert(decreases_to!(cs => cs[k as int]));
                assert(decreases_to!(cs[k as int] => cs[k as int].children));
            }
            self.insert_children(&child.children, path.push_back(k));
            proof {
                let pre = path@;
                let ek = seq![(pre.push(k as int), cs[k as int].item)];
                let gk = forest_entries(cs[k as int].children@, pre.push(k as int), 0);
                let fk1 = forest_entries(cs, pre, k as int + 1);
                assert(forest_entries(cs, pre, k as int) == (ek + gk) + fk1);
                lemma_insert_all_concat(m_before, ek + gk, fk1);
                lemma_insert_all_concat(m_before, ek, gk);
                lemma_insert_all_singleton(m_before, (pre.push(k as int), cs[k as int].item));
            }
            k += 1;
        }
        proof {
            assert(forest_entries(cs, path@, n as int) == Seq::<(Seq<int>, T)>::empty());
        }
    }
}

/// Each entry of a forest walk extends the prefix by a child index no
/// smaller than `j`, and looking up the extension inside that child finds
/// the entry's item.
proof fn lemma_forest_entries_lookup<T>(cs: Seq<Tree<T>>, prefix: Seq<int>, j: int, i: int)
    requires
        0 <= j,
        0 <= i < forest_entries(cs, prefix, j).len(),
    ensures
        ({
            let e = forest_entries(cs, prefix, j)[i];
            let plen = prefix.len() as int;
            &&& e.0.len() > plen
            &&& e.0.take(plen) == prefix
            &&& j <= e.0[plen] < cs.len()
            &&& spec_lookup(cs[e.0[plen]], e.0.skip(plen).drop_first()) == Some(e.1)
        }),
    decreases cs, cs.len() - j,
{
    let f = forest_entries(cs, prefix, j);
    let e = f[i];
    let plen = prefix.len() as int;
    let ek = seq![(prefix.push(j), cs[j].item)];
    let gk = forest_entries(cs[j].children@, prefix.push(j), 0);
    let fk1 = forest_entries(cs, prefix, j + 1);
    assert(f == (ek + gk) + fk1);
    if i == 0 {
        assert(e == (prefix.push(j), cs[j].item));
        assert(e.0.take(plen) =~= prefix);
        assert(e.0.skip(plen) =~= seq![j]);
        assert(e.0.skip(plen).drop_first() =~= Seq::<int>::empty());
    } else if i < 1 + gk.len() {
        assert(e == gk[i - 1]);
        lemma_forest_entries_lookup(cs[j].children@, prefix.push(j), 0, i - 1);
        assert(e.0.take(plen + 1) == prefix.push(j));
        assert(e.0.take(plen) =~= prefix);
        assert(e.0[plen] == prefix.push(j)[plen]);
        let rel = e.0.skip(plen).drop_first();
        assert(rel =~= e.0.skip(plen + 1));
        assert(rel.len() > 0);
        assert(rel[0] == e.0[plen + 1]);
        assert(rel.drop_first() =~= e.0.skip(plen + 1).drop_first());
        assert(spec_lookup(cs[j], rel) == spec_lookup(
            cs[j].children@[rel[0]],
            rel.drop_first(),
        ));
    } else {
        assert(e == fk1[i - 1 - gk.len()]);
        lemma_forest_entries_lookup(cs, prefix, j + 1, i - 1 - gk.len());
    }
}

/// Each entry of a tree walk extends the prefix by a path whose lookup in
/// the tree finds the entry's item.
proof fn lemma_tree_entries_lookup<T>(t: Tree<T>, prefix: Seq<int>, i: int)
    requires
        0 <= i < tree_entries(t, prefix).len(),
    ensures
        ({
            let e = tree_entries(t, prefix)[i];
            let plen = prefix.len() as int;
            &&& e.0.len() >= plen
            &&& e.0.take(plen) == prefix
            &&& spec_lookup(t, e.0.skip(plen)) == Some(e.1)
        }),
{
    let e = tree_entries(t, prefix)[i];
    let plen = prefix.len() as int;
    if i == 0 {
        assert(e == (prefix, t.item));
        assert(e.0.take(plen) =~= prefix);
        assert(e.0.skip(plen) =~= Seq::<int>::empty());
    } else {
        assert(e == forest_entries(t.children@, prefix, 0)[i - 1]);
        lemma_forest_entries_lookup(t.children@, prefix, 0, i - 1);
        let rel = e.0.skip(plen);
        assert(rel.len() > 0);
        assert(rel[0] == e.0[plen]);
        assert(rel.drop_first() =~= e.0.skip(plen).drop_first());
        assert(spec_lookup(t, rel) == spec_lookup(t.children@[rel[0]], rel.drop_first()));
    }
}

/// Every path that `paths_for` keeps comes from an entry carrying `k`.
proof fn lemma_paths_for_membership<T>(es: Seq<(Seq<int>, T)>, k: T, i: int)
    requires
        0 <= i < paths_for(es, k).len(),
    ensures
        exists|idx: int|
            0 <= idx < es.len() && es[idx] == (paths_for(es, k)[i], k),
    decreases es.len(),
{
    let front = paths_for(es.drop_last(), k);
    if es.last().1 == k && i == front.len() {
        assert(es[es.len() - 1] == (paths_for(es, k)[i], k));
    } else {
        lemma_paths_for_membership(es.drop_last(), k, i);
        let idx = choose|idx: int|
            0 <= idx < es.drop_last().len() && es.drop_last()[idx] == (
            paths_for(es.drop_last(), k)[i],
            k,
            );
        assert(es[idx] == (paths_for(es, k)[i], k));
    }
}

/// The path of every entry carrying `k` is kept by `paths_for`.
proof fn lemma_paths_for_contains<T>(es: Seq<(Seq<int>, T)>, k: T, idx: int)
    requires
        0 <= idx < es.len(),
        es[idx].1 == k,
    ensures
        paths_for(es, k).contains(es[idx].0),
    decreases es.len(),
{
    let front = paths_for(es.drop_last(), k);
    if idx == es.len() - 1 {
        assert(paths_for(es, k)[front.len() as int] == es[idx].0);
    } else {
        assert(es.drop_last()[idx] == es[idx]);
        lemma_paths_for_contains(es.drop_last(), k, idx);
        let i = choose|i: int| 0 <= i < front.len() && front[i] == es[idx].0;
        assert(paths_for(es, k)[i] == es[idx].0);
    }
}

/// The entries of the subtree at index `j2` all stand among the entries of
/// a forest walk that starts at or before `j2`.
proof fn lemma_forest_contains_child<T>(
    cs: Seq<Tree<T>>,
    prefix: Seq<int>,
    j: int,
    j2: int,
    e: (Seq<int>, T),
)
    requires
        0 <= j <= j2 < cs.len(),
        tree_entries(cs[j2], prefix.push(j2)).contains(e),
    ensures
        forest_entries(cs, prefix, j).contains(e),
    decreases cs.len() - j,
{
    let f = forest_entries(cs, prefix, j);
    let ek = seq![(prefix.push(j), cs[j].item)];
    let gk = forest_entries(cs[j].children@, prefix.push(j), 0);
    let fk1 = forest_entries(cs, prefix, j + 1);
    assert(f == (ek + gk) + fk1);
    if j == j2 {
        let te = tree_entries(cs[j], prefix.push(j));
        assert(te == ek + gk);
        let i = choose|i: int| 0 <= i < te.len() && te[i] == e;
        assert(f[i] == e);
    } else {
        lemma_forest_contains_child(cs, prefix, j + 1, j2, e);
        let i = choose|i: int| 0 <= i < fk1.len() && fk1[i] == e;
        assert(f[1 + gk.len() + i] == e);
    }
}

/// Every node of `t` stands among the entries of its walk: when `path`
/// addresses a node, the entry made of the prefixed path and that node's
/// item is in the walk from `prefix`.
proof fn lemma_tree_entries_complete<T>(t: Tree<T>, prefix: Seq<int>, path: Seq<int>)
    requires
        spec_lookup(t, path) is Some,
    ensures
        tree_entries(t, prefix).contains((prefix + path, spec_lookup(t, path).unwrap())),
    decreases t,
{
    if path.len() == 0 {
        assert(prefix + path =~= prefix);
        assert(tree_entries(t, prefix)[0] == (prefix, t.item));
    } else {
        let j = path[0];
        let child = t.children@[j];
        lemma_tree_entries_complete(child, prefix.push(j), path.drop_first());
        assert(prefix.push(j) + path.drop_first() =~= prefix + path);
        let e = (prefix + path, spec_lookup(t, path).unwrap());
        lemma_forest_contains_child(t.children@, prefix, 0, j, e);
        let i = choose|i: int|
            0 <= i < forest_entries(t.children@, prefix, 0).len() && forest_entries(
                t.children@,
                prefix,
                0,
            )[i] == e;
        assert(tree_entries(t, prefix)[1 + i] == e);
    }
}

/// Soundness of the index: every path recorded for `k` leads, by `lookup`
/// on the tree the index was built from, to a node whose item is `k`.
pub proof fn lemma_index_sound<T>(t: Tree<T>, k: T, i: int)
    requires
        0 <= i < spec_paths_of(t, k).len(),
    ensures
        spec_lookup(t, spec_paths_of(t, k)[i]) == Some(k),
{
    let es = tree_entries(t, Seq::<int>::empty());
    lemma_paths_for_membership(es, k, i);
    let idx = choose|idx: int| 0 <= idx < es.len() && es[idx] == (paths_for(es, k)[i], k);
    lemma_tree_entries_lookup(t, Seq::<int>::empty(), idx);
    assert(es[idx].0.skip(0) =~= es[idx].0);
}

/// Completeness of the index: every path that addresses a node of the tree
/// is recorded for that node's item.
pub proof fn lemma_index_complete<T>(t: Tree<T>, path: Seq<int>, k: T)
    requires
        spec_lookup(t, path) == Some(k),
    ensures
        spec_paths_of(t, k).contains(path),
{
    lemma_tree_entries_complete(t, Seq::<int>::empty(), path);
    assert(Seq::<int>::empty() + path =~= path);
    let es = tree_entries(t, Seq::<int>::empty());
    let idx = choose|idx: int| 0 <= idx < es.len() && es[idx] == (path, k);
    lemma_paths_for_contains(es, k, idx);
}

/// Pre-order precedence on paths: `p` comes before `q` when `p` is a strict
/// prefix of `q` (a node before its descendants), or when at the first
/// differing step `p` descends into a smaller child index (an earlier
/// sibling's whole subtree before a later sibling's).
pub open spec fn path_lt(p: Seq<int>, q: Seq<int>) -> bool
    decreases p.len(),
{
    if p.len() == 0 {
        q.len() > 0
    } else if q.len() == 0 {
        false
    } else if p[0] == q[0] {
        path_lt(p.drop_first(), q.drop_first())
    } else {
        p[0] < q[0]
    }
}

/// A strict prefix comes first in pre-order.
proof fn lemma_path_lt_prefix(p: Seq<int>, q: Seq<int>)
    requires
        q.len() > p.len(),
        q.take(p.len() as int) == p,
    ensures
        path_lt(p, q),
    decreases p.len(),
{
    if p.len() > 0 {
        assert(q.take(p.len() as int)[0] == q[0]);
        assert(q.drop_first().take(p.len() - 1) =~= p.drop_first());
        lemma_path_lt_prefix(p.drop_first(), q.drop_first());
    }
}

/// After a common stem, the path that descends into the smaller child index
/// comes first in pre-order.
proof fn lemma_path_lt_diverge(c: Seq<int>, p: Seq<int>, q: Seq<int>)
    requires
        p.len() > c.len(),
        q.len() > c.len(),
        p.take(c.len() as int) == c,
        q.take(c.len() as int) == c,
        p[c.len() as int] < q[c.len() as int],
    ensures
        path_lt(p, q),
    decreases c.len(),
{
    if c.len() == 0 {
        assert(p[0] < q[0]);
    } else {
        assert(p.take(c.len() as int)[0] == p[0]);
        assert(q.take(c.len() as int)[0] == q[0]);
        assert(p.drop_first().take(c.len() - 1) =~= c.drop_first());
        assert(q.drop_first().take(c.len() - 1) =~= c.drop_first());
        assert(p.drop_first()[c.len() - 1] == p[c.len() as int]);
        assert(q.drop_first()[c.len() - 1] == q[c.len() as int]);
        lemma_path_lt_diverge(c.drop_first(), p.drop_first(), q.drop_first());
    }
}

/// The entry paths stand in strict pre-order precedence.
spec fn entries_ordered<T>(es: Seq<(Seq<int>, T)>) -> bool {
    forall|i: int, j: int| 0 <= i < j < es.len() ==> path_lt(es[i].0, es[j].0)
}

/// The entries of a forest walk come in pre-order precedence.
proof fn lemma_forest_entries_ordered<T>(cs: Seq<Tree<T>>, prefix: Seq<int>, j: int)
    requires
        0 <= j,
    ensures
        entries_ordered(forest_entries(cs, prefix, j)),
    decreases cs, cs.len() - j,
{
    if 0 <= j < cs.len() {
        let f = forest_entries(cs, prefix, j);
        let plen = prefix.len() as int;
        let ek = seq![(prefix.push(j), cs[j].item)];
        let gk = forest_entries(cs[j].children@, prefix.push(j), 0);
        let fk1 = forest_entries(cs, prefix, j + 1);
        assert(f == (ek + gk) + fk1);
        lemma_forest_entries_ordered(cs[j].children@, prefix.push(j), 0);
        lemma_forest_entries_ordered(cs, prefix, j + 1);
        assert forall|a: int, b: int| 0 <= a < b < f.len() implies path_lt(f[a].0, f[b].0) by {
            if b < 1 + gk.len() {
                if a == 0 {
                    assert(f[b].0 == gk[b - 1].0);
                    lemma_forest_entries_lookup(cs[j].children@, prefix.push(j), 0, b - 1);
                    lemma_path_lt_prefix(prefix.push(j), f[b].0);
                } else {
                    assert(f[a].0 == gk[a - 1].0);
                    assert(f[b].0 == gk[b - 1].0);
                }
            } else {
                let tb = f[b].0;
                assert(tb == fk1[b - 1 - gk.len()].0);
                lemma_forest_entries_lookup(cs, prefix, j + 1, b - 1 - gk.len());
                if a == 0 {
                    assert(f[a].0 == prefix.push(j));
                    assert(f[a].0.take(plen) =~= prefix);
                    assert(f[a].0[plen] == j);
                    lemma_path_lt_diverge(prefix, f[a].0, tb);
                } else if a < 1 + gk.len() {
                    assert(f[a].0 == gk[a - 1].0);
                    lemma_forest_entries_lookup(cs[j].children@, prefix.push(j), 0, a - 1);
                    assert(f[a].0.take(plen + 1) == prefix.push(j));
                    assert(f[a].0.take(plen) =~= prefix);
                    assert(f[a].0[plen] == prefix.push(j)[plen]);
                    lemma_path_lt_diverge(prefix, f[a].0, tb);
                } else {
                    assert(f[a].0 == fk1[a - 1 - gk.len()].0);
                }
            }
        }
    }
}

/// The entries of a tree walk come in pre-order precedence: the root first,
/// then each child's whole subtree before the next sibling's.
proof fn lemma_tree_entries_ordered<T>(t: Tree<T>, prefix: Seq<int>)
    ensures
        entries_ordered(tree_entries(t, prefix)),
{
    let es = tree_entries(t, prefix);
    let plen = prefix.len() as int;
    let fs = forest_entries(t.children@, prefix, 0);
    lemma_forest_entries_ordered(t.children@, prefix, 0);
    assert forall|a: int, b: int| 0 <= a < b < es.len() implies path_lt(es[a].0, es[b].0) by {
        assert(es[b].0 == fs[b - 1].0);
        if a == 0 {
            lemma_forest_entries_lookup(t.children@, prefix, 0, b - 1);
            lemma_path_lt_prefix(prefix, es[b].0);
        } else {
            assert(es[a].0 == fs[a - 1].0);
        }
    }
}

/// Filtering entries by key keeps their order.
proof fn lemma_paths_for_ordered<T>(es: Seq<(Seq<int>, T)>, k: T)
    requires
        entries_ordered(es),
    ensures
        forall|i: int, j: int|
            0 <= i < j < paths_for(es, k).len() ==> path_lt(
                paths_for(es, k)[i],
                paths_for(es, k)[j],
            ),
    decreases es.len(),
{
    if es.len() > 0 {
        let front = paths_for(es.drop_last(), k);
        assert(forall|i: int|
            0 <= i < es.drop_last().len() ==> es.drop_last()[i] == es[i]);
        lemma_paths_for_ordered(es.drop_last(), k);
        if es.last().1 == k {
            assert forall|i: int| 0 <= i < front.len() implies path_lt(
                front[i],
                es.last().0,
            ) by {
                lemma_paths_for_membership(es.drop_last(), k, i);
                let idx = choose|idx: int|
                    0 <= idx < es.drop_last().len() && es.drop_last()[idx] == (front[i], k);
                assert(path_lt(es[idx].0, es[es.len() - 1].0));
            }
        }
    }
}

/// Ordering of the index: the paths recorded for a value come in pre-order,
/// children-in-index-order discovery sequence, each strictly preceding the
/// next.
pub proof fn lemma_index_ordered<T>(t: Tree<T>, k: T, i: int, j: int)
    requires
        0 <= i < j < spec_paths_of(t, k).len(),
    ensures
        path_lt(spec_paths_of(t, k)[i], spec_paths_of(t, k)[j]),
{
    lemma_tree_entries_ordered(t, Seq::<int>::empty());
    lemma_paths_for_ordered(tree_entries(t, Seq::<int>::empty()), k);
}

/// When pair `i` holds key `k` and keys are distinct, the map holds `k` with
/// exactly that pair's path list.
proof fn lemma_assoc_view_key_present<T>(pairs: Seq<(T, Vec<Path>)>, i: int, k: T)
    requires
        distinct_keys(pairs),
        0 <= i < pairs.len(),
        pairs[i].0 == k,
    ensures
        assoc_view(pairs).dom().contains(k),
        assoc_view(pairs)[k] == paths_view(pairs[i].1@),
    decreases pairs.len(),
{
    if i == pairs.len() - 1 {
    } else {
        assert(pairs.drop_last()[i] == pairs[i]);
        lemma_assoc_view_key_present(pairs.drop_last(), i, k);
        assert(pairs.last().0 != k);
    }
}

/// When no pair holds key `k`, the map does not hold `k`.
proof fn lemma_assoc_view_key_absent<T>(pairs: Seq<(T, Vec<Path>)>, k: T)
    requires
        forall|i: int| 0 <= i < pairs.len() ==> pairs[i].0 != k,
    ensures
        !assoc_view(pairs).dom().contains(k),
    decreases pairs.len(),
{
    if pairs.len() > 0 {
        assert(forall|i: int|
            0 <= i < pairs.drop_last().len() ==> pairs.drop_last()[i] == pairs[i]);
        lemma_assoc_view_key_absent(pairs.drop_last(), k);
    }
}

/// Replacing pair `i` by a pair with the same key re-points that key alone.
proof fn lemma_assoc_view_update<T>(pairs: Seq<(T, Vec<Path>)>, i: int, e: (T, Vec<Path>))
    requires
        distinct_keys(pairs),
        0 <= i < pairs.len(),
        e.0 == pairs[i].0,
    ensures
        assoc_view(pairs.update(i, e)) == assoc_view(pairs).insert(e.0, paths_view(e.1@)),
    decreases pairs.len(),
{
    let u = pairs.update(i, e);
    if i == pairs.len() - 1 {
        assert(u.drop_last() =~= pairs.drop_last());
        assert(u.last() == e);
        assert(assoc_view(pairs).insert(e.0, paths_view(e.1@)) =~= assoc_view(
            pairs.drop_last(),
        ).insert(e.0, paths_view(e.1@)));
    } else {
        assert(u.drop_last() =~= pairs.drop_last().update(i, e));
        assert(u.last() == pairs.last());
        assert(pairs.drop_last()[i] == pairs[i]);
        lemma_assoc_view_update(pairs.drop_last(), i, e);
        assert(pairs.last().0 != e.0);
        assert(assoc_view(pairs.drop_last()).insert(e.0, paths_view(e.1@)).insert(
            pairs.last().0,
            paths_view(pairs.last().1@),
        ) =~= assoc_view(pairs).insert(e.0, paths_view(e.1@)));
    }
}

/// Appending a pair points its key at its path list and changes nothing else.
proof fn lemma_assoc_view_push<T>(pairs: Seq<(T, Vec<Path>)>, e: (T, Vec<Path>))
    ensures
        assoc_view(pairs.push(e)) == assoc_view(pairs).insert(e.0, paths_view(e.1@)),
{
    assert(pairs.push(e).drop_last() =~= pairs);
    assert(pairs.push(e).last() == e);
}

/// Recording a concatenation records the first part, then the second.
proof fn lemma_insert_all_concat<T>(
    m: Map<T, Seq<Seq<int>>>,
    a: Seq<(Seq<int>, T)>,
    b: Seq<(Seq<int>, T)>,
)
    ensures
        insert_all(m, a + b) == insert_all(insert_all(m, a), b),
    decreases b.len(),
{
    if b.len() == 0 {
        assert(a + b =~= a);
    } else {
        assert((a + b).drop_last() =~= a + b.drop_last());
        assert((a + b).last() == b.last());
        lemma_insert_all_concat(m, a, b.drop_last());
    }
}

/// Recording one entry is one `spec_insert`.
proof fn lemma_insert_all_singleton<T>(m: Map<T, Seq<Seq<int>>>, e: (Seq<int>, T))
    ensures
        insert_all(m, seq![e]) == spec_insert(m, e.1, e.0),
{
    assert(seq![e].len() == 1);
    assert(seq![e].last() == e);
    assert(seq![e].drop_last() =~= Seq::<(Seq<int>, T)>::empty());
    assert(insert_all(m, Seq::<(Seq<int>, T)>::empty()) == m);
}

/// What recording a list of entries holds for one key: the key is present
/// exactly when it was before or some entry carries it, and its list is what
/// it was before followed by the carried paths, in entry order.
proof fn lemma_insert_all_paths<T>(m: Map<T, Seq<Seq<int>>>, es: Seq<(Seq<int>, T)>, k: T)
    ensures
        insert_all(m, es).dom().contains(k) <==> (m.dom().contains(k) || paths_for(es, k).len()
            > 0),
        insert_all(m, es).dom().contains(k) ==> insert_all(m, es)[k] == (if m.dom().contains(k) {
            m[k]
        } else {
            Seq::<Seq<int>>::empty()
        }) + paths_for(es, k),
    decreases es.len(),
{
    if es.len() == 0 {
        if m.dom().contains(k) {
            assert(m[k] + paths_for(es, k) =~= m[k]);
        }
    } else {
        lemma_insert_all_paths(m, es.drop_last(), k);
        let m1 = insert_all(m, es.drop_last());
        let e = es.last();
        if e.1 == k {
            if m1.dom().contains(k) {
                assert((if m.dom().contains(k) {
                    m[k]
                } else {
                    Seq::<Seq<int>>::empty()
                }) + paths_for(es.drop_last(), k).push(e.0) =~= ((if m.dom().contains(k) {
                    m[k]
                } else {
                    Seq::<Seq<int>>::empty()
                }) + paths_for(es.drop_last(), k)).push(e.0));
            } else {
                assert(paths_for(es.drop_last(), k).len() == 0);
                assert(!m.dom().contains(k));
                assert(Seq::<Seq<int>>::empty() + paths_for(es.drop_last(), k).push(e.0)
                    =~= seq![e.0]);
            }
        }
    }
}

} // verus!
