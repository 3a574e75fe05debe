//! A rooted, ordered, finite tree.
//!
//! Every node holds an item and an ordered sequence of owned child subtrees.
//! A node is addressed by a [`Path`]: the empty path addresses the node
//! itself, and each step descends into the child with that index.

use crate::path::Path;
use vstd::prelude::*;

verus! {

/// A rooted, ordered tree node: an item and its child subtrees, in order.
#[derive(Debug, PartialEq)]
pub struct Tree<T> {
    pub item: T,
    pub children: Vec<Tree<T>>,
}

/// The item found by walking `path` down from the root of `t`, or `None`
/// when some step is out of range for the children at that depth.
pub open spec fn spec_lookup<T>(t: Tree<T>, path: Seq<int>) -> Option<T>
    decreases t,
{
    if path.len() == 0 {
        Some(t.item)
    } else if 0 <= path[0] < t.children@.len() {
        spec_lookup(t.children@[path[0]], path.drop_first())
    } else {
        None
    }
}

/// Whether `path` addresses an existing node of `t`: every step is in range
/// for the children sequence at its depth.
pub open spec fn addresses<T>(t: Tree<T>, path: Seq<int>) -> bool
    decreases t,
{
    ||| path.len() == 0
    ||| (0 <= path[0] < t.children@.len() && addresses(t.children@[path[0]], path.drop_first()))
}

impl<T> Tree<T> {
    /// Builds a node with the given item and exactly the given children.
    pub fn new(item: T, children: Vec<Tree<T>>) -> (t: Tree<T>)
        ensures
            t.item == item,
            t.children == children,
    {
        Tree { item, children }
    }

    /// Builds a leaf: the given item and no children.
    pub fn singleton(item: T) -> (t: Tree<T>)
        ensures
            t.item == item,
            t.children@ == Seq::<Tree<T>>::empty(),
    {
        Tree::new(item, vec![])
    }

    /// Walks `path` down from this node and returns the item found there,
    /// or `None` when the path addresses no existing node.
    pub fn lookup(&self, path: Path) -> (r: Option<&T>)
        ensures
            match r {
                Some(item) => spec_lookup(*self, path@) == Some(*item),
                None => spec_lookup(*self, path@) is None,
            },
        decreases *self,
    {
        match path.split_front() {
            None => Some(&self.item),
            Some((index, child_path)) => {
                if index < self.children.len() {
                    self.children[index].lookup(child_path)
                } else {
                    None
                }
            },
        }
    }
}

impl<T: Clone> Tree<T> {
    /// Adds `new_child_tree` as the new last child of this node; the item
    /// and the existing children are unchanged.
    pub fn append(&mut self, new_child_tree: Tree<T>)
        ensures
            final(self).item == old(self).item,
            final(self).children@ == old(self).children@.push(new_child_tree),
    {
        self.children.push(new_child_tree);
    }
}

/// Looking up the empty path yields the node's own item.
pub proof fn lemma_lookup_empty<T>(t: Tree<T>)
    ensures
        spec_lookup(t, Seq::<int>::empty()) == Some(t.item),
{
}

/// Looking up a path that starts with step `i` descends into child `i` and
/// continues with the remaining steps; a first step out of range for the
/// children sequence yields `None`.
pub proof fn lemma_lookup_step<T>(t: Tree<T>, i: int, rest: Seq<int>)
    ensures
        0 <= i < t.children@.len() ==> spec_lookup(t, seq![i] + rest) == spec_lookup(
            t.children@[i],
            rest,
        ),
        !(0 <= i < t.children@.len()) ==> spec_lookup(t, seq![i] + rest) is None,
{
    let p = seq![i] + rest;
    assert(p[0] == i);
    assert(p.drop_first() =~= rest);
}

/// A path yields an item exactly when it addresses an existing node; in
/// particular, a path with an out-of-range step at any depth yields `None`.
pub proof fn lemma_lookup_addresses<T>(t: Tree<T>, path: Seq<int>)
    ensures
        spec_lookup(t, path) is Some <==> addresses(t, path),
    decreases t,
{
    if path.len() > 0 && 0 <= path[0] < t.children@.len() {
        lemma_lookup_addresses(t.children@[path[0]], path.drop_first());
    }
}

/// Appending a child: the new child's item stands at the path made of one
/// step, the previous child count; and every path that addressed a node
/// before still does, with the same item.
pub proof fn lemma_append_lookup<T>(t1: Tree<T>, t2: Tree<T>, c: Tree<T>, path: Seq<int>)
    requires
        t2.item == t1.item,
        t2.children@ == t1.children@.push(c),
    ensures
        path.len() == 1 && path[0] == t1.children@.len() ==> spec_lookup(t2, path) == Some(c.item),
        addresses(t1, path) ==> addresses(t2, path) && spec_lookup(t2, path) == spec_lookup(
            t1,
            path,
        ),
{
    if path.len() == 1 && path[0] == t1.children@.len() {
        assert(t2.children@[path[0]] == c);
        assert(path.drop_first().len() == 0);
        assert(spec_lookup(c, path.drop_first()) == Some(c.item));
        assert(0 <= path[0] < t2.children@.len());
        assert(spec_lookup(t2, path) == spec_lookup(c, path.drop_first()));
    }
    if addresses(t1, path) && path.len() > 0 {
        let i = path[0];
        assert(t2.children@[i] == t1.children@[i]);
    }
}

} // verus!
