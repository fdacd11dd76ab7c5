//! A `k^d` tree: a generalized Jacobson encoding of a `2^d`-radix tree over a
//! rank/select index, navigated through the index's rank, select and access
//! alone.
use vstd::prelude::*;

use crate::succinct::{Access, Rank, Select0, Select1};

verus! {

/// A fan-out, known at run time or fixed by the type.
pub trait Dim: Copy {
    /// The fan-out.
    spec fn dim_spec(self) -> nat;

    fn dim(self) -> (r: usize)
        ensures
            r == self.dim_spec(),
    ;
}

/// A fan-out known at run time.
impl Dim for usize {
    open spec fn dim_spec(self) -> nat {
        self as nat
    }

    fn dim(self) -> (r: usize) {
        self
    }
}

/// A tree encoded in `index`, each internal node with `arity` children.
#[derive(Copy, Clone, Debug)]
pub struct Tree<K, D> {
    pub index: K,
    pub arity: D,
}

impl<K, D> Tree<K, D> {
    /// The root of the tree.
    pub fn root(self) -> (z: Zipper<K, D>)
        ensures
            z.tree == self,
            z.cursor == 1,
    {
        Zipper { tree: self, cursor: 1 }
    }
}

/// Builds a tree from its index and arity.
#[allow(non_snake_case)]
pub fn Tree<K, D>(index: K, arity: D) -> (t: Tree<K, D>)
    ensures
        t.index == index,
        t.arity == arity,
{
    Tree { index, arity }
}

impl<K: Copy, D: Dim> Dim for Tree<K, D> {
    open spec fn dim_spec(self) -> nat {
        self.arity.dim_spec()
    }

    fn dim(self) -> (r: usize) {
        self.arity.dim()
    }
}

impl<K: Access, D> Access for Tree<K, D> {
    type Item = K::Item;

    open spec fn access_len(&self) -> nat {
        self.index.access_len()
    }

    open spec fn access_spec(&self, index: int) -> K::Item {
        self.index.access_spec(index)
    }

    fn access(&self, i: usize) -> (r: K::Item) {
        self.index.access(i)
    }
}

impl<K: Rank, D> Rank for Tree<K, D> {
    type Item = K::Item;

    open spec fn rank_len(&self) -> nat {
        self.index.rank_len()
    }

    open spec fn rank_spec(&self, item: K::Item, index: int) -> nat {
        self.index.rank_spec(item, index)
    }

    fn rank(&self, item: K::Item, i: usize) -> (r: usize) {
        self.index.rank(item, i)
    }
}

impl<K: Select0, D> Select0 for Tree<K, D> {
    open spec fn zeros(&self) -> nat {
        self.index.zeros()
    }

    open spec fn select0_spec(&self, count: int) -> int {
        self.index.select0_spec(count)
    }

    fn select0(&self, i: usize) -> (r: usize) {
        self.index.select0(i)
    }
}

impl<K: Select1, D> Select1 for Tree<K, D> {
    open spec fn ones(&self) -> nat {
        self.index.ones()
    }

    open spec fn select1_spec(&self, count: int) -> int {
        self.index.select1_spec(count)
    }

    fn select1(&self, i: usize) -> (r: usize) {
        self.index.select1(i)
    }
}

/// Points to the left-most of a run of siblings.
#[derive(Copy, Clone, Debug)]
pub struct Children<K, D> {
    pub tree: Tree<K, D>,
    pub cursor: usize,
}

impl<K: Copy, D: Dim> Dim for Children<K, D> {
    open spec fn dim_spec(self) -> nat {
        self.tree.arity.dim_spec()
    }

    fn dim(self) -> (r: usize) {
        self.tree.arity.dim()
    }
}

impl<K: Copy, D: Dim> Children<K, D> {
    /// The root of the tree.
    pub fn root(self) -> (z: Zipper<K, D>)
        ensures
            z.tree == self.tree,
            z.cursor == 1,
    {
        self.at(1)
    }

    fn at(self, i: usize) -> (z: Zipper<K, D>)
        ensures
            z.tree == self.tree,
            z.cursor == i,
    {
        Zipper { tree: self.tree, cursor: i }
    }

    /// The node whose children these are. O(select1)
    pub fn parent(self) -> (z: Zipper<K, D>) where K: Select1
        requires
            self.tree.arity.dim_spec() > 0,
            (self.cursor as int / self.tree.arity.dim_spec() as int) < self.tree.index.ones(),
        ensures
            z.tree == self.tree,
            z.cursor == self.tree.index.select1_spec(
                self.cursor as int / self.tree.arity.dim_spec() as int,
            ),
    {
        let d = self.dim();
        self.at(self.tree.index.select1(self.cursor / d))
    }

    /// The `k`-th of the siblings.
    pub fn nth(&self, k: usize) -> (z: Zipper<K, D>)
        requires
            k <= self.tree.arity.dim_spec(),
            self.cursor + k <= usize::MAX,
        ensures
            z.tree == self.tree,
            z.cursor == self.cursor + k,
    {
        self.at(self.cursor + k)
    }
}

/// A position in a tree.
#[derive(Copy, Clone, Debug)]
pub struct Zipper<K, D> {
    pub tree: Tree<K, D>,
    pub cursor: usize,
}

impl<K: Copy, D: Dim> Dim for Zipper<K, D> {
    open spec fn dim_spec(self) -> nat {
        self.tree.arity.dim_spec()
    }

    fn dim(self) -> (r: usize) {
        self.tree.arity.dim()
    }
}

impl<K: Copy, D: Dim> Zipper<K, D> {
    /// The root of the tree.
    pub fn root(self) -> (z: Zipper<K, D>)
        ensures
            z.tree == self.tree,
            z.cursor == 1,
    {
        Zipper { tree: self.tree, cursor: 1 }
    }

    fn at(self, i: usize) -> (z: Zipper<K, D>)
        ensures
            z.tree == self.tree,
            z.cursor == i,
    {
        Zipper { tree: self.tree, cursor: i }
    }

    /// Whether this is the root. O(1)
    pub fn top(&self) -> (r: bool)
        ensures
            r == (self.cursor == 1),
    {
        self.cursor == 1
    }

    /// Whether this is a leaf. O(access)
    pub fn tip(&self) -> (r: bool) where K: Access<Item = bool>
        requires
            self.cursor < self.tree.index.access_len(),
        ensures
            r == !self.tree.index.access_spec(self.cursor as int),
    {
        !self.tree.index.access(self.cursor)
    }

    /// The children of this node, if it has any. O(access + rank)
    pub fn children(&self) -> (r: Option<Children<K, D>>) where K: Rank<Item = bool> + Access<
        Item = bool,
    >
        requires
            self.cursor < self.tree.index.access_len(),
            2 * self.cursor <= self.tree.index.rank_len(),
            2 * self.cursor <= usize::MAX,
        ensures
            r == if self.tree.index.access_spec(self.cursor as int) {
                Some(
                    Children {
                        tree: self.tree,
                        cursor: self.tree.index.rank_spec(true, 2 * self.cursor) as usize,
                    },
                )
            } else {
                None
            },
    {
        if self.tree.index.access(self.cursor) {
            Some(Children { tree: self.tree, cursor: self.tree.index.rank(true, 2 * self.cursor) })
        } else {
            None
        }
    }

    /// The parent of this node, unless it is the root. O(select1)
    pub fn parent(&self) -> (r: Option<Zipper<K, D>>) where K: Select1
        requires
            self.tree.arity.dim_spec() > 0,
            self.cursor != 1 ==> (self.cursor as int / self.tree.arity.dim_spec() as int)
                < self.tree.index.ones(),
        ensures
            r == if self.cursor == 1 {
                None
            } else {
                Some(
                    Zipper {
                        tree: self.tree,
                        cursor: self.tree.index.select1_spec(
                            self.cursor as int / self.tree.arity.dim_spec() as int,
                        ) as usize,
                    },
                )
            },
    {
        if self.top() {
            None
        } else {
            let d = self.dim();
            Some(self.at(self.tree.index.select1(self.cursor / d)))
        }
    }

    /// The `k`-th child of this node, if it has children. O(access + rank)
    pub fn child(&self, k: usize) -> (r: Option<Zipper<K, D>>) where K: Rank<Item = bool> + Access<
        Item = bool,
    >
        requires
            self.cursor < self.tree.index.access_len(),
            2 * self.cursor <= self.tree.index.rank_len(),
            2 * self.cursor <= usize::MAX,
            k <= self.tree.arity.dim_spec(),
            self.tree.index.rank_spec(true, 2 * self.cursor) + k <= usize::MAX,
        ensures
            r == if self.tree.index.access_spec(self.cursor as int) {
                Some(
                    Zipper {
                        tree: self.tree,
                        cursor: (self.tree.index.rank_spec(true, 2 * self.cursor) + k) as usize,
                    },
                )
            } else {
                None
            },
    {
        match self.children() {
            Some(c) => Some(c.nth(k)),
            None => None,
        }
    }
}

} // verus!
