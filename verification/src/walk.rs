//! Ways through a tree: the walk in pre-order, and the leaves that take
//! in new text.

use crate::node::{Node, seq_content};
use crate::seqs::{gather, lemma_gather_at, lemma_gather_empty};
use vstd::prelude::*;

verus! {

broadcast use Node::lemma_parts;

/// A node as a walk through the tree meets it: the node and how deep it
/// stands below the node at which the walk began.
pub struct Visit<T> {
    pub node: Node<T>,
    pub level: nat,
}

/// The walk through the subtree of a node that stands `level` deep, as a
/// function.
pub open spec fn walk_of<T>(level: nat) -> spec_fn(Node<T>) -> Seq<Visit<T>> {
    |n: Node<T>| n.walk(level)
}

/// The walk through the subtrees of a list of siblings that stand `level`
/// deep.
pub open spec fn seq_walk<T>(nodes: Seq<Node<T>>, level: nat) -> Seq<Visit<T>> {
    gather(nodes, walk_of(level))
}

impl<T> Node<T> {
    /// The nodes of the subtree in depth-first pre-order, each with its
    /// depth, where this node stands `level` deep.
    pub closed spec fn walk(self, level: nat) -> Seq<Visit<T>>
        decreases self, self.kids().len() + 1,
    {
        seq![Visit { node: self, level }] + self.walk_upto(level, self.children@.len())
    }

    /// The walk through the subtrees of the first `n` children.
    spec fn walk_upto(self, level: nat, n: nat) -> Seq<Visit<T>>
        decreases self, n,
    {
        if n == 0 || n > self.children@.len() {
            Seq::empty()
        } else {
            self.walk_upto(level, (n - 1) as nat) + self.children@[n - 1].walk(level + 1)
        }
    }

    proof fn lemma_walk_upto(self, level: nat, n: nat)
        requires
            n <= self.children@.len(),
        ensures
            self.walk_upto(level, n) == seq_walk(self.children@.take(n as int), level + 1),
        decreases n,
    {
        let kids = self.children@;
        if n == 0 {
            assert(kids.take(0) =~= Seq::<Node<T>>::empty());
            lemma_gather_empty(walk_of::<T>(level + 1));
        } else {
            self.lemma_walk_upto(level, (n - 1) as nat);
            lemma_gather_at(kids, n - 1, walk_of(level + 1));
        }
    }

    /// A walk meets the node first and then walks through each child's
    /// subtree in turn.
    pub broadcast proof fn lemma_walk(self, level: nat)
        ensures
            #[trigger] self.walk(level) == seq![Visit { node: self, level }] + seq_walk(
                self.kids(),
                level + 1,
            ),
    {
        self.lemma_walk_upto(level, self.children@.len());
        assert(self.children@.take(self.children@.len() as int) =~= self.children@);
    }
}

impl<T> Node<T> {
    /// Whether `other` is a node of the tree below this node: a child, or a
    /// node below a child.
    pub closed spec fn above(self, other: Node<T>) -> bool
        decreases self,
    {
        exists|i: int|
            #![trigger self.children@[i]]
            0 <= i < self.children@.len() && (self.children@[i] == other
                || self.children@[i].above(other))
    }

    /// A node stands above its children and above what stands below them.
    pub broadcast proof fn lemma_above(self, other: Node<T>)
        ensures
            #[trigger] self.above(other) == exists|i: int|
                #![trigger self.kids()[i]]
                0 <= i < self.kids().len() && (self.kids()[i] == other || self.kids()[i].above(
                    other,
                )),
    {
        if self.above(other) {
            let i = choose|i: int|
                #![trigger self.children@[i]]
                0 <= i < self.children@.len() && (self.children@[i] == other
                    || self.children@[i].above(other));
            assert(self.kids()[i] == other || self.kids()[i].above(other));
        }
        if exists|i: int|
            #![trigger self.kids()[i]]
            0 <= i < self.kids().len() && (self.kids()[i] == other || self.kids()[i].above(other)) {
            let i = choose|i: int|
                #![trigger self.kids()[i]]
                0 <= i < self.kids().len() && (self.kids()[i] == other || self.kids()[i].above(
                    other,
                ));
            assert(self.children@[i] == other || self.children@[i].above(other));
        }
    }
}

impl<T> Node<T> {
    /// The attributes on the way from this node down to its first leaf.
    pub closed spec fn lead_marks(self) -> Set<T>
        decreases self,
    {
        if self.children@.len() == 0 {
            self.attrs@
        } else {
            self.children@[0].lead_marks().union(self.attrs@)
        }
    }

    /// The attributes on the way from this node down to its last leaf.
    pub closed spec fn tail_marks(self) -> Set<T>
        decreases self,
    {
        if self.children@.len() == 0 {
            self.attrs@
        } else {
            self.children@[self.children@.len() - 1].tail_marks().union(self.attrs@)
        }
    }

    /// The attributes that text put in at the byte `idx` takes on: those of
    /// the byte before it, or at the start of the text those on the way to
    /// the first leaf.
    pub open spec fn marks_before(self, idx: int) -> Set<T> {
        if idx > 0 {
            self.marks()[idx - 1]
        } else {
            self.lead_marks()
        }
    }

    pub broadcast proof fn lemma_lead_marks(self)
        ensures
            #[trigger] self.lead_marks() == if self.leaf() {
                self.own()
            } else {
                self.kids()[0].lead_marks().union(self.own())
            },
    {
    }

    pub broadcast proof fn lemma_tail_marks(self)
        ensures
            #[trigger] self.tail_marks() == if self.leaf() {
                self.own()
            } else {
                self.kids()[self.kids().len() - 1].tail_marks().union(self.own())
            },
    {
    }
}

impl<T> Node<T> {
    /// The identifier of the leaf that takes in text put in at the byte
    /// `idx`: the first leaf that reaches as far as `idx`.
    pub closed spec fn taker(self, idx: int) -> Seq<char>
        decreases self, self.kids().len() + 1,
    {
        if self.children@.len() == 0 {
            self.id@
        } else {
            self.taker_from(idx, 0)
        }
    }

    /// The identifier of the leaf that takes in text put in at the byte
    /// `idx`, where none of the children before the one at `from` reaches
    /// that far.
    pub closed spec fn taker_from(self, idx: int, from: nat) -> Seq<char>
        decreases self, self.kids().len() - from,
    {
        if from >= self.children@.len() {
            self.id@
        } else if idx <= seq_content(self.children@.take(from as int + 1)).len() {
            self.children@[from as int].taker(
                idx - seq_content(self.children@.take(from as int)).len(),
            )
        } else {
            self.taker_from(idx, from + 1)
        }
    }

    /// The identifier of the last leaf.
    pub closed spec fn last_leaf(self) -> Seq<char>
        decreases self,
    {
        if self.children@.len() == 0 {
            self.id@
        } else {
            self.children@[self.children@.len() - 1].last_leaf()
        }
    }

    pub broadcast proof fn lemma_taker(self, idx: int)
        ensures
            #[trigger] self.taker(idx) == if self.leaf() {
                self.ident()
            } else {
                self.taker_from(idx, 0)
            },
    {
    }

    pub broadcast proof fn lemma_taker_from(self, idx: int, from: nat)
        ensures
            #[trigger] self.taker_from(idx, from) == if from >= self.kids().len() {
                self.ident()
            } else if idx <= seq_content(self.kids().take(from as int + 1)).len() {
                self.kids()[from as int].taker(
                    idx - seq_content(self.kids().take(from as int)).len(),
                )
            } else {
                self.taker_from(idx, from + 1)
            },
    {
    }

    pub broadcast proof fn lemma_last_leaf(self)
        ensures
            #[trigger] self.last_leaf() == if self.leaf() {
                self.ident()
            } else {
                self.kids()[self.kids().len() - 1].last_leaf()
            },
    {
    }
}

} // verus!
