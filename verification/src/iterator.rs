//! Walking through a tree in depth-first pre-order.

use crate::node::Node;
use crate::seqs::{lemma_gather_empty, lemma_gather_one, lemma_gather_split};
use crate::tree::Tree;
use crate::walk::{Visit, seq_walk, walk_of};
use vstd::prelude::*;

verus! {

broadcast use Node::lemma_parts;

/// A node that a walk has met, and how deep it stands below the node at
/// which the walk began.
pub struct Item<'a, T> {
    pub node: &'a Node<T>,
    pub level: usize,
}

/// A depth as a `usize` holds it: the depth itself, or the largest `usize`
/// where the node stands deeper than that.
pub open spec fn capped(level: nat) -> usize {
    if level > usize::MAX {
        usize::MAX
    } else {
        level as usize
    }
}

/// A walk through a tree in depth-first pre-order, one node at a time.
pub struct PreOrder<'a, T> {
    stack: Vec<Item<'a, T>>,
    depths: Ghost<Seq<nat>>,
}

/// The visits that the first `k` entries of a stack stand for: each entry
/// stands for the walk through its node's subtree, and the last entry comes
/// first.
pub open spec fn pending<T>(nodes: Seq<Node<T>>, depths: Seq<nat>, k: nat) -> Seq<Visit<T>>
    decreases k,
{
    if k == 0 || k > nodes.len() || k > depths.len() {
        Seq::empty()
    } else {
        nodes[k - 1].walk(depths[k - 1]) + pending(nodes, depths, (k - 1) as nat)
    }
}

/// What the first `k` entries of a stack stand for does not depend on the
/// entries above them.
proof fn lemma_pending_below<T>(
    nodes: Seq<Node<T>>,
    depths: Seq<nat>,
    more: Seq<Node<T>>,
    deeper: Seq<nat>,
    k: nat,
)
    requires
        nodes.len() == depths.len(),
        k <= nodes.len(),
    ensures
        pending(nodes + more, depths + deeper, k) == pending(nodes, depths, k),
    decreases k,
{
    if k > 0 {
        lemma_pending_below(nodes, depths, more, deeper, (k - 1) as nat);
    }
}

impl<'a, T> PreOrder<'a, T> {
    /// The nodes on the stack.
    pub closed spec fn nodes(self) -> Seq<Node<T>> {
        Seq::new(self.stack@.len(), |i: int| *self.stack@[i].node)
    }

    /// The visits that are still to come, in order.
    pub closed spec fn remaining(self) -> Seq<Visit<T>> {
        pending(self.nodes(), self.depths@, self.stack@.len())
    }

    /// What holds of every walk that `new` hands out and `next` leaves
    /// behind.
    pub closed spec fn wf(self) -> bool {
        &&& self.depths@.len() == self.stack@.len()
        &&& forall|i: int|
            0 <= i < self.stack@.len() ==> (#[trigger] self.stack@[i]).level == capped(
                self.depths@[i],
            )
    }

    /// A walk through the subtree of `root`.
    pub fn new(root: &'a Node<T>) -> (walk: Self)
        ensures
            walk.wf(),
            walk.remaining() == root.walk(0),
    {
        let mut stack: Vec<Item<'a, T>> = Vec::new();
        stack.push(Item { node: root, level: 0 });
        let depths: Ghost<Seq<nat>> = Ghost(Seq::<nat>::empty().push(0));
        let walk = PreOrder { stack, depths };
        proof {
            reveal_with_fuel(pending, 2);
            assert(walk.nodes()[0] == *root);
            assert(walk.remaining() =~= root.walk(0));
        }
        walk
    }

    /// The next node of the walk with its depth, or nothing when the walk
    /// is over.
    pub fn next(&mut self) -> (item: Option<Item<'a, T>>)
        requires
            old(self).wf(),
        ensures
            final(self).wf(),
            match item {
                Some(met) => {
                    &&& old(self).remaining().len() > 0
                    &&& *met.node == old(self).remaining()[0].node
                    &&& met.level == capped(old(self).remaining()[0].level)
                    &&& final(self).remaining() == old(self).remaining().skip(1)
                },
                None => {
                    &&& old(self).remaining().len() == 0
                    &&& final(self).remaining() == old(self).remaining()
                },
            },
    {
        let ghost before_nodes = self.nodes();
        let ghost before_depths = self.depths@;
        let height = self.stack.len();
        if height == 0 {
            return None;
        }
        let item = self.stack.pop().unwrap();
        let ghost depth = before_depths[height - 1];
        let ghost rest_nodes = before_nodes.take(height - 1);
        let ghost rest_depths = before_depths.take(height - 1);
        let ghost rest = pending(before_nodes, before_depths, (height - 1) as nat);
        let ghost kids = item.node.kids();
        self.depths = Ghost(rest_depths);
        proof {
            item.node.lemma_walk(depth);
            assert(self.nodes() =~= rest_nodes);
            assert(before_nodes[height - 1] == *item.node);
            assert(before_nodes =~= rest_nodes + seq![*item.node]);
            assert(before_depths =~= rest_depths + seq![depth]);
            lemma_pending_below(
                rest_nodes,
                rest_depths,
                seq![*item.node],
                seq![depth],
                (height - 1) as nat,
            );
            lemma_gather_empty(walk_of::<T>(depth + 1));
            assert(kids.skip(kids.len() as int) =~= Seq::<Node<T>>::empty());
        }
        let count = item.node.children.len();
        let deeper = item.level.saturating_add(1);
        let mut i: usize = 0;
        while i < count
            invariant
                i <= count,
                count == kids.len(),
                kids == item.node.children@,
                deeper == capped(depth + 1),
                self.wf(),
                self.stack@.len() == height - 1 + i,
                self.nodes().take(height - 1) == rest_nodes,
                self.depths@.take(height - 1) == rest_depths,
                rest_nodes.len() == height - 1,
                rest_depths.len() == height - 1,
                pending(rest_nodes, rest_depths, (height - 1) as nat) == rest,
                self.remaining() == seq_walk(kids.skip(count - i), depth + 1) + rest,
            decreases count - i,
        {
            let ghost now_nodes = self.nodes();
            let ghost now_depths = self.depths@;
            let kid = &item.node.children[count - i - 1];
            self.stack.push(Item { node: kid, level: deeper });
            self.depths = Ghost(now_depths.push(depth + 1));
            proof {
                assert(self.nodes() =~= now_nodes.push(*kid));
                assert(self.nodes().take(height - 1) =~= now_nodes.take(height - 1));
                assert(self.depths@.take(height - 1) =~= now_depths.take(height - 1));
                lemma_pending_below(
                    now_nodes,
                    now_depths,
                    seq![*kid],
                    seq![depth + 1],
                    now_nodes.len(),
                );
                assert(now_nodes.push(*kid) =~= now_nodes + seq![*kid]);
                assert(now_depths.push(depth + 1) =~= now_depths + seq![depth + 1]);
                let from = count - i - 1;
                lemma_gather_split(kids.skip(from), 1, walk_of(depth + 1));
                assert(kids.skip(from).take(1) =~= seq![*kid]);
                assert(kids.skip(from).skip(1) =~= kids.skip(from + 1));
                lemma_gather_one(*kid, walk_of(depth + 1));
                assert(self.remaining() =~= seq_walk(kids.skip(from), depth + 1) + rest);
            }
            i = i + 1;
        }
        proof {
            assert(kids.skip(0) =~= kids);
            assert(old(self).remaining() =~= seq![Visit { node: *item.node, level: depth }]
                + seq_walk(kids, depth + 1) + rest);
            assert(self.remaining() =~= old(self).remaining().skip(1));
        }
        Some(item)
    }
}

/// Whether a visit is one of a leaf.
pub open spec fn at_leaf<T>() -> spec_fn(Visit<T>) -> bool {
    |visit: Visit<T>| visit.node.leaf()
}

impl<T> Node<T> {
    /// A walk through the subtree of this node in depth-first pre-order.
    pub fn pre_order_iter(&self) -> (walk: PreOrder<'_, T>)
        ensures
            walk.wf(),
            walk.remaining() == self.walk(0),
    {
        PreOrder::new(self)
    }

    /// The leaves of the subtree in the order in which a walk meets them,
    /// each with its depth.
    pub fn leaf_iter(&self) -> (leaves: Vec<Item<'_, T>>)
        ensures
            leaves@.len() == self.walk(0).filter(at_leaf()).len(),
            forall|k: int|
                0 <= k < leaves@.len() ==> {
                    &&& *(#[trigger] leaves@[k]).node == self.walk(0).filter(at_leaf())[k].node
                    &&& leaves@[k].level == capped(self.walk(0).filter(at_leaf())[k].level)
                },
    {
        let mut walk = PreOrder::new(self);
        let mut leaves: Vec<Item<'_, T>> = Vec::new();
        let ghost whole = self.walk(0);
        let ghost mut seen: Seq<Visit<T>> = Seq::empty();
        proof {
            assert(seen.filter(at_leaf()) =~= Seq::<Visit<T>>::empty()) by {
                reveal(Seq::filter);
            }
        }
        loop
            invariant
                walk.wf(),
                seen + walk.remaining() == whole,
                leaves@.len() == seen.filter(at_leaf()).len(),
                forall|k: int|
                    0 <= k < leaves@.len() ==> {
                        &&& *(#[trigger] leaves@[k]).node == seen.filter(at_leaf())[k].node
                        &&& leaves@[k].level == capped(seen.filter(at_leaf())[k].level)
                    },
            ensures
                seen == whole,
                leaves@.len() == seen.filter(at_leaf()).len(),
                forall|k: int|
                    0 <= k < leaves@.len() ==> {
                        &&& *(#[trigger] leaves@[k]).node == seen.filter(at_leaf())[k].node
                        &&& leaves@[k].level == capped(seen.filter(at_leaf())[k].level)
                    },
            decreases walk.remaining().len(),
        {
            let ghost left = walk.remaining();
            match walk.next() {
                None => {
                    proof {
                        assert(seen + left =~= seen);
                    }
                    break ;
                },
                Some(item) => {
                    proof {
                        let visit = left[0];
                        seen.lemma_filter_push(visit, at_leaf());
                        assert(seen.push(visit) + left.skip(1) =~= seen + left);
                        seen = seen.push(visit);
                    }
                    if item.node.is_leaf() {
                        leaves.push(item);
                    }
                },
            }
        }
        leaves
    }
}

impl<T> Tree<T> {
    /// A walk through the tree in depth-first pre-order.
    pub fn pre_order_iter(&self) -> (walk: PreOrder<'_, T>)
        ensures
            walk.wf(),
            walk.remaining() == self.root().walk(0),
    {
        self.get_root().pre_order_iter()
    }

    /// The leaves of the tree in the order in which a walk meets them, each
    /// with its depth.
    pub fn leaf_iter(&self) -> (leaves: Vec<Item<'_, T>>)
        ensures
            leaves@.len() == self.root().walk(0).filter(at_leaf()).len(),
            forall|k: int|
                0 <= k < leaves@.len() ==> {
                    &&& *(#[trigger] leaves@[k]).node == self.root().walk(0).filter(
                        at_leaf(),
                    )[k].node
                    &&& leaves@[k].level == capped(
                        self.root().walk(0).filter(at_leaf())[k].level,
                    )
                },
    {
        self.get_root().leaf_iter()
    }
}

} // verus!
