//! What holds of every tree in canonical arrangement, and of the
//! operations on it taken together.

use crate::canon::{lone_leaf, no_plain_pair, no_shared_pair, seq_carried};
use crate::marks::{erase, paint};
use crate::node::{Node, lemma_seq_at, lemma_seq_empty, seq_content};
use crate::style::{cut_into, set_done};
use crate::unstyle::unset_done;
use vstd::prelude::*;

verus! {

/// In a tree in canonical arrangement every node below the root heads a
/// subtree in canonical arrangement, and none of them is an inner node
/// without attributes.
pub proof fn law_no_bare_inner<T>(root: Node<T>, node: Node<T>)
    requires
        root.canonical(),
        root.above(node),
    ensures
        node.canonical(),
        !node.bare_inner(),
{
    law_all_of_use(root, node);
}

/// In a tree in canonical arrangement every node below the root covers
/// text: no leaf but the root is empty, and every inner node has children.
pub proof fn law_no_empty_node<T>(root: Node<T>, node: Node<T>)
    requires
        root.canonical(),
        root.above(node),
    ensures
        node.content().len() > 0,
        !node.leaf() ==> node.kids().len() > 0,
{
    law_all_of_use(root, node);
}

/// In a tree in canonical arrangement every node below the root is of use
/// and heads a subtree in canonical arrangement.
pub proof fn law_all_of_use<T>(root: Node<T>, node: Node<T>)
    requires
        root.canonical(),
        root.above(node),
    ensures
        node.canonical(),
        node.of_use(),
    decreases root,
{
    root.lemma_above(node);
    root.lemma_canonical();
    let i = choose|i: int|
        #![trigger root.kids()[i]]
        0 <= i < root.kids().len() && (root.kids()[i] == node || root.kids()[i].above(node));
    if root.kids()[i] != node {
        root.lemma_child_smaller(i);
        law_all_of_use(root.kids()[i], node);
    }
}

/// In a tree in canonical arrangement no two leaves without attributes
/// stand side by side, at the root or anywhere below it.
pub proof fn law_no_plain_pair<T>(root: Node<T>, node: Node<T>)
    requires
        root.canonical(),
        node == root || root.above(node),
    ensures
        no_plain_pair(node.kids()),
{
    if node != root {
        law_all_of_use(root, node);
    }
    node.lemma_canonical();
}

/// In a tree in canonical arrangement no two neighbours share an
/// attribute, at the root or anywhere below it: no attribute is left that
/// a run of two or more siblings could hand to a node above them.
pub proof fn law_no_shared_pair<T>(root: Node<T>, node: Node<T>)
    requires
        root.canonical(),
        node == root || root.above(node),
    ensures
        no_shared_pair(node.kids()),
{
    if node != root {
        law_all_of_use(root, node);
    }
    node.lemma_canonical();
}

/// In a tree in canonical arrangement no node has a leaf as its only
/// child, at the root or anywhere below it.
pub proof fn law_no_lone_leaf<T>(root: Node<T>, node: Node<T>)
    requires
        root.canonical(),
        node == root || root.above(node),
    ensures
        !lone_leaf(node.kids()),
{
    if node != root {
        law_all_of_use(root, node);
    }
    node.lemma_canonical();
}

/// What a node below another carries, the children of that other carry.
proof fn lemma_carried_below<T>(high: Node<T>, low: Node<T>)
    requires
        high.above(low),
    ensures
        low.carried().subset_of(seq_carried(high.kids())),
    decreases high,
{
    high.lemma_above(low);
    let i = choose|i: int|
        #![trigger high.kids()[i]]
        0 <= i < high.kids().len() && (high.kids()[i] == low || high.kids()[i].above(low));
    let kid = high.kids()[i];
    if kid != low {
        high.lemma_child_smaller(i);
        lemma_carried_below(kid, low);
        kid.lemma_carried();
        assert forall|a: T| low.carried().contains(a) implies kid.carried().contains(a) by {
            assert(seq_carried(kid.kids()).contains(a));
        }
    }
    assert forall|a: T| low.carried().contains(a) implies seq_carried(high.kids()).contains(a) by {
        assert(high.kids()[i].carried().contains(a));
    }
}

/// In a pure tree every node below the root heads a pure subtree.
proof fn lemma_pure_below<T>(root: Node<T>, node: Node<T>)
    requires
        root.pure(),
        root.above(node),
    ensures
        node.pure(),
    decreases root,
{
    root.lemma_above(node);
    root.lemma_pure();
    let i = choose|i: int|
        #![trigger root.kids()[i]]
        0 <= i < root.kids().len() && (root.kids()[i] == node || root.kids()[i].above(node));
    if root.kids()[i] != node {
        root.lemma_child_smaller(i);
        lemma_pure_below(root.kids()[i], node);
    }
}

/// In a pure tree no node carries an attribute that a node above it
/// carries: an attribute is attached once on the way from the root to a
/// leaf, and no more.
pub proof fn law_no_redundant_attribute<T>(root: Node<T>, high: Node<T>, low: Node<T>)
    requires
        root.pure(),
        high == root || root.above(high),
        high.above(low),
    ensures
        high.own().disjoint(low.own()),
{
    if high != root {
        lemma_pure_below(root, high);
    }
    high.lemma_pure();
    lemma_carried_below(high, low);
    low.lemma_carried();
    assert forall|a: T| low.own().contains(a) implies !high.own().contains(a) by {
        assert(low.carried().contains(a));
        assert(seq_carried(high.kids()).contains(a));
    }
}

/// In a pure tree in canonical arrangement no node has an only child with
/// the attributes that it carries itself: an only child is an inner node
/// with attributes of its own.
pub proof fn law_no_twin_child<T>(root: Node<T>, node: Node<T>)
    requires
        root.canonical(),
        root.pure(),
        node == root || root.above(node),
        node.kids().len() == 1,
    ensures
        !node.kids()[0].leaf(),
        node.kids()[0].own() != Set::<T>::empty(),
        node.kids()[0].own().disjoint(node.own()),
        node.kids()[0].own() != node.own(),
{
    if node != root {
        law_all_of_use(root, node);
        lemma_pure_below(root, node);
    }
    node.lemma_canonical();
    node.lemma_pure();
    let kid = node.kids()[0];
    assert(kid.of_use());
    kid.lemma_carried();
    assert forall|a: T| kid.own().contains(a) implies !node.own().contains(a) by {
        assert(kid.carried().contains(a));
        assert(seq_carried(node.kids()).contains(a));
    }
    if kid.own() == node.own() {
        assert(kid.own() =~= Set::<T>::empty());
    }
}

/// Setting an attribute on a range and unsetting it on the same range
/// gives the text back as it was, in canonical arrangement; within the
/// range no byte carries the attribute then, and every byte carries what
/// else it carried before.
pub proof fn law_set_then_unset<T>(
    first: Node<T>,
    second: Node<T>,
    third: Node<T>,
    start: int,
    end: int,
    attr: T,
)
    requires
        set_done(first, second, None, start, end, attr),
        unset_done(second, third, start, end, attr),
    ensures
        third.canonical(),
        third.content() == first.content(),
        third.marks() == erase(first.marks(), start, end, attr),
        forall|i: int|
            0 <= i < third.marks().len() && start <= i < end ==> !third.marks()[i].contains(attr),
{
    assert(erase(paint(first.marks(), start, end, attr), start, end, attr) =~= erase(
        first.marks(),
        start,
        end,
        attr,
    )) by {
        assert forall|i: int| 0 <= i < first.marks().len() implies erase(
            paint(first.marks(), start, end, attr),
            start,
            end,
            attr,
        )[i] == erase(first.marks(), start, end, attr)[i] by {
            if start <= i < end {
                assert(first.marks()[i].insert(attr).remove(attr) =~= first.marks()[i].remove(
                    attr,
                ));
            }
        }
    }
}

/// Setting an attribute on a range that is painted with it leaves the
/// tree as it is.
pub proof fn law_set_on_painted<T>(
    before: Node<T>,
    after: Node<T>,
    pieces: Option<Vec<Node<T>>>,
    start: int,
    end: int,
    attr: T,
)
    requires
        set_done(before, after, pieces, start, end, attr),
        before.painted(start, end, attr),
    ensures
        pieces is None,
        before.alike(after),
        after.content() == before.content(),
        after.marks() == before.marks(),
{
    before.lemma_alike_same(after);
}

/// A leaf on which an attribute has been set is painted with it on the
/// range: the leaf carries it, or the piece of it that the range covers
/// does.
pub proof fn law_set_paints_leaf<T>(
    before: Node<T>,
    after: Node<T>,
    start: int,
    end: int,
    attr: T,
)
    requires
        before.leaf(),
        0 <= start < end <= before.content().len(),
        set_done(before, after, None, start, end, attr),
    ensures
        after.painted(start, end, attr),
{
    after.lemma_painted(start, end, attr);
    if before.own().contains(attr) {
        assert(after.own().contains(attr));
    } else if start <= 0 && end >= before.content().len() {
        assert(after.own().contains(attr));
    } else {
        let kids = after.kids();
        let text = before.content();
        let at = if start > 0 {
            1int
        } else {
            0int
        };
        assert(cut_into(kids, text, start, end, attr));
        kids[at].lemma_own();
        assert(kids[at].own_order()[0] == attr);
        assert(kids[at].own().contains(attr));
        assert forall|i: int| 0 <= i < kids.len() implies (#[trigger] kids[i]).painted(
            start - seq_content(kids.take(i)).len(),
            end - seq_content(kids.take(i)).len(),
            attr,
        ) by {
            let off = seq_content(kids.take(i)).len() as int;
            kids[i].lemma_painted(start - off, end - off, attr);
            lemma_seq_empty::<T>();
            assert(kids.take(0) =~= Seq::<Node<T>>::empty());
            if i < at {
                assert(kids[0].content().len() == start);
            } else if i > at {
                lemma_seq_at(kids, at);
                if at == 1 {
                    lemma_seq_at(kids, 0);
                }
                assert(off == end);
            }
        }
    }
}

/// A node that the range covers is painted with an attribute once that has
/// been set on the range: the node carries it.
pub proof fn law_set_paints_whole<T>(
    before: Node<T>,
    after: Node<T>,
    start: int,
    end: int,
    attr: T,
)
    requires
        start <= 0,
        end >= before.content().len(),
        set_done(before, after, None, start, end, attr),
    ensures
        after.painted(start, end, attr),
{
    after.lemma_painted(start, end, attr);
}

/// Setting an attribute twice on a range of a leaf, or on a range that
/// covers the node, gives the tree that setting it once gives.
pub proof fn law_set_twice_is_once<T>(
    first: Node<T>,
    second: Node<T>,
    third: Node<T>,
    pieces: Option<Vec<Node<T>>>,
    start: int,
    end: int,
    attr: T,
)
    requires
        0 <= start < end <= first.content().len(),
        first.leaf() || (start == 0 && end == first.content().len()),
        set_done(first, second, None, start, end, attr),
        set_done(second, third, pieces, start, end, attr),
    ensures
        pieces is None,
        second.alike(third),
{
    if first.leaf() {
        law_set_paints_leaf(first, second, start, end, attr);
    } else {
        law_set_paints_whole(first, second, start, end, attr);
    }
}

/// Setting an attribute on a range twice gives the text and the attributes
/// of every byte that setting it once gives, in canonical arrangement.
pub proof fn law_set_twice<T>(
    first: Node<T>,
    second: Node<T>,
    third: Node<T>,
    start: int,
    end: int,
    attr: T,
)
    requires
        set_done(first, second, None, start, end, attr),
        set_done(second, third, None, start, end, attr),
    ensures
        third.canonical(),
        third.content() == second.content(),
        third.marks() == second.marks(),
{
    assert(paint(paint(first.marks(), start, end, attr), start, end, attr) =~= paint(
        first.marks(),
        start,
        end,
        attr,
    )) by {
        assert forall|i: int| 0 <= i < first.marks().len() implies paint(
            paint(first.marks(), start, end, attr),
            start,
            end,
            attr,
        )[i] == paint(first.marks(), start, end, attr)[i] by {
            if start <= i < end {
                assert(first.marks()[i].insert(attr).insert(attr) =~= first.marks()[i].insert(
                    attr,
                ));
            }
        }
    }
}

/// Unsetting an attribute that no node of a tree in canonical arrangement
/// carries leaves the tree as it is.
pub proof fn law_unset_absent<T>(before: Node<T>, after: Node<T>, start: int, end: int, attr: T)
    requires
        unset_done(before, after, start, end, attr),
        before.canonical(),
        before.absent(attr),
    ensures
        before.alike(after),
        after.content() == before.content(),
        after.marks() == before.marks(),
{
    before.lemma_alike_same(after);
}

} // verus!
