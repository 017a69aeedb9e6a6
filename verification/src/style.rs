//! Setting an attribute over a range of the text.

use crate::attrs::{AttrSet, decides_equality, share};
use crate::canon::{
    all_canonical, all_of_use, all_pure, lemma_carried_concat, lemma_carried_empty,
    lemma_carried_one, lemma_carried_part, lemma_carried_push, lemma_seq_alike_same, lone_leaf,
    seq_alike, seq_carried, settled, tidy,
};
use crate::change::{Change, Journal, grown};
use crate::marks::{
    lemma_paint_clamp, lemma_paint_concat, lemma_paint_same, lemma_paint_widen, paint,
};
use crate::node::{
    Node, begin, lemma_seq_concat, lemma_seq_empty, lemma_seq_marks_len, lemma_seq_one,
    lemma_seq_push, lemma_size_at, lower, seq_content, seq_marks, seq_size, upper, widen,
};
use crate::purge::{all_purged, erase_all, lemma_seq_alike_push, purge_all, purged};
use crate::settle::{crown, crowned, gains, installed, names, record_added, settle, settles, such};
use std::rc::Rc;
use vstd::prelude::*;

verus! {

broadcast use Node::lemma_parts;

/// `marks` with `attr` added to every byte.
pub open spec fn paint_all<T>(marks: Seq<Set<T>>, attr: T) -> Seq<Set<T>> {
    paint(marks, 0, marks.len() as int, attr)
}

/// Whether `after` is the node `before` with `attr` behind its own
/// attributes.
pub open spec fn endowed<T>(before: Node<T>, after: Node<T>, attr: T) -> bool {
    &&& after.kids() == before.kids()
    &&& after.fragment() == before.fragment()
    &&& after.ident() == before.ident()
    &&& after.at_root() == before.at_root()
    &&& after.own_order() == before.own_order().push(attr)
}

/// Whether `after` is the subtree `before` with `attr` set on all of it: a
/// node that carries the attribute stays as it is; another one takes it,
/// after every node below it has lost it.
pub open spec fn covered<T>(before: Node<T>, after: Node<T>, attr: T) -> bool {
    if before.own().contains(attr) {
        after == before
    } else if before.leaf() {
        endowed(before, after, attr)
    } else {
        exists|bare: Node<T>|
            {
                &&& #[trigger] such(bare)
                &&& purged(before, bare, attr)
                &&& endowed(bare, after, attr)
            }
    }
}

/// Whether `outs` is what stands for the siblings `list` with `attr` set on
/// all of them: one alone takes the attribute itself; two or more lose it
/// wherever they carry it, are brought into canonical arrangement and come
/// under one node that carries it.
#[verifier::opaque]
pub open spec fn all_covered<T>(list: Seq<Node<T>>, outs: Seq<Node<T>>, attr: T) -> bool {
    if list.len() == 0 {
        outs.len() == 0
    } else if list.len() == 1 {
        outs.len() == 1 && covered(list[0], outs[0], attr)
    } else {
        &&& outs.len() == 1
        &&& exists|bare: Seq<Node<T>>, kids: Seq<Node<T>>|
            {
                &&& #[trigger] such(bare) && #[trigger] such(kids)
                &&& all_purged(list, bare, attr)
                &&& settles(bare, kids)
                &&& crowned(outs[0], kids, attr)
            }
    }
}

impl<T: PartialEq> Node<T> {
    /// Attaches `info` to the node itself.
    pub fn add_info(&mut self, info: Rc<T>)
        requires
            decides_equality::<T>(),
        ensures
            final(self).own() == old(self).own().insert(*info),
            final(self).own_order() == if old(self).own().contains(*info) {
                old(self).own_order()
            } else {
                old(self).own_order().push(*info)
            },
            final(self).kids() == old(self).kids(),
            final(self).fragment() == old(self).fragment(),
            final(self).at_root() == old(self).at_root(),
            final(self).ident() == old(self).ident(),
            final(self).content() == old(self).content(),
            final(self).marks() == widen(old(self).marks(), set![*info]),
    {
        self.attrs.insert(info);
        proof {
            let a = *info;
            assert(old(self).own().union(set![a]) =~= self.own());
            self.lemma_restyled(*old(self), set![a]);
        }
    }

    /// Whether the node itself carries `info`.
    pub fn has_info(&self, info: &T) -> (b: bool)
        requires
            decides_equality::<T>(),
        ensures
            b == self.own().contains(*info),
    {
        self.attrs.contains(info)
    }

    /// Sets `attr` on all the text that the node covers: the node takes the
    /// attribute, and the nodes below it lose it.
    pub(crate) fn cover(&mut self, attr: Rc<T>, journal: &mut Journal)
        requires
            decides_equality::<T>(),
            old(self).canonical(),
        ensures
            grown(old(journal)@, final(journal)@),
            old(self).own().contains(*attr) ==> final(journal)@ == old(journal)@,
            final(self).carried().subset_of(old(self).carried().insert(*attr)),
            old(self).pure() ==> final(self).pure(),
            final(self).own().contains(*attr),
            old(self).own().subset_of(final(self).own()),
            final(self).canonical(),
            final(self).content() == old(self).content(),
            final(self).marks() == paint_all(old(self).marks(), *attr),
            final(self).at_root() == old(self).at_root(),
            final(self).ident() == old(self).ident(),
            old(self).own().contains(*attr) ==> *final(self) == *old(self),
            covered(*old(self), *final(self), *attr),
    {
        if self.attrs.contains(&attr) {
            proof {
                assert forall|i: int| 0 <= i < self.marks().len() implies self.marks()[i].contains(
                    *attr,
                ) by {
                    self.lemma_marks_hold_own(i);
                }
                let a = *attr;
                lemma_paint_same(self.marks(), 0, self.marks().len() as int, a);
            }
        } else {
            if self.children.len() > 0 {
                self.purge(&attr, journal);
            }
            let ghost before = *self;
            self.attrs.insert(attr);
            journal.attributes_changed(&self.id);
            proof {
                assert(such(before));
                before.lemma_carried();
                old(self).lemma_carried();
                let a = *attr;
                if old(self).leaf() {
                    assert(before == *old(self));
                } else {
                    assert(before.carried().subset_of(old(self).carried().remove(a)));
                    assert(before.own().contains(a) ==> before.carried().contains(a));
                }
                assert(!before.own().contains(a));
                assert(endowed(before, *self, a));
                assert(before.own().union(set![a]) =~= self.own());
                self.lemma_restyled(before, set![a]);
                before.lemma_recarried(*self);
                if old(self).leaf() {
                    lemma_carried_empty::<T>();
                    assert(self.kids() =~= Seq::<Node<T>>::empty());
                }
                assert(self.carried() =~= before.carried().insert(a));
                assert(!seq_carried(before.kids()).contains(a)) by {
                    if !old(self).leaf() {
                        assert(!before.carried().contains(a));
                    }
                }
                if old(self).pure() {
                    assert(before.pure());
                    assert(seq_carried(self.kids()).disjoint(self.own()));
                }
                if old(self).leaf() {
                    old(self).lemma_marks();
                    self.lemma_marks();
                    assert(self.marks() =~= paint_all(old(self).marks(), *attr));
                } else {
                    assert(widen(erase_all(old(self).marks(), *attr), set![*attr]) =~= paint_all(
                        old(self).marks(),
                        *attr,
                    )) by {
                        assert forall|i: int| 0 <= i < old(self).marks().len() implies widen(
                            erase_all(old(self).marks(), *attr),
                            set![*attr],
                        )[i] == paint_all(old(self).marks(), *attr)[i] by {
                            assert(old(self).marks()[i].remove(*attr).union(set![*attr])
                                =~= old(self).marks()[i].insert(*attr));
                        }
                    }
                }
            }
        }
    }
}

/// Whether `list` holds what a leaf with the text `text` is cut into for
/// the range from `start` up to `end`: new leaves for what stands before
/// the range, if anything, for the range itself, and for what stands behind
/// it, if anything. The leaf for the range carries `attr`, the others
/// nothing.
pub open spec fn cut_into<T>(
    list: Seq<Node<T>>,
    text: Seq<u8>,
    start: int,
    end: int,
    attr: T,
) -> bool {
    let at = if start > 0 {
        1int
    } else {
        0int
    };
    &&& list.len() == at + 1 + (if end < text.len() {
        1int
    } else {
        0int
    })
    &&& forall|i: int| 0 <= i < list.len() ==> (#[trigger] list[i]).leaf() && !list[i].at_root()
    &&& list[at].content() == text.subrange(start, end)
    &&& list[at].own_order() == seq![attr]
    &&& start > 0 ==> list[0].content() == text.take(start) && list[0].own_order()
        == Seq::<T>::empty()
    &&& end < text.len() ==> list[at + 1].content() == text.skip(end) && list[at
        + 1].own_order() == Seq::<T>::empty()
}

/// Cuts a leaf's text into the stretch from `start` up to `end`, which
/// carries `attr`, and what stands before and behind it, which carries
/// nothing.
fn split_leaf<T: PartialEq>(
    text: Vec<u8>,
    start: usize,
    end: usize,
    attr: Rc<T>,
) -> (pieces: Vec<Node<T>>)
    requires
        decides_equality::<T>(),
        start < end <= text@.len(),
        start > 0 || end < text@.len(),
    ensures
        settled(pieces@),
        !lone_leaf(pieces@),
        2 <= pieces@.len() <= 3,
        seq_content(pieces@) == text@,
        seq_marks(pieces@) == paint(
            Seq::new(text@.len(), |i: int| Set::<T>::empty()),
            start as int,
            end as int,
            *attr,
        ),
        cut_into(pieces@, text@, start as int, end as int, *attr),
        seq_carried(pieces@).subset_of(set![*attr]),
        all_pure(pieces@),
{
    let ghost whole = text@;
    let mut text = text;
    let total = text.len();
    let right = text.split_off(end);
    let mid = text.split_off(start);
    let mut pieces: Vec<Node<T>> = Vec::new();
    proof {
        lemma_seq_empty::<T>();
        lemma_carried_empty::<T>();
    }
    if start > 0 {
        let left = Node::leaf_with(text, AttrSet::new());
        proof {
            lemma_seq_push(pieces@, left);
            left.lemma_content();
            left.lemma_marks();
            left.lemma_canonical();
            left.lemma_carried();
            left.lemma_pure();
            lemma_carried_push(pieces@, left);
            assert(left.kids() =~= Seq::<Node<T>>::empty());
        }
        pieces.push(left);
    }
    let mut attrs = AttrSet::new();
    attrs.insert(attr);
    let middle = Node::leaf_with(mid, attrs);
    proof {
        lemma_seq_push(pieces@, middle);
        middle.lemma_content();
        middle.lemma_marks();
        middle.lemma_canonical();
        middle.lemma_carried();
        middle.lemma_pure();
        lemma_carried_push(pieces@, middle);
        assert(middle.kids() =~= Seq::<Node<T>>::empty());
        assert(middle.own() =~= set![*attr]);
    }
    pieces.push(middle);
    if end < total {
        let last = Node::leaf_with(right, AttrSet::new());
        proof {
            lemma_seq_push(pieces@, last);
            last.lemma_content();
            last.lemma_marks();
            last.lemma_canonical();
            last.lemma_carried();
            last.lemma_pure();
            lemma_carried_push(pieces@, last);
            assert(last.kids() =~= Seq::<Node<T>>::empty());
        }
        pieces.push(last);
    }
    proof {
        assert(seq_content(pieces@) =~= whole);
        assert(seq_marks(pieces@) =~= paint(
            Seq::new(whole.len(), |i: int| Set::<T>::empty()),
            start as int,
            end as int,
            *attr,
        ));
        let at = if start > 0 {
            1int
        } else {
            0int
        };
        assert(pieces@[at] == middle);
        assert(middle.own_order() =~= seq![*attr]);
        assert(middle.content() =~= whole.subrange(start as int, end as int));
        if start > 0 {
            assert(pieces@[0].content() =~= whole.take(start as int));
        }
        if end < total {
            assert(pieces@[at + 1].content() =~= whole.skip(end as int));
        }
    }
    pieces
}

/// Whether the range from `start` up to `end` covers all of the `at`-th of
/// the siblings `kids`.
pub open spec fn enclosed<T>(kids: Seq<Node<T>>, at: int, start: int, end: int) -> bool {
    &&& 0 <= at < kids.len()
    &&& kids[at].content().len() > 0
    &&& start <= begin(kids, at)
    &&& begin(kids, at) + kids[at].content().len() <= end
}

/// Whether the siblings from `from` up to `till` are all that the range
/// covers as a whole from `from` on.
pub open spec fn run_upto<T>(
    kids: Seq<Node<T>>,
    from: int,
    till: int,
    start: int,
    end: int,
) -> bool {
    &&& 0 <= from < till <= kids.len()
    &&& forall|k: int| from <= k < till ==> enclosed(kids, k, start, end)
    &&& !enclosed(kids, till, start, end)
}

/// The pieces, where there are any, as a list of nodes.
pub open spec fn seq_of<T>(pieces: Option<Vec<Node<T>>>) -> Option<Seq<Node<T>>> {
    match pieces {
        Some(list) => Some(list@),
        None => None,
    }
}

/// Whether setting `attr` on the range from `start` up to `end` makes
/// `after`, and the list `pieces` where there is one, of the subtree
/// `before`. A node that carries the attribute stays as it is. One that the
/// range covers is covered with the attribute. A leaf is cut into new
/// leaves: they become its children where it is the root or carries
/// attributes, and are the pieces otherwise, with what is left of the leaf,
/// without text, as `after`. The children of an inner node are laid out
/// anew, brought into canonical arrangement and made its children again.
pub open spec fn styled<T>(
    before: Node<T>,
    after: Node<T>,
    pieces: Option<Seq<Node<T>>>,
    start: int,
    end: int,
    attr: T,
) -> bool
    decreases before.size(), 0nat,
{
    if before.own().contains(attr) {
        pieces is None && after == before
    } else if start <= 0 && end >= before.content().len() {
        pieces is None && covered(before, after, attr)
    } else if before.leaf() {
        &&& after.ident() == before.ident()
        &&& after.at_root() == before.at_root()
        &&& after.own_order() == before.own_order()
        &&& after.fragment() == Seq::<u8>::empty()
        &&& if before.at_root() || before.own_order().len() > 0 {
            pieces is None && cut_into(after.kids(), before.content(), start, end, attr)
        } else {
            &&& after.leaf()
            &&& pieces is Some
            &&& cut_into(pieces->0, before.content(), start, end, attr)
        }
    } else {
        &&& pieces is None
        &&& seq_size(before.kids()) < before.size()
        &&& exists|parts: Seq<Seq<Node<T>>>|
            {
                &&& #[trigger] such(parts)
                &&& laid(before.kids(), parts, start, end, attr)
                &&& installed(before, parts.flatten(), after)
            }
    }
}

/// Whether `after` is the node `before` with `attr` set on the range from
/// `start` up to `end` of it, as `styled` says, and with the pieces, where
/// there are any, for its children.
pub open spec fn set_anew<T>(
    before: Node<T>,
    after: Node<T>,
    start: int,
    end: int,
    attr: T,
) -> bool {
    exists|mid: Node<T>, pieces: Option<Seq<Node<T>>>|
        {
            &&& #[trigger] such(mid) && #[trigger] such(pieces)
            &&& styled(before, mid, pieces, start, end, attr)
            &&& match pieces {
                None => after == mid,
                Some(list) => {
                    &&& after.kids() == list
                    &&& after.fragment() == mid.fragment()
                    &&& after.ident() == mid.ident()
                    &&& after.at_root() == mid.at_root()
                    &&& after.own_order() == mid.own_order()
                },
            }
        }
}

/// Whether `outs` is what stands for the node `before` among its siblings
/// when `attr` is set on the range from `start` up to `end` of it: the
/// pieces where there are any, and else the node itself.
#[verifier::opaque]
pub open spec fn placed<T>(
    before: Node<T>,
    outs: Seq<Node<T>>,
    start: int,
    end: int,
    attr: T,
) -> bool
    decreases before.size(), 1nat,
{
    exists|after: Node<T>, pieces: Option<Seq<Node<T>>>|
        {
            &&& #[trigger] such(after) && #[trigger] such(pieces)
            &&& styled(before, after, pieces, start, end, attr)
            &&& outs == match pieces {
                Some(list) => list,
                None => seq![after],
            }
        }
}

/// Whether `outs` is what stands for the `at`-th of the siblings `kids`
/// when `attr` is set on the range from `start` up to `end` of the text
/// that they cover together. A run of two or more siblings that the range
/// covers as a whole is covered together, and what stands for them stands
/// in the place of the first. Any other sibling has the attribute set on
/// the part of the range that falls on it, and stays as it is where none
/// does.
pub open spec fn part<T>(
    kids: Seq<Node<T>>,
    at: int,
    outs: Seq<Node<T>>,
    start: int,
    end: int,
    attr: T,
) -> bool
    decreases seq_size(kids), 2nat,
{
    let lo = lower(kids, at, start);
    let hi = upper(kids, at, end);
    if enclosed(kids, at, start, end) && enclosed(kids, at - 1, start, end) {
        outs.len() == 0
    } else if enclosed(kids, at, start, end) && enclosed(kids, at + 1, start, end) {
        exists|till: int|
            {
                &&& #[trigger] run_upto(kids, at, till, start, end)
                &&& all_covered(kids.subrange(at, till), outs, attr)
            }
    } else if lo < hi {
        kids[at].size() <= seq_size(kids) && placed(kids[at], outs, lo, hi, attr)
    } else {
        outs == seq![kids[at]]
    }
}

/// Whether `parts` holds, for each of the siblings `kids`, what stands for
/// it when `attr` is set on the range from `start` up to `end` of the text
/// that they cover together.
pub open spec fn laid<T>(
    kids: Seq<Node<T>>,
    parts: Seq<Seq<Node<T>>>,
    start: int,
    end: int,
    attr: T,
) -> bool
    decreases seq_size(kids), 3nat,
{
    &&& parts.len() == kids.len()
    &&& forall|at: int|
        0 <= at < kids.len() ==> part(kids, at, #[trigger] parts[at], start, end, attr)
}

/// The changes that setting an attribute on a range of the leaf `before`,
/// which does not carry it, makes: the leaf's attributes change where the
/// range covers it, and it gets children where it is cut and keeps the
/// pieces.
pub open spec fn leaf_changes<T>(
    before: Node<T>,
    after: Node<T>,
    start: int,
    end: int,
) -> Seq<Change> {
    if start <= 0 && end >= before.content().len() {
        seq![Change::AttributesChanged { node: before.ident() }]
    } else {
        gains(before.ident(), after.kids().len())
    }
}

/// What `Node::set` leaves behind: the subtree with the attribute set on
/// the range, arranged as `styled` says, which has what `set_holds` says.
pub open spec fn set_done<T>(
    before: Node<T>,
    after: Node<T>,
    pieces: Option<Vec<Node<T>>>,
    start: int,
    end: int,
    attr: T,
) -> bool {
    &&& styled(before, after, seq_of(pieces), start, end, attr)
    &&& set_holds(before, after, pieces, start, end, attr)
}

/// What holds of a subtree on which an attribute was set. Without a list
/// of pieces, `after` is the node with the attribute set on the range, in
/// canonical arrangement, and the same tree as before where that was
/// painted with the attribute on the range already. A node that the range
/// covers carries the attribute itself afterwards. With a list of pieces,
/// the node was a leaf without attributes, and no root; the pieces cover
/// its text with the attribute set on the range, in canonical arrangement.
pub open spec fn set_holds<T>(
    before: Node<T>,
    after: Node<T>,
    pieces: Option<Vec<Node<T>>>,
    start: int,
    end: int,
    attr: T,
) -> bool {
    match pieces {
        None => {
            &&& after.canonical()
            &&& after.content() == before.content()
            &&& after.marks() == paint(before.marks(), start, end, attr)
            &&& after.at_root() == before.at_root()
            &&& after.ident() == before.ident()
            &&& before.painted(start, end, attr) ==> before.alike(after)
            &&& after.carried().subset_of(before.carried().insert(attr))
            &&& before.pure() ==> after.pure()
            &&& before.own().subset_of(after.own())
            &&& start <= 0 && end >= before.content().len() ==> after.own().contains(attr)
        },
        Some(list) => {
            &&& before.plain_leaf()
            &&& !before.painted(start, end, attr)
            &&& seq_carried(list@).subset_of(set![attr])
            &&& all_pure(list@)
            &&& !before.at_root()
            &&& !(start == 0 && end == before.content().len())
            &&& after.plain_leaf()
            &&& after.content() == Seq::<u8>::empty()
            &&& settled(list@)
            &&& 2 <= list@.len() <= 3
            &&& seq_content(list@) == before.content()
            &&& seq_marks(list@) == paint(before.marks(), start, end, attr)
        },
    }
}

/// Painting a list of siblings whose last stretch lies within the range
/// paints all of that stretch.
proof fn lemma_paint_stretch<T>(
    head: Seq<Node<T>>,
    mid: Seq<Node<T>>,
    start: int,
    end: int,
    attr: T,
)
    requires
        mid.len() > 0 ==> start <= seq_content(head).len() && seq_content(head).len()
            + seq_content(mid).len() <= end,
    ensures
        paint(seq_marks(head + mid), start, end, attr) == paint(
            seq_marks(head),
            start,
            end,
            attr,
        ) + paint_all(seq_marks(mid), attr),
        seq_content(head + mid) == seq_content(head) + seq_content(mid),
{
    lemma_seq_concat(head, mid);
    lemma_seq_marks_len(head);
    lemma_seq_marks_len(mid);
    lemma_paint_concat(seq_marks(head), seq_marks(mid), start, end, attr);
    if mid.len() > 0 {
        lemma_paint_clamp(
            seq_marks(mid),
            start - seq_marks(head).len(),
            end - seq_marks(head).len(),
            0,
            seq_marks(mid).len() as int,
            attr,
        );
    } else {
        lemma_seq_empty::<T>();
        assert(mid =~= Seq::<Node<T>>::empty());
        assert(paint(
            seq_marks(mid),
            start - seq_marks(head).len(),
            end - seq_marks(head).len(),
            attr,
        ) =~= paint_all(seq_marks(mid), attr));
    }
}

/// Painting a list of siblings paints the last of them over the part of
/// the range that falls on it.
proof fn lemma_paint_last<T>(
    head: Seq<Node<T>>,
    kid: Node<T>,
    start: int,
    end: int,
    lo: int,
    hi: int,
    attr: T,
)
    requires
        lo == (if start > seq_content(head).len() {
            start - seq_content(head).len()
        } else {
            0
        }),
        hi == (if end < seq_content(head).len() + kid.content().len() {
            end - seq_content(head).len()
        } else {
            kid.content().len() as int
        }),
    ensures
        paint(seq_marks(head.push(kid)), start, end, attr) == paint(
            seq_marks(head),
            start,
            end,
            attr,
        ) + paint(kid.marks(), lo, hi, attr),
        lo >= hi ==> paint(kid.marks(), lo, hi, attr) == kid.marks(),
        seq_content(head.push(kid)) == seq_content(head) + kid.content(),
{
    lemma_seq_push(head, kid);
    lemma_seq_marks_len(head);
    kid.lemma_marks_len();
    lemma_paint_concat(seq_marks(head), kid.marks(), start, end, attr);
    lemma_paint_clamp(
        kid.marks(),
        start - seq_marks(head).len(),
        end - seq_marks(head).len(),
        lo,
        hi,
        attr,
    );
    if lo >= hi {
        lemma_paint_same(kid.marks(), lo, hi, attr);
    }
}

/// Whether `parts` holds what stands for each of the first `upto` of the
/// siblings `kids`.
#[verifier::opaque]
spec fn laid_upto<T>(
    kids: Seq<Node<T>>,
    parts: Seq<Seq<Node<T>>>,
    upto: int,
    start: int,
    end: int,
    attr: T,
) -> bool {
    &&& parts.len() == upto
    &&& forall|at: int| 0 <= at < upto ==> part(kids, at, #[trigger] parts[at], start, end, attr)
}

/// As many lists without nodes as `count` says.
spec fn blanks<T>(count: nat) -> Seq<Seq<Node<T>>> {
    Seq::new(count, |k: int| Seq::<Node<T>>::empty())
}

/// Lists without nodes add nothing to what the lists before them hold.
proof fn lemma_blanks<T>(parts: Seq<Seq<Node<T>>>, count: nat)
    ensures
        (parts + blanks::<T>(count)).flatten() == parts.flatten(),
    decreases count,
{
    if count == 0 {
        assert(parts + blanks::<T>(count) =~= parts);
    } else {
        let less = (count - 1) as nat;
        lemma_blanks(parts, less);
        assert(parts + blanks::<T>(count) =~= (parts + blanks::<T>(less)).push(
            Seq::<Node<T>>::empty(),
        ));
        (parts + blanks::<T>(less)).lemma_flatten_push(Seq::<Node<T>>::empty());
    }
}

/// What stands for the siblings up to `at`, when those from `done` on are
/// a run that the range covers and `outs` stands for the run.
proof fn lemma_flushed<T>(
    whole: Seq<Node<T>>,
    parts: Seq<Seq<Node<T>>>,
    outs: Seq<Node<T>>,
    done: int,
    at: int,
    start: int,
    end: int,
    attr: T,
) -> (next: Seq<Seq<Node<T>>>)
    requires
        0 <= done <= at <= whole.len(),
        laid_upto(whole, parts, done, start, end, attr),
        forall|k: int| done <= k < at ==> enclosed(whole, k, start, end),
        !enclosed(whole, done - 1, start, end),
        !enclosed(whole, at, start, end),
        all_covered(whole.subrange(done, at), outs, attr),
    ensures
        laid_upto(whole, next, at, start, end, attr),
        next.flatten() == parts.flatten() + outs,
{
    reveal(laid_upto);
    reveal(all_covered);
    reveal(placed);
    let count = at - done;
    if count == 0 {
        assert(parts.flatten() + outs =~= parts.flatten());
        parts
    } else {
        let first = parts.push(outs);
        let next = first + blanks::<T>((count - 1) as nat);
        lemma_blanks(first, (count - 1) as nat);
        parts.lemma_flatten_push(outs);
        lemma_size_at(whole, done);
        let kid = whole[done];
        assert(whole.subrange(done, at)[0] == kid);
        assert(enclosed(whole, done, start, end));
        if count == 1 {
            assert(covered(kid, outs[0], attr));
            assert(styled(kid, outs[0], None, 0, kid.content().len() as int, attr));
            assert(such(outs[0]) && such(None::<Seq<Node<T>>>));
            assert(outs =~= seq![outs[0]]);
            assert(placed(kid, outs, 0, kid.content().len() as int, attr));
            assert(part(whole, done, outs, start, end, attr));
        } else {
            assert(enclosed(whole, done + 1, start, end));
            assert(run_upto(whole, done, at, start, end));
            assert(part(whole, done, outs, start, end, attr));
        }
        assert forall|j: int| 0 <= j < at implies part(
            whole,
            j,
            #[trigger] next[j],
            start,
            end,
            attr,
        ) by {
            if j < done {
                assert(next[j] == parts[j]);
            } else if j == done {
                assert(next[j] == outs);
            } else {
                assert(next[j] == Seq::<Node<T>>::empty());
                assert(enclosed(whole, j, start, end));
                assert(enclosed(whole, j - 1, start, end));
            }
        }
        next
    }
}

/// What stands for the siblings up to and with the `at`-th, which the
/// range does not cover as a whole and for which `outs` stands.
proof fn lemma_stepped<T>(
    whole: Seq<Node<T>>,
    parts: Seq<Seq<Node<T>>>,
    outs: Seq<Node<T>>,
    at: int,
    start: int,
    end: int,
    lo: int,
    hi: int,
    attr: T,
)
    requires
        0 <= at < whole.len(),
        laid_upto(whole, parts, at, start, end, attr),
        !enclosed(whole, at, start, end),
        lo == lower(whole, at, start),
        hi == upper(whole, at, end),
        lo < hi ==> placed(whole[at], outs, lo, hi, attr),
        lo >= hi ==> outs == seq![whole[at]],
    ensures
        laid_upto(whole, parts.push(outs), at + 1, start, end, attr),
        parts.push(outs).flatten() == parts.flatten() + outs,
{
    reveal(laid_upto);
    reveal(placed);
    parts.lemma_flatten_push(outs);
    lemma_size_at(whole, at);
    assert(part(whole, at, outs, start, end, attr));
    assert forall|j: int| 0 <= j < at + 1 implies part(
        whole,
        j,
        #[trigger] parts.push(outs)[j],
        start,
        end,
        attr,
    ) by {
        if j < at {
            assert(parts.push(outs)[j] == parts[j]);
        }
    }
}

/// All of the siblings are laid out where each of them is.
proof fn lemma_laid<T>(
    whole: Seq<Node<T>>,
    parts: Seq<Seq<Node<T>>>,
    start: int,
    end: int,
    attr: T,
)
    requires
        laid_upto(whole, parts, whole.len() as int, start, end, attr),
    ensures
        laid(whole, parts, start, end, attr),
{
    reveal(laid_upto);
}

/// Appends to `out` the siblings of `pending`, all of which lie within the
/// range, with `attr` set on them: one alone takes the attribute itself,
/// two or more come under a new node that carries it.
fn flush<T: PartialEq>(
    out: &mut Vec<Node<T>>,
    pending: Vec<Node<T>>,
    attr: &Rc<T>,
    journal: &mut Journal,
)
    requires
        decides_equality::<T>(),
        all_canonical(old(out)@),
        all_canonical(pending@),
    ensures
        grown(old(journal)@, final(journal)@),
        pending@.len() == 0 ==> final(journal)@ == old(journal)@,
        pending@.len() == 1 && pending@[0].own().contains(**attr) ==> final(journal)@ == old(
            journal,
        )@,
        seq_carried(final(out)@).subset_of(
            seq_carried(old(out)@).union(seq_carried(pending@).insert(**attr)),
        ),
        all_pure(old(out)@) && all_pure(pending@) ==> all_pure(final(out)@),
        all_canonical(final(out)@),
        seq_content(final(out)@) == seq_content(old(out)@) + seq_content(pending@),
        seq_marks(final(out)@) == seq_marks(old(out)@) + paint_all(seq_marks(pending@), **attr),
        pending@.len() == 0 ==> final(out)@ == old(out)@,
        pending@.len() == 1 && pending@[0].own().contains(**attr) ==> final(out)@ == old(
            out,
        )@.push(pending@[0]),
        final(out)@.len() >= old(out)@.len(),
        final(out)@.take(old(out)@.len() as int) == old(out)@,
        all_covered(pending@, final(out)@.skip(old(out)@.len() as int), **attr),
{
    let mut pending = pending;
    let ghost given = pending@;
    proof {
        reveal(all_covered);
    }
    if pending.len() == 0 {
        proof {
            lemma_seq_empty::<T>();
            lemma_carried_empty::<T>();
            assert(given =~= Seq::<Node<T>>::empty());
            assert(paint_all(Seq::<Set<T>>::empty(), **attr) =~= Seq::<Set<T>>::empty());
            assert(seq_content(out@) + Seq::<u8>::empty() =~= seq_content(out@));
            assert(seq_marks(out@) + Seq::<Set<T>>::empty() =~= seq_marks(out@));
            assert(out@.take(out@.len() as int) =~= out@);
        }
    } else if pending.len() == 1 {
        let mut only = pending.pop().unwrap();
        proof {
            assert(given =~= seq![only]);
            lemma_seq_one(only);
            lemma_carried_one(only);
        }
        only.cover(share(attr), journal);
        proof {
            lemma_seq_push(out@, only);
            lemma_carried_push(out@, only);
        }
        out.push(only);
        proof {
            assert(out@.take(old(out)@.len() as int) =~= old(out)@);
            assert(out@.skip(old(out)@.len() as int) =~= seq![only]);
        }
    } else {
        let bare = purge_all(pending, &**attr, journal);
        let ghost stripped = bare@;
        let kids = settle(bare, journal);
        let ghost settled_kids = kids@;
        let made = crown(kids, share(attr), journal);
        proof {
            lemma_seq_push(out@, made);
            lemma_carried_push(out@, made);
            let below = seq_marks(given);
            assert(widen(erase_all(below, **attr), set![**attr]) =~= paint_all(below, **attr)) by {
                assert forall|i: int| 0 <= i < below.len() implies widen(
                    erase_all(below, **attr),
                    set![**attr],
                )[i] == paint_all(below, **attr)[i] by {
                    assert(below[i].remove(**attr).union(set![**attr]) =~= below[i].insert(
                        **attr,
                    ));
                }
            }
        }
        out.push(made);
        proof {
            assert(such(stripped) && such(settled_kids));
            assert(out@.take(old(out)@.len() as int) =~= old(out)@);
            assert(out@.skip(old(out)@.len() as int) =~= seq![made]);
        }
    }
}

/// Whether each of the siblings `kids` is painted with `attr` on the part
/// of the range that falls on it.
pub open spec fn all_painted<T>(kids: Seq<Node<T>>, start: int, end: int, attr: T) -> bool {
    forall|i: int|
        0 <= i < kids.len() ==> (#[trigger] kids[i]).painted(
            start - begin(kids, i),
            end - begin(kids, i),
            attr,
        )
}

/// Finds the siblings that the range covers as a whole: the place of the
/// first of them, the place behind the last of them, and where in the text
/// that they cover together the run ends. They stand side by side.
fn enclosed_run<T>(kids: &Vec<Node<T>>, start: usize, end: usize) -> (run: (usize, usize, usize))
    requires
        seq_content(kids@).len() <= usize::MAX,
        start < end,
        all_of_use(kids@),
    ensures
        run.0 <= run.1 <= kids@.len(),
        run.2 == begin(kids@, run.1 as int),
        forall|k: int|
            0 <= k < kids@.len() ==> (#[trigger] enclosed(kids@, k, start as int, end as int)
                <==> run.0 <= k < run.1),
{
    let mut from: usize = 0;
    let mut till: usize = 0;
    let mut base: usize = 0;
    let mut offset: usize = 0;
    let mut i: usize = 0;
    proof {
        lemma_seq_empty::<T>();
        assert(kids@.take(0) =~= Seq::<Node<T>>::empty());
    }
    while i < kids.len()
        invariant
            i <= kids@.len(),
            seq_content(kids@).len() <= usize::MAX,
            all_of_use(kids@),
            offset == begin(kids@, i as int),
            from <= till <= i,
            base == begin(kids@, till as int),
            forall|k: int|
                0 <= k < i ==> (#[trigger] enclosed(kids@, k, start as int, end as int) <==> from
                    <= k < till),
            from < till ==> start <= offset,
            from < till && till < i ==> offset > end,
        decreases kids@.len() - i,
    {
        proof {
            assert(kids@.take(i + 1) =~= kids@.take(i as int).push(kids@[i as int]));
            lemma_seq_push(kids@.take(i as int), kids@[i as int]);
            assert(kids@ =~= kids@.take(i + 1) + kids@.skip(i + 1));
            lemma_seq_concat(kids@.take(i + 1), kids@.skip(i + 1));
            assert(kids@[i as int].of_use());
        }
        let length = kids[i].length();
        if start <= offset && offset + length <= end {
            if from == till {
                from = i;
            }
            till = i + 1;
            base = offset + length;
        }
        offset = offset + length;
        i = i + 1;
    }
    (from, till, base)
}

/// What holds of the run of siblings that the range covers as a whole:
/// painting the range paints all of the run, and where every sibling is
/// painted on its part of the range already, the run is at most one node,
/// which carries the attribute itself.
proof fn lemma_run<T>(whole: Seq<Node<T>>, from: int, till: int, start: int, end: int, attr: T)
    requires
        0 <= from <= till <= whole.len(),
        tidy(whole),
        forall|k: int|
            0 <= k < whole.len() ==> (#[trigger] enclosed(whole, k, start, end) <==> from <= k
                < till),
    ensures
        paint(seq_marks(whole.take(till)), start, end, attr) == paint(
            seq_marks(whole.take(from)),
            start,
            end,
            attr,
        ) + paint_all(seq_marks(whole.subrange(from, till)), attr),
        seq_content(whole.take(till)) == seq_content(whole.take(from)) + seq_content(
            whole.subrange(from, till),
        ),
        all_painted(whole, start, end, attr) ==> till - from <= 1,
        all_painted(whole, start, end, attr) && till - from == 1 ==> whole[from].own().contains(
            attr,
        ),
{
    let head = whole.take(from);
    let run = whole.subrange(from, till);
    assert(whole.take(till) =~= head + run);
    lemma_seq_concat(head, run);
    if from < till {
        assert(enclosed(whole, from, start, end));
        assert(enclosed(whole, till - 1, start, end));
        assert(whole.take(till) =~= whole.take(till - 1).push(whole[till - 1]));
        lemma_seq_push(whole.take(till - 1), whole[till - 1]);
    }
    if from < till {
        assert(start <= seq_content(head).len());
        assert(begin(whole, till) <= end);
        assert(seq_content(head).len() + seq_content(run).len() == begin(whole, till));
    }
    lemma_paint_stretch(head, run, start, end, attr);
    if all_painted(whole, start, end, attr) {
        assert forall|k: int| from <= k < till implies (#[trigger] whole[k]).own().contains(
            attr,
        ) by {
            assert(enclosed(whole, k, start, end));
            let kid = whole[k];
            kid.lemma_painted_clamp(
                start - begin(whole, k),
                end - begin(whole, k),
                0,
                kid.content().len() as int,
                attr,
            );
            kid.lemma_painted(0, kid.content().len() as int, attr);
        }
        if till - from >= 2 {
            assert(whole[from].own().contains(attr));
            assert(whole[from + 1].own().contains(attr));
            assert(whole[from].own().disjoint(whole[from + 1].own()));
        }
    }
}

/// Sets `attr` on each of the siblings `list`, none of which the range
/// covers as a whole, as far as the range falls on it, and appends what
/// stands for them to `out`. The siblings are those of `whole` from the
/// place `first` on, where the text begins at `base`; `out` holds what
/// stands for the siblings before them, as `parts` says one by one.
fn lay_each<T: PartialEq>(
    out: &mut Vec<Node<T>>,
    list: Vec<Node<T>>,
    base: usize,
    start: usize,
    end: usize,
    attr: &Rc<T>,
    journal: &mut Journal,
    Ghost(whole): Ghost<Seq<Node<T>>>,
    Ghost(first): Ghost<int>,
    Ghost(parts): Ghost<Seq<Seq<Node<T>>>>,
) -> (next: Ghost<Seq<Seq<Node<T>>>>)
    requires
        decides_equality::<T>(),
        0 <= first,
        first + list@.len() <= whole.len(),
        list@ == whole.subrange(first, first + list@.len()),
        all_canonical(whole),
        all_canonical(old(out)@),
        start < end,
        base == begin(whole, first),
        seq_content(whole).len() <= usize::MAX,
        forall|k: int|
            first <= k < first + list@.len() ==> !enclosed(whole, k, start as int, end as int),
        seq_content(old(out)@) == seq_content(whole.take(first)),
        seq_marks(old(out)@) == paint(
            seq_marks(whole.take(first)),
            start as int,
            end as int,
            **attr,
        ),
        laid_upto(whole, parts, first, start as int, end as int, **attr),
        old(out)@ == parts.flatten(),
    ensures
        all_canonical(final(out)@),
        seq_content(final(out)@) == seq_content(whole.take(first + list@.len())),
        seq_marks(final(out)@) == paint(
            seq_marks(whole.take(first + list@.len())),
            start as int,
            end as int,
            **attr,
        ),
        laid_upto(whole, next@, first + list@.len(), start as int, end as int, **attr),
        final(out)@ == next@.flatten(),
        grown(old(journal)@, final(journal)@),
        seq_carried(final(out)@).subset_of(
            seq_carried(old(out)@).union(seq_carried(list@).insert(**attr)),
        ),
        all_pure(old(out)@) && all_pure(list@) ==> all_pure(final(out)@),
        all_painted(whole, start as int, end as int, **attr) ==> final(journal)@ == old(journal)@,
        all_painted(whole, start as int, end as int, **attr) && seq_alike(
            whole.take(first),
            old(out)@,
        ) ==> seq_alike(whole.take(first + list@.len()), final(out)@),
    decreases whole, 0nat,
{
    let ghost given = list@;
    let ghost mut acc = parts;
    let ghost mut fixed: bool = false;
    let mut offset: usize = base;
    proof {
        let a = **attr;
        fixed = all_painted(whole, start as int, end as int, a);
        lemma_carried_part(given, 0, 0);
        assert(given.subrange(0, 0) =~= Seq::<Node<T>>::empty());
        lemma_carried_empty::<T>();
    }
    for kid in it: list
        invariant
            decides_equality::<T>(),
            it.seq() == given,
            0 <= first,
            first + given.len() <= whole.len(),
            given == whole.subrange(first, first + given.len()),
            all_canonical(whole),
            all_canonical(out@),
            start < end,
            offset == begin(whole, first + it.index()),
            seq_content(whole).len() <= usize::MAX,
            forall|k: int|
                first <= k < first + given.len() ==> !enclosed(whole, k, start as int, end as int),
            seq_content(out@) == seq_content(whole.take(first + it.index())),
            seq_marks(out@) == paint(
                seq_marks(whole.take(first + it.index())),
                start as int,
                end as int,
                **attr,
            ),
            laid_upto(whole, acc, first + it.index(), start as int, end as int, **attr),
            out@ == acc.flatten(),
            grown(old(journal)@, journal@),
            seq_carried(out@).subset_of(
                seq_carried(old(out)@).union(
                    seq_carried(given.take(it.index() as int)).insert(**attr),
                ),
            ),
            all_pure(old(out)@) && all_pure(given.take(it.index() as int)) ==> all_pure(out@),
            fixed == all_painted(whole, start as int, end as int, **attr),
            fixed ==> journal@ == old(journal)@,
            fixed && seq_alike(whole.take(first), old(out)@) ==> seq_alike(
                whole.take(first + it.index()),
                out@,
            ),
    {
        let ghost at = first + it.index();
        let ghost seen = given.take(it.index() as int);
        proof {
            assert(kid == whole[at]);
            assert(whole.take(at + 1) =~= whole.take(at).push(kid));
            lemma_seq_push(whole.take(at), kid);
            assert(whole =~= whole.take(at + 1) + whole.skip(at + 1));
            lemma_seq_concat(whole.take(at + 1), whole.skip(at + 1));
        }
        let length = kid.length();
        let lo = if start > offset {
            start
        } else {
            offset
        };
        let hi = if end < offset + length {
            end
        } else {
            offset + length
        };
        proof {
            let a = **attr;
            assert(given.take(it.index() + 1) =~= seen.push(kid));
            lemma_carried_push(seen, kid);
            lemma_paint_last(
                whole.take(at),
                kid,
                start as int,
                end as int,
                lo - offset,
                hi - offset,
                a,
            );
            if fixed {
                kid.lemma_painted_clamp(
                    start - offset,
                    end - offset,
                    lo - offset,
                    hi - offset,
                    a,
                );
                kid.lemma_alike_refl();
            }
        }
        let ghost early = out@;
        if lo < hi {
            kid.place(out, lo - offset, hi - offset, share(attr), journal);
        } else {
            proof {
                lemma_seq_push(out@, kid);
                lemma_carried_push(out@, kid);
            }
            out.push(kid);
            proof {
                assert(out@.take(early.len() as int) =~= early);
                assert(out@.skip(early.len() as int) =~= seq![kid]);
            }
        }
        proof {
            let a = **attr;
            let outs = out@.skip(early.len() as int);
            assert(out@ =~= early + outs);
            lemma_stepped(
                whole,
                acc,
                outs,
                at,
                start as int,
                end as int,
                lo - offset,
                hi - offset,
                a,
            );
            acc = acc.push(outs);
            if fixed && seq_alike(whole.take(first), old(out)@) {
                assert(out@ =~= early.push(out@[early.len() as int]));
                lemma_seq_alike_push(whole.take(at), early, kid, out@[early.len() as int]);
            }
        }
        offset = offset + length;
    }
    proof {
        assert(given.take(given.len() as int) =~= given);
    }
    Ghost(acc)
}

impl<T: PartialEq> Node<T> {
    /// Sets `attr` on the range of a leaf that does not carry it yet.
    fn set_on_leaf(
        &mut self,
        start: usize,
        end: usize,
        attr: Rc<T>,
        journal: &mut Journal,
    ) -> (pieces: Option<Vec<Node<T>>>)
        requires
            decides_equality::<T>(),
            old(self).leaf(),
            !old(self).own().contains(*attr),
            start < end <= old(self).content().len(),
        ensures
            grown(old(journal)@, final(journal)@),
            set_done(*old(self), *final(self), pieces, start as int, end as int, *attr),
            final(journal)@ == old(journal)@ + leaf_changes(
                *old(self),
                *final(self),
                start as int,
                end as int,
            ),
    {
        proof {
            let a = *attr;
            self.lemma_content();
            self.lemma_marks();
            self.lemma_painted(start as int, end as int, a);
        }
        let total = self.text.len();
        if start == 0 && end == total {
            self.attrs.insert(attr);
            journal.attributes_changed(&self.id);
            proof {
                self.lemma_content();
                self.lemma_marks();
                self.lemma_canonical();
                old(self).lemma_recarried(*self);
                lemma_carried_empty::<T>();
                assert(self.kids() =~= Seq::<Node<T>>::empty());
                assert(self.marks() =~= paint(old(self).marks(), 0, total as int, *attr));
                assert(journal@ =~= old(journal)@ + leaf_changes(
                    *old(self),
                    *self,
                    start as int,
                    end as int,
                ));
            }
            None
        } else {
            let mut text: Vec<u8> = Vec::new();
            std::mem::swap(&mut text, &mut self.text);
            let pieces = split_leaf(text, start, end, attr);
            if self.root || !self.attrs.is_empty() {
                record_added(journal, &self.id, pieces.len());
                self.children = pieces;
                proof {
                    self.lemma_content();
                    self.lemma_marks();
                    self.lemma_canonical();
                    self.lemma_carried();
                    self.lemma_pure();
                    old(self).lemma_carried();
                    let a = *attr;
                    lemma_paint_widen(
                        Seq::new(total as nat, |i: int| Set::<T>::empty()),
                        self.own(),
                        start as int,
                        end as int,
                        a,
                    );
                    assert(widen(
                        Seq::new(total as nat, |i: int| Set::<T>::empty()),
                        self.own(),
                    ) =~= old(self).marks()) by {
                        assert forall|i: int| 0 <= i < total implies widen(
                            Seq::new(total as nat, |i: int| Set::<T>::empty()),
                            self.own(),
                        )[i] == old(self).marks()[i] by {
                            assert(Set::<T>::empty().union(self.own()) =~= self.own());
                        }
                    }
                }
                None
            } else {
                proof {
                    self.lemma_content();
                    old(self).lemma_carried();
                    assert(Seq::new(total as nat, |i: int| Set::<T>::empty()) =~= old(
                        self,
                    ).marks());
                    assert(journal@ =~= old(journal)@ + leaf_changes(
                        *old(self),
                        *self,
                        start as int,
                        end as int,
                    ));
                }
                Some(pieces)
            }
        }
    }

    /// Sets `attr` on the part of the range, from `lo` up to `hi` within this
    /// node, that falls on it, and appends what stands for the node then to
    /// `out`.
    fn place(
        self,
        out: &mut Vec<Node<T>>,
        lo: usize,
        hi: usize,
        attr: Rc<T>,
        journal: &mut Journal,
    )
        requires
            decides_equality::<T>(),
            self.canonical(),
            all_canonical(old(out)@),
            lo < hi <= self.content().len() <= usize::MAX,
        ensures
            grown(old(journal)@, final(journal)@),
            self.painted(lo as int, hi as int, *attr) ==> final(journal)@ == old(journal)@,
            seq_carried(final(out)@).subset_of(
                seq_carried(old(out)@).union(self.carried().insert(*attr)),
            ),
            all_pure(old(out)@) && self.pure() ==> all_pure(final(out)@),
            all_canonical(final(out)@),
            seq_content(final(out)@) == seq_content(old(out)@) + self.content(),
            seq_marks(final(out)@) == seq_marks(old(out)@) + paint(
                self.marks(),
                lo as int,
                hi as int,
                *attr,
            ),
            self.painted(lo as int, hi as int, *attr) ==> final(out)@.len() == old(out)@.len() + 1
                && self.alike(final(out)@[old(out)@.len() as int]),
            final(out)@.len() >= old(out)@.len(),
            final(out)@.take(old(out)@.len() as int) == old(out)@,
            placed(self, final(out)@.skip(old(out)@.len() as int), lo as int, hi as int, *attr),
        decreases self, 3nat,
    {
        let mut kid = self;
        proof {
            reveal(placed);
        }
        match kid.set_logged(lo, hi, attr, journal) {
            None => {
                proof {
                    lemma_seq_push(out@, kid);
                    lemma_carried_push(out@, kid);
                    assert(such(kid) && such(None::<Seq<Node<T>>>));
                }
                out.push(kid);
                proof {
                    assert(out@.take(old(out)@.len() as int) =~= old(out)@);
                    assert(out@.skip(old(out)@.len() as int) =~= seq![kid]);
                }
            },
            Some(list) => {
                let mut list = list;
                let ghost given = list@;
                proof {
                    lemma_seq_concat(out@, list@);
                    lemma_carried_concat(out@, list@);
                    assert(such(kid) && such(Some(given)));
                }
                out.append(&mut list);
                proof {
                    assert(out@.take(old(out)@.len() as int) =~= old(out)@);
                    assert(out@.skip(old(out)@.len() as int) =~= given);
                }
            },
        }
    }

    /// Sets `attr` on a range that covers part of an inner node: on each
    /// child as far as the range falls on it, and on the run of children
    /// that it covers as a whole together.
    fn set_on_node_children(
        &mut self,
        start: usize,
        end: usize,
        attr: Rc<T>,
        journal: &mut Journal,
    )
        requires
            decides_equality::<T>(),
            old(self).canonical(),
            !old(self).leaf(),
            !old(self).own().contains(*attr),
            start < end <= old(self).content().len() <= usize::MAX,
            start > 0 || end < old(self).content().len(),
        ensures
            set_done(*old(self), *final(self), None, start as int, end as int, *attr),
            grown(old(journal)@, final(journal)@),
            old(self).painted(start as int, end as int, *attr) ==> final(journal)@ == old(
                journal,
            )@,
        decreases *old(self), 0nat,
    {
        let ghost mut fixed: bool = false;
        proof {
            let a = *attr;
            self.lemma_content();
            self.lemma_marks();
            self.lemma_canonical();
            self.lemma_size();
            self.lemma_carried();
            self.lemma_pure();
            self.lemma_painted(start as int, end as int, a);
            fixed = old(self).painted(start as int, end as int, a);
        }
        let (from, till, base) = enclosed_run(&self.children, start, end);
        let ids = self.kid_ids();
        let mut kids = self.take_kids();
        let ghost whole = kids@;
        let tail = kids.split_off(till);
        let run = kids.split_off(from);
        let ghost mut parts: Seq<Seq<Node<T>>> = Seq::empty();
        proof {
            let a = *attr;
            lemma_seq_empty::<T>();
            assert(kids@ =~= whole.subrange(0, from as int));
            assert(run@ =~= whole.subrange(from as int, till as int));
            assert(tail@ =~= whole.subrange(till as int, whole.len() as int));
            assert(whole.take(0) =~= Seq::<Node<T>>::empty());
            assert(paint(Seq::<Set<T>>::empty(), start as int, end as int, a)
                =~= Seq::<Set<T>>::empty());
            assert(laid_upto(whole, parts, 0, start as int, end as int, a)) by {
                reveal(laid_upto);
            }
            lemma_carried_part(whole, 0, from as int);
            lemma_carried_part(whole, from as int, till as int);
            lemma_carried_part(whole, till as int, whole.len() as int);
            lemma_run(whole, from as int, till as int, start as int, end as int, a);
        }
        let mut out: Vec<Node<T>> = Vec::new();
        let first = lay_each(
            &mut out,
            kids,
            0,
            start,
            end,
            &attr,
            journal,
            Ghost(whole),
            Ghost(0),
            Ghost(parts),
        );
        let ghost early = out@;
        flush(&mut out, run, &attr, journal);
        proof {
            let a = *attr;
            let outs = out@.skip(early.len() as int);
            assert(out@ =~= early + outs);
            parts = lemma_flushed(
                whole,
                first@,
                outs,
                from as int,
                till as int,
                start as int,
                end as int,
                a,
            );
            if fixed {
                if run@.len() == 1 {
                    run@[0].lemma_alike_refl();
                    lemma_seq_alike_push(whole.take(from as int), early, run@[0], run@[0]);
                    assert(whole.take(till as int) =~= whole.take(from as int).push(run@[0]));
                } else {
                    assert(whole.take(till as int) =~= whole.take(from as int));
                }
            }
        }
        let last = lay_each(
            &mut out,
            tail,
            base,
            start,
            end,
            &attr,
            journal,
            Ghost(whole),
            Ghost(till as int),
            Ghost(parts),
        );
        let ghost built = out@;
        proof {
            let a = *attr;
            assert(whole.take(whole.len() as int) =~= whole);
            lemma_laid(whole, last@, start as int, end as int, a);
            assert(such(last@));
            if fixed {
                lemma_seq_alike_same(whole, built);
                assert(names(ids@, built)) by {
                    assert forall|i: int| 0 <= i < ids@.len() implies (#[trigger] ids@[i])@
                        == built[i].ident() by {
                        whole[i].lemma_alike(built[i]);
                    }
                }
            }
        }
        self.install(ids, out, journal);
        proof {
            let a = *attr;
            lemma_paint_widen(seq_marks(whole), old(self).own(), start as int, end as int, a);
            if fixed {
                old(self).lemma_alike(*self);
            }
        }
    }

    /// Sets `info` on the bytes from `start_idx` up to `end_idx` of the text
    /// that the node covers. A node that carries `info` already is left as
    /// it is. The result is a list of pieces where the node was a leaf
    /// without attributes of which only a part is covered: the pieces are to
    /// take its place among its siblings.
    pub fn set(
        &mut self,
        start_idx: usize,
        end_idx: usize,
        info: Rc<T>,
    ) -> (pieces: Option<Vec<Node<T>>>)
        requires
            decides_equality::<T>(),
            old(self).canonical(),
            start_idx < end_idx <= old(self).content().len() <= usize::MAX,
        ensures
            set_done(*old(self), *final(self), pieces, start_idx as int, end_idx as int, *info),
    {
        let mut scratch = Journal::new();
        self.set_logged(start_idx, end_idx, info, &mut scratch)
    }

    /// Sets `info` on the range as `set` does, and records the changes.
    pub(crate) fn set_logged(
        &mut self,
        start_idx: usize,
        end_idx: usize,
        info: Rc<T>,
        journal: &mut Journal,
    ) -> (pieces: Option<Vec<Node<T>>>)
        requires
            decides_equality::<T>(),
            old(self).canonical(),
            start_idx < end_idx <= old(self).content().len() <= usize::MAX,
        ensures
            set_done(*old(self), *final(self), pieces, start_idx as int, end_idx as int, *info),
            grown(old(journal)@, final(journal)@),
            old(self).painted(start_idx as int, end_idx as int, *info) ==> final(journal)@ == old(
                journal,
            )@,
            old(self).leaf() && !old(self).own().contains(*info) ==> final(journal)@ == old(
                journal,
            )@ + leaf_changes(*old(self), *final(self), start_idx as int, end_idx as int),
        decreases *old(self), 2nat,
    {
        proof {
            let a = *info;
            self.lemma_painted(start_idx as int, end_idx as int, a);
            self.lemma_alike_refl();
        }
        if self.attrs.contains(&info) {
            proof {
                assert forall|i: int| 0 <= i < self.marks().len() implies self.marks()[i].contains(
                    *info,
                ) by {
                    self.lemma_marks_hold_own(i);
                }
                let a = *info;
                lemma_paint_same(self.marks(), start_idx as int, end_idx as int, a);
            }
            None
        } else if self.children.len() == 0 {
            self.set_on_leaf(start_idx, end_idx, info, journal)
        } else {
            self.set_on_node(start_idx, end_idx, info, journal);
            None
        }
    }

    /// Sets `attr` on a range of an inner node: on all of it, or on part of
    /// it.
    fn set_on_node(&mut self, start: usize, end: usize, attr: Rc<T>, journal: &mut Journal)
        requires
            decides_equality::<T>(),
            old(self).canonical(),
            !old(self).leaf(),
            !old(self).own().contains(*attr),
            start < end <= old(self).content().len() <= usize::MAX,
        ensures
            set_done(*old(self), *final(self), None, start as int, end as int, *attr),
            grown(old(journal)@, final(journal)@),
            old(self).painted(start as int, end as int, *attr) ==> final(journal)@ == old(
                journal,
            )@,
        decreases *old(self), 1nat,
    {
        proof {
            let a = *attr;
            self.lemma_painted(start as int, end as int, a);
        }
        let length = self.length();
        if start == 0 && end == length {
            proof {
                self.lemma_marks_len();
            }
            self.cover(attr, journal);
        } else {
            self.set_on_node_children(start, end, attr, journal);
        }
    }
}

} // verus!
