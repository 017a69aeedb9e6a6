//! Taking an attribute off a range of the text.

use crate::attrs::{AttrSet, decides_equality, share};
use crate::canon::{
    all_canonical, all_pure, lemma_carried_empty, lemma_carried_push, lemma_seq_alike_same,
    seq_alike, seq_carried, settled,
};
use crate::change::{Journal, grown};
use crate::marks::{erase, lemma_erase_clamp, lemma_erase_concat, lemma_erase_same};
use crate::node::{
    Node, begin, lemma_seq_concat, lemma_seq_empty, lemma_seq_marks_len, lemma_seq_one,
    lemma_seq_push, lemma_size_at, lemma_widen_none, lower, seq_content, seq_marks, seq_size, upper,
    widen,
};
use crate::purge::{all_absent, lemma_rebuilt, lemma_seq_alike_push, purged, tidied};
use crate::settle::{installed, record_added, stripped, such};
use crate::style::{seq_of, set_anew, set_holds};
use std::rc::Rc;
use vstd::prelude::*;

verus! {

broadcast use Node::lemma_parts;

/// Erasing on a list of siblings erases on the last of them over the part
/// of the range that falls on it.
proof fn lemma_erase_last<T>(
    head: Seq<Node<T>>,
    kid: Node<T>,
    start: int,
    end: int,
    lo: int,
    hi: int,
    attr: T,
)
    requires
        lo == (if start > seq_content(head).len() {
            start - seq_content(head).len()
        } else {
            0
        }),
        hi == (if end < seq_content(head).len() + kid.content().len() {
            end - seq_content(head).len()
        } else {
            kid.content().len() as int
        }),
    ensures
        erase(seq_marks(head.push(kid)), start, end, attr) == erase(
            seq_marks(head),
            start,
            end,
            attr,
        ) + erase(kid.marks(), lo, hi, attr),
        lo >= hi ==> erase(kid.marks(), lo, hi, attr) == kid.marks(),
        seq_content(head.push(kid)) == seq_content(head) + kid.content(),
{
    lemma_seq_push(head, kid);
    lemma_seq_marks_len(head);
    kid.lemma_marks_len();
    lemma_erase_concat(seq_marks(head), kid.marks(), start, end, attr);
    lemma_erase_clamp(
        kid.marks(),
        start - seq_marks(head).len(),
        end - seq_marks(head).len(),
        lo,
        hi,
        attr,
    );
    if lo >= hi {
        lemma_erase_same(kid.marks(), lo, hi, attr);
    }
}

/// Whether taking `attr` off the range from `start` up to `end` makes
/// `after` of the subtree `before`. A subtree that the range covers loses
/// the attribute on every node. Otherwise the node itself loses it, and so
/// do its children as far as the range falls on them; they are brought into
/// canonical arrangement and made its children again. Where the node
/// carried the attribute, it is then set again on what lies behind the
/// range, and on what lies before it.
pub open spec fn unstyled<T>(before: Node<T>, after: Node<T>, start: int, end: int, attr: T) -> bool
    decreases before.size(), 0nat,
{
    let length = before.content().len() as int;
    if start <= 0 && end >= length {
        purged(before, after, attr)
    } else {
        exists|bare: Node<T>, mid: Node<T>, half: Node<T>|
            {
                &&& #[trigger] such(bare) && #[trigger] such(mid) && #[trigger] such(half)
                &&& stripped(before, bare, attr)
                &&& if before.leaf() {
                    mid == bare
                } else {
                    &&& seq_size(before.kids()) < before.size()
                    &&& exists|list: Seq<Node<T>>|
                        {
                            &&& #[trigger] such(list)
                            &&& all_unstyled(before.kids(), list, start, end, attr)
                            &&& installed(bare, list, mid)
                        }
                }
                &&& if !before.own().contains(attr) {
                    half == mid && after == mid
                } else {
                    &&& if end < length {
                        set_anew(mid, half, end, length, attr)
                    } else {
                        half == mid
                    }
                    &&& if start > 0 {
                        set_anew(half, after, 0, start, attr)
                    } else {
                        after == half
                    }
                }
            }
    }
}

/// Whether `after` is the `at`-th of the siblings `kids` with `attr` taken
/// off the part of the range that falls on it, and brought into canonical
/// arrangement where none does.
pub open spec fn unstyled_at<T>(
    kids: Seq<Node<T>>,
    at: int,
    after: Node<T>,
    start: int,
    end: int,
    attr: T,
) -> bool
    decreases seq_size(kids), 1nat,
{
    &&& kids[at].size() <= seq_size(kids)
    &&& if lower(kids, at, start) < upper(kids, at, end) {
        unstyled(kids[at], after, lower(kids, at, start), upper(kids, at, end), attr)
    } else {
        tidied(kids[at], after)
    }
}

/// Whether `list` holds the siblings `kids`, each with `attr` taken off
/// the part of the range that falls on it.
pub open spec fn all_unstyled<T>(
    kids: Seq<Node<T>>,
    list: Seq<Node<T>>,
    start: int,
    end: int,
    attr: T,
) -> bool
    decreases seq_size(kids), 2nat,
{
    &&& list.len() == kids.len()
    &&& forall|at: int|
        0 <= at < kids.len() ==> unstyled_at(kids, at, #[trigger] list[at], start, end, attr)
}

/// Whether `list` holds the first `upto` of the siblings `kids`, each with
/// `attr` taken off the part of the range that falls on it.
#[verifier::opaque]
spec fn unstyled_upto<T>(
    kids: Seq<Node<T>>,
    list: Seq<Node<T>>,
    upto: int,
    start: int,
    end: int,
    attr: T,
) -> bool {
    &&& list.len() == upto
    &&& forall|at: int|
        0 <= at < upto ==> unstyled_at(kids, at, #[trigger] list[at], start, end, attr)
}

/// One more of the siblings has lost the attribute on its part of the
/// range.
proof fn lemma_unstyled_push<T>(
    kids: Seq<Node<T>>,
    list: Seq<Node<T>>,
    after: Node<T>,
    at: int,
    start: int,
    end: int,
    attr: T,
)
    requires
        0 <= at < kids.len(),
        unstyled_upto(kids, list, at, start, end, attr),
        lower(kids, at, start) < upper(kids, at, end) ==> unstyled(
            kids[at],
            after,
            lower(kids, at, start),
            upper(kids, at, end),
            attr,
        ),
        lower(kids, at, start) >= upper(kids, at, end) ==> tidied(kids[at], after),
    ensures
        unstyled_upto(kids, list.push(after), at + 1, start, end, attr),
        at + 1 == kids.len() ==> all_unstyled(kids, list.push(after), start, end, attr),
{
    reveal(unstyled_upto);
    lemma_size_at(kids, at);
    assert(unstyled_at(kids, at, after, start, end, attr));
    assert forall|j: int| 0 <= j < at + 1 implies unstyled_at(
        kids,
        j,
        #[trigger] list.push(after)[j],
        start,
        end,
        attr,
    ) by {
        if j < at {
            assert(list.push(after)[j] == list[j]);
        }
    }
}

/// What `Node::unset` leaves behind: the subtree arranged as `unstyled`
/// says. It covers the same text, without the attribute on the range, in
/// canonical arrangement; and is the same tree as before where that was in
/// canonical arrangement and no node of it carried the attribute. Where the
/// range covers the node, no node of the subtree carries the attribute
/// afterwards.
pub open spec fn unset_done<T>(
    before: Node<T>,
    after: Node<T>,
    start: int,
    end: int,
    attr: T,
) -> bool {
    &&& unstyled(before, after, start, end, attr)
    &&& after.canonical()
    &&& after.content() == before.content()
    &&& after.marks() == erase(before.marks(), start, end, attr)
    &&& after.at_root() == before.at_root()
    &&& after.ident() == before.ident()
    &&& before.canonical() && before.absent(attr) ==> before.alike(after)
    &&& after.carried().subset_of(before.carried())
    &&& before.pure() ==> after.pure()
    &&& start <= 0 && end >= before.content().len() ==> !after.carried().contains(attr)
}

/// Takes `attr` off the nodes of `list` as far as the range falls on them.
fn unset_list<T: PartialEq>(
    list: Vec<Node<T>>,
    start: usize,
    end: usize,
    attr: &T,
    journal: &mut Journal,
) -> (out: Vec<Node<T>>)
    requires
        decides_equality::<T>(),
        start < end <= seq_content(list@).len() <= usize::MAX,
    ensures
        grown(old(journal)@, final(journal)@),
        seq_carried(out@).subset_of(seq_carried(list@)),
        all_pure(list@) ==> all_pure(out@),
        all_canonical(out@),
        seq_content(out@) == seq_content(list@),
        seq_marks(out@) == erase(seq_marks(list@), start as int, end as int, *attr),
        all_canonical(list@) && all_absent(list@, *attr) ==> seq_alike(list@, out@),
        list@.len() > 0 ==> all_unstyled(list@, out@, start as int, end as int, *attr),
    decreases list@,
{
    let ghost whole = list@;
    let mut out: Vec<Node<T>> = Vec::new();
    let mut offset: usize = 0;
    proof {
        assert(unstyled_upto(whole, out@, 0, start as int, end as int, *attr)) by {
            reveal(unstyled_upto);
        }
        lemma_seq_empty::<T>();
        lemma_carried_empty::<T>();
        assert(whole.take(0) =~= Seq::<Node<T>>::empty());
        assert(erase(Seq::<Set<T>>::empty(), start as int, end as int, *attr)
            =~= Seq::<Set<T>>::empty());
    }
    for kid in it: list
        invariant
            decides_equality::<T>(),
            it.seq() == whole,
            whole == list@,
            all_canonical(out@),
            start < end,
            offset == seq_content(whole.take(it.index() as int)).len(),
            seq_content(whole).len() <= usize::MAX,
            grown(old(journal)@, journal@),
            seq_carried(out@).subset_of(seq_carried(whole.take(it.index() as int))),
            all_pure(whole.take(it.index() as int)) ==> all_pure(out@),
            seq_content(out@) == seq_content(whole.take(it.index() as int)),
            seq_marks(out@) == erase(
                seq_marks(whole.take(it.index() as int)),
                start as int,
                end as int,
                *attr,
            ),
            all_canonical(whole) && all_absent(whole, *attr) ==> seq_alike(
                whole.take(it.index() as int),
                out@,
            ),
            unstyled_upto(whole, out@, it.index() as int, start as int, end as int, *attr),
            it.index() > 0 && it.index() == whole.len() ==> all_unstyled(
                whole,
                out@,
                start as int,
                end as int,
                *attr,
            ),
    {
        let ghost at = it.index() as int;
        let ghost before = kid;
        proof {
            assert(kid == whole[at]);
            assert(whole.take(at + 1) =~= whole.take(at).push(kid));
            lemma_seq_push(whole.take(at), kid);
            assert(whole =~= whole.take(at + 1) + whole.skip(at + 1));
            lemma_seq_concat(whole.take(at + 1), whole.skip(at + 1));
        }
        let mut kid = kid;
        let length = kid.length();
        let lo = if start > offset {
            start
        } else {
            offset
        };
        let hi = if end < offset + length {
            end
        } else {
            offset + length
        };
        proof {
            lemma_erase_last(
                whole.take(at),
                before,
                start as int,
                end as int,
                lo - offset,
                hi - offset,
                *attr,
            );
        }
        if lo < hi {
            kid.unset_range(lo - offset, hi - offset, attr, journal);
        } else {
            kid.purge_none(journal);
        }
        proof {
            lemma_seq_push(out@, kid);
            lemma_carried_push(whole.take(at), before);
            lemma_carried_push(out@, kid);
            if all_canonical(whole) && all_absent(whole, *attr) {
                lemma_seq_alike_push(whole.take(at), out@, before, kid);
            }
            assert(begin(whole, at) == offset);
            lemma_unstyled_push(whole, out@, kid, at, start as int, end as int, *attr);
        }
        out.push(kid);
        offset = offset + length;
    }
    proof {
        assert(whole.take(whole.len() as int) =~= whole);
    }
    out
}

impl<T: PartialEq> Node<T> {
    /// Takes `attr` off the bytes from `start` up to `end`: off every node
    /// on which the range falls. Where such a node reaches beyond the range,
    /// `attr` is set again on what of it lies outside.
    pub(crate) fn unset_range(
        &mut self,
        start: usize,
        end: usize,
        attr: &T,
        journal: &mut Journal,
    )
        requires
            decides_equality::<T>(),
            start < end <= old(self).content().len() <= usize::MAX,
        ensures
            grown(old(journal)@, final(journal)@),
            unset_done(*old(self), *final(self), start as int, end as int, *attr),
        decreases *old(self),
    {
        proof {
            self.lemma_content();
            self.lemma_marks();
            self.lemma_marks_len();
            self.lemma_absent(*attr);
            self.lemma_canonical();
            self.lemma_alike_refl();
        }
        let ghost same = old(self).canonical() && old(self).absent(*attr);
        let length = self.length();
        if start == 0 && end == length {
            self.purge(attr, journal);
            return ;
        }
        let had = self.attrs.remove(attr);
        if had.is_some() {
            journal.attributes_changed(&self.id);
        }
        let ghost bare = *self;
        proof {
            old(self).lemma_size();
            assert(such(bare));
            assert(stripped(*old(self), bare, *attr));
            old(self).lemma_recarried(*self);
            if old(self).leaf() {
                lemma_carried_empty::<T>();
                assert(self.kids() =~= Seq::<Node<T>>::empty());
            }
        }
        if self.children.len() == 0 {
            proof {
                self.lemma_content();
                self.lemma_marks();
                self.lemma_canonical();
            }
        } else {
            let ids = self.kid_ids();
            let kids = self.take_kids();
            let ghost whole = kids@;
            let kids = unset_list(kids, start, end, attr, journal);
            let ghost built = kids@;
            proof {
                if same {
                    lemma_seq_alike_same(whole, built);
                }
            }
            self.install(ids, kids, journal);
            proof {
                assert(such(built));
                if same {
                    lemma_rebuilt(*old(self), *self, built);
                }
            }
        }
        let ghost mid = *self;
        proof {
            assert(such(mid));
        }
        let ghost below = if old(self).leaf() {
            Seq::new(length as nat, |i: int| Set::<T>::empty())
        } else {
            seq_marks(old(self).kids())
        };
        proof {
            if !old(self).leaf() {
                lemma_seq_marks_len(old(self).kids());
            }
            mid.lemma_marks_len();
            assert(mid.marks() =~= widen(
                erase(below, start as int, end as int, *attr),
                old(self).own().remove(*attr),
            )) by {
                if old(self).leaf() {
                    assert forall|i: int| 0 <= i < length implies mid.marks()[i] == widen(
                        erase(below, start as int, end as int, *attr),
                        old(self).own().remove(*attr),
                    )[i] by {
                        assert(Set::<T>::empty().union(old(self).own().remove(*attr))
                            =~= old(self).own().remove(*attr));
                        assert(Set::<T>::empty().remove(*attr) =~= Set::<T>::empty());
                    }
                }
            }
            assert(old(self).marks() =~= widen(below, old(self).own())) by {
                if old(self).leaf() {
                    assert forall|i: int| 0 <= i < length implies old(self).marks()[i] == widen(
                        below,
                        old(self).own(),
                    )[i] by {
                        assert(Set::<T>::empty().union(old(self).own()) =~= old(self).own());
                    }
                }
            }
        }
        match had {
            None => {
                proof {
                    assert(old(self).own().remove(*attr) =~= old(self).own());
                    assert(mid.marks() =~= erase(
                        old(self).marks(),
                        start as int,
                        end as int,
                        *attr,
                    )) by {
                        assert forall|i: int| 0 <= i < length implies mid.marks()[i] == erase(
                            old(self).marks(),
                            start as int,
                            end as int,
                            *attr,
                        )[i] by {
                            if start <= i < end {
                                assert(below[i].remove(*attr).union(old(self).own())
                                    =~= below[i].union(old(self).own()).remove(*attr));
                            }
                        }
                    }
                }
            },
            Some(handle) => {
                if end < length {
                    self.set_again(end, length, share(&handle), journal);
                }
                let ghost half = *self;
                if start > 0 {
                    self.set_again(0, start, handle, journal);
                }
                proof {
                    assert(such(half));
                    assert(self.marks() =~= erase(
                        old(self).marks(),
                        start as int,
                        end as int,
                        *attr,
                    )) by {
                        assert forall|i: int| 0 <= i < length implies self.marks()[i] == erase(
                            old(self).marks(),
                            start as int,
                            end as int,
                            *attr,
                        )[i] by {
                            if start <= i < end {
                                assert(below[i].remove(*attr).union(
                                    old(self).own().remove(*attr),
                                ) =~= below[i].union(old(self).own()).remove(*attr));
                            } else {
                                assert(below[i].union(old(self).own().remove(*attr)).insert(
                                    *attr,
                                ) =~= below[i].union(old(self).own()));
                            }
                        }
                    }
                }
            },
        }
    }

    /// Sets `attr` on a range of the node, and where this cuts the node, a
    /// leaf without attributes, into pieces, makes the pieces its children.
    fn set_again(&mut self, start: usize, end: usize, attr: Rc<T>, journal: &mut Journal)
        requires
            decides_equality::<T>(),
            old(self).canonical(),
            start < end <= old(self).content().len() <= usize::MAX,
        ensures
            set_holds(*old(self), *final(self), None, start as int, end as int, *attr),
            set_anew(*old(self), *final(self), start as int, end as int, *attr),
            grown(old(journal)@, final(journal)@),
    {
        match self.set_logged(start, end, attr, journal) {
            None => {
                proof {
                    assert(such(*self) && such(None::<Seq<Node<T>>>));
                }
            },
            Some(pieces) => {
                let ghost mid = *self;
                record_added(journal, &self.id, pieces.len());
                self.children = pieces;
                proof {
                    assert(such(mid) && such(Some(pieces@)));
                    self.lemma_content();
                    self.lemma_marks();
                    self.lemma_canonical();
                    self.lemma_carried();
                    self.lemma_pure();
                    old(self).lemma_carried();
                    lemma_widen_none(seq_marks(pieces@));
                }
            },
        }
    }

    /// Takes `info` off the bytes from `start_idx` up to `end_idx` of the
    /// text that the node covers. What of a node that carried `info` lies
    /// outside the range carries it afterwards as before.
    pub fn unset(&mut self, start_idx: usize, end_idx: usize, info: Rc<T>)
        requires
            decides_equality::<T>(),
            start_idx < end_idx <= old(self).content().len() <= usize::MAX,
        ensures
            unset_done(*old(self), *final(self), start_idx as int, end_idx as int, *info),
    {
        let mut scratch = Journal::new();
        self.unset_range(start_idx, end_idx, &*info, &mut scratch);
    }
}

/// Whether `after`, and the list `swap` where there is one, is what is
/// made of the node `mid` when it gives way where it is of no use. A node
/// that is the root or carries an attribute stays as it is. Any other one
/// gives way to the list, which holds its children, or a new leaf with its
/// text; `after` is what is left of it, a leaf without text.
pub open spec fn given_way<T>(mid: Node<T>, after: Node<T>, swap: Option<Seq<Node<T>>>) -> bool {
    if mid.at_root() || mid.own_order().len() > 0 {
        swap is None && after == mid
    } else {
        &&& swap is Some
        &&& after.leaf()
        &&& after.fragment() == Seq::<u8>::empty()
        &&& after.own_order() == mid.own_order()
        &&& after.ident() == mid.ident()
        &&& after.at_root() == mid.at_root()
        &&& if mid.leaf() {
            &&& swap->0.len() == 1
            &&& swap->0[0].leaf()
            &&& swap->0[0].fragment() == mid.fragment()
            &&& swap->0[0].own_order() == Seq::<T>::empty()
            &&& !swap->0[0].at_root()
        } else {
            swap->0 == mid.kids()
        }
    }
}

/// What `Node::remove_info` leaves behind. Where `deep` holds, the
/// attribute is gone from the range as `Node::unset` takes it off;
/// otherwise nothing has changed. A node that is no root and has no
/// attribute left is of no use: then the list holds what takes its place
/// among its siblings, its children or a leaf with its text, and `after` is
/// what is left of it, an empty leaf.
pub open spec fn info_removed<T>(
    before: Node<T>,
    after: Node<T>,
    swap: Option<Vec<Node<T>>>,
    deep: bool,
    start: int,
    end: int,
    attr: T,
) -> bool {
    let marks = if deep {
        erase(before.marks(), start, end, attr)
    } else {
        before.marks()
    };
    &&& exists|mid: Node<T>|
        {
            &&& #[trigger] such(mid)
            &&& if deep {
                unstyled(before, mid, start, end, attr)
            } else {
                mid == before
            }
            &&& given_way(mid, after, seq_of(swap))
        }
    &&& match swap {
        None => {
            &&& after.at_root() || after.own() != Set::<T>::empty()
            &&& after.content() == before.content()
            &&& after.marks() == marks
            &&& after.at_root() == before.at_root()
            &&& after.ident() == before.ident()
            &&& deep ==> after.canonical()
            &&& !deep ==> after == before
        },
        Some(list) => {
            &&& !before.at_root()
            &&& after.plain_leaf()
            &&& after.content() == Seq::<u8>::empty()
            &&& after.ident() == before.ident()
            &&& seq_content(list@) == before.content()
            &&& seq_marks(list@) == marks
            &&& deep ==> settled(list@)
        },
    }
}

impl<T: PartialEq> Node<T> {
    /// Takes `info` off the bytes from `start_idx` up to `end_idx` as
    /// `unset` does, where the node is a leaf or `recurse` holds; an inner
    /// node is left as it is where `recurse` does not hold. A node that is
    /// no root and has no attribute afterwards gives way: the result is then
    /// the list of what takes its place among its siblings.
    pub fn remove_info(
        &mut self,
        start_idx: usize,
        end_idx: usize,
        info: Rc<T>,
        recurse: bool,
    ) -> (swap: Option<Vec<Node<T>>>)
        requires
            decides_equality::<T>(),
            start_idx < end_idx <= old(self).content().len() <= usize::MAX,
        ensures
            info_removed(
                *old(self),
                *final(self),
                swap,
                recurse || old(self).leaf(),
                start_idx as int,
                end_idx as int,
                *info,
            ),
    {
        if recurse || self.children.len() == 0 {
            let mut scratch = Journal::new();
            self.unset_range(start_idx, end_idx, &*info, &mut scratch);
        }
        let ghost mid = *self;
        proof {
            assert(such(mid));
        }
        if self.attrs.is_empty() && !self.root {
            proof {
                self.lemma_content();
                self.lemma_marks();
                self.lemma_canonical();
            }
            if self.children.len() == 0 {
                let mut text: Vec<u8> = Vec::new();
                std::mem::swap(&mut text, &mut self.text);
                let leaf = Node::leaf_with(text, AttrSet::new());
                proof {
                    self.lemma_content();
                    lemma_seq_one(leaf);
                    leaf.lemma_content();
                    leaf.lemma_marks();
                    leaf.lemma_canonical();
                    assert(leaf.marks() =~= mid.marks());
                }
                let mut list: Vec<Node<T>> = Vec::new();
                list.push(leaf);
                proof {
                    assert(list@ =~= seq![leaf]);
                }
                Some(list)
            } else {
                let kids = self.take_kids();
                self.text = Vec::new();
                proof {
                    self.lemma_content();
                    lemma_widen_none(seq_marks(kids@));
                }
                Some(kids)
            }
        } else {
            None
        }
    }
}

} // verus!
