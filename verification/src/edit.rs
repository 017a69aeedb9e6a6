//! Taking bytes out of the text.

use crate::attrs::decides_equality;
use crate::canon::{all_canonical, all_pure, lemma_carried_empty, lemma_carried_push, seq_carried};
use crate::change::{Journal, grown};
use crate::marks::{lemma_without_clamp, lemma_without_concat, lemma_without_widen, without};
use crate::node::{
    Node, begin, lemma_seq_concat, lemma_seq_empty, lemma_seq_marks_len, lemma_seq_push,
    lemma_size_at, lower, seq_content, seq_marks, seq_size, upper,
};
use crate::purge::tidied;
use crate::settle::{installed, such};
use vstd::prelude::*;

verus! {

broadcast use Node::lemma_parts;

/// Taking a range out of what a list of siblings covers and marks takes
/// from the last of them the part of the range that falls on it.
proof fn lemma_without_last<T>(
    head: Seq<Node<T>>,
    kid: Node<T>,
    from: int,
    to: int,
    lo: int,
    hi: int,
)
    requires
        from < to,
        lo == (if from > seq_content(head).len() {
            from - seq_content(head).len()
        } else {
            0
        }),
        hi == (if to < seq_content(head).len() + kid.content().len() {
            to - seq_content(head).len()
        } else {
            kid.content().len() as int
        }),
    ensures
        without(seq_content(head.push(kid)), from, to) == without(seq_content(head), from, to)
            + without(kid.content(), lo, hi),
        without(seq_marks(head.push(kid)), from, to) == without(seq_marks(head), from, to)
            + without(kid.marks(), lo, hi),
        seq_content(head.push(kid)) == seq_content(head) + kid.content(),
{
    lemma_seq_push(head, kid);
    lemma_seq_marks_len(head);
    kid.lemma_marks_len();
    let base = seq_content(head).len() as int;
    lemma_without_concat(seq_content(head), kid.content(), from, to);
    lemma_without_concat(seq_marks(head), kid.marks(), from, to);
    lemma_without_clamp(kid.content(), from - base, to - base);
    lemma_without_clamp(kid.marks(), from - base, to - base);
    lemma_without_clamp(kid.content(), lo, hi);
    lemma_without_clamp(kid.marks(), lo, hi);
    if lo < hi {
        assert(without(kid.content(), from - base, to - base) =~= without(kid.content(), lo, hi));
        assert(without(kid.marks(), from - base, to - base) =~= without(kid.marks(), lo, hi));
    } else {
        assert(without(kid.content(), from - base, to - base) =~= kid.content());
        assert(without(kid.marks(), from - base, to - base) =~= kid.marks());
    }
}

/// Whether taking the bytes from `from` up to `to` out makes `after` of
/// the subtree `before`. A leaf loses them from its text. The children of
/// an inner node lose them as far as the range falls on them; what is left
/// of them is brought into canonical arrangement and made its children
/// again.
pub open spec fn cut<T>(before: Node<T>, after: Node<T>, from: int, to: int) -> bool
    decreases before.size(), 0nat,
{
    if before.leaf() {
        &&& after.leaf()
        &&& after.fragment() == without(before.fragment(), from, to)
        &&& after.own_order() == before.own_order()
        &&& after.ident() == before.ident()
        &&& after.at_root() == before.at_root()
    } else {
        &&& seq_size(before.kids()) < before.size()
        &&& exists|parts: Seq<Seq<Node<T>>>|
            {
                &&& #[trigger] such(parts)
                &&& all_cut(before.kids(), parts, from, to)
                &&& installed(before, parts.flatten(), after)
            }
    }
}

/// Whether `outs` is what is left of the `at`-th of the siblings `kids`
/// when the bytes from `from` up to `to` are taken out of the text that
/// they cover together: the node without the part of the range that falls
/// on it, or nothing where it holds no text then; and the node brought into
/// canonical arrangement where no part of the range falls on it.
pub open spec fn cut_at<T>(
    kids: Seq<Node<T>>,
    at: int,
    outs: Seq<Node<T>>,
    from: int,
    to: int,
) -> bool
    decreases seq_size(kids), 1nat,
{
    &&& kids[at].size() <= seq_size(kids)
    &&& exists|after: Node<T>|
        {
            &&& #[trigger] such(after)
            &&& if lower(kids, at, from) < upper(kids, at, to) {
                &&& cut(kids[at], after, lower(kids, at, from), upper(kids, at, to))
                &&& outs == if after.content().len() > 0 {
                    seq![after]
                } else {
                    Seq::<Node<T>>::empty()
                }
            } else {
                tidied(kids[at], after) && outs == seq![after]
            }
        }
}

/// Whether `parts` holds, for each of the siblings `kids`, what is left of
/// it when the bytes from `from` up to `to` are taken out of the text that
/// they cover together.
pub open spec fn all_cut<T>(
    kids: Seq<Node<T>>,
    parts: Seq<Seq<Node<T>>>,
    from: int,
    to: int,
) -> bool
    decreases seq_size(kids), 2nat,
{
    &&& parts.len() == kids.len()
    &&& forall|at: int| 0 <= at < kids.len() ==> cut_at(kids, at, #[trigger] parts[at], from, to)
}

/// Whether `parts` holds what is left of each of the first `upto` of the
/// siblings `kids`.
#[verifier::opaque]
spec fn cut_upto<T>(
    kids: Seq<Node<T>>,
    parts: Seq<Seq<Node<T>>>,
    upto: int,
    from: int,
    to: int,
) -> bool {
    &&& parts.len() == upto
    &&& forall|at: int| 0 <= at < upto ==> cut_at(kids, at, #[trigger] parts[at], from, to)
}

/// One more of the siblings has lost its part of the range.
proof fn lemma_cut_push<T>(
    kids: Seq<Node<T>>,
    parts: Seq<Seq<Node<T>>>,
    after: Node<T>,
    outs: Seq<Node<T>>,
    at: int,
    from: int,
    to: int,
)
    requires
        0 <= at < kids.len(),
        cut_upto(kids, parts, at, from, to),
        lower(kids, at, from) < upper(kids, at, to) ==> cut(
            kids[at],
            after,
            lower(kids, at, from),
            upper(kids, at, to),
        ) && outs == if after.content().len() > 0 {
            seq![after]
        } else {
            Seq::<Node<T>>::empty()
        },
        lower(kids, at, from) >= upper(kids, at, to) ==> tidied(kids[at], after) && outs
            == seq![after],
    ensures
        cut_upto(kids, parts.push(outs), at + 1, from, to),
        parts.push(outs).flatten() == parts.flatten() + outs,
        at + 1 == kids.len() ==> all_cut(kids, parts.push(outs), from, to),
{
    reveal(cut_upto);
    parts.lemma_flatten_push(outs);
    lemma_size_at(kids, at);
    assert(such(after));
    assert(cut_at(kids, at, outs, from, to));
    assert forall|j: int| 0 <= j < at + 1 implies cut_at(
        kids,
        j,
        #[trigger] parts.push(outs)[j],
        from,
        to,
    ) by {
        if j < at {
            assert(parts.push(outs)[j] == parts[j]);
        }
    }
}

/// What holds of the siblings `out` that are left of the siblings `list`
/// without the bytes from `from` up to `to`.
spec fn remove_list_holds<T>(
    list: Seq<Node<T>>,
    out: Seq<Node<T>>,
    from: int,
    to: int,
) -> bool {
    &&& seq_carried(out).subset_of(seq_carried(list))
    &&& all_pure(list) ==> all_pure(out)
    &&& all_canonical(out)
    &&& seq_content(out) == without(seq_content(list), from, to)
    &&& seq_marks(out) == without(seq_marks(list), from, to)
}

/// Takes the bytes from `from` up to `to` out of the nodes of `list`, and
/// leaves out each node that holds no text afterwards.
fn remove_list<T: PartialEq>(
    list: Vec<Node<T>>,
    from: usize,
    to: usize,
    journal: &mut Journal,
) -> (found: (Vec<Node<T>>, Ghost<Seq<Seq<Node<T>>>>))
    requires
        decides_equality::<T>(),
        from < to <= seq_content(list@).len() <= usize::MAX,
    ensures
        ({
            let out = found.0;
            let parts = found.1@;
            &&& out@ == parts.flatten()
            &&& list@.len() > 0 ==> all_cut(list@, parts, from as int, to as int)
            &&& remove_list_holds(list@, out@, from as int, to as int)
        }),
        grown(old(journal)@, final(journal)@),
    decreases list@,
{
    let ghost whole = list@;
    let ghost mut parts: Seq<Seq<Node<T>>> = Seq::empty();
    let mut out: Vec<Node<T>> = Vec::new();
    let mut offset: usize = 0;
    proof {
        assert(cut_upto(whole, parts, 0, from as int, to as int)) by {
            reveal(cut_upto);
        }
        lemma_seq_empty::<T>();
        lemma_carried_empty::<T>();
        assert(whole.take(0) =~= Seq::<Node<T>>::empty());
        assert(without(Seq::<u8>::empty(), from as int, to as int) =~= Seq::<u8>::empty());
        assert(without(Seq::<Set<T>>::empty(), from as int, to as int)
            =~= Seq::<Set<T>>::empty());
    }
    for kid in it: list
        invariant
            decides_equality::<T>(),
            it.seq() == whole,
            whole == list@,
            all_canonical(out@),
            from < to,
            grown(old(journal)@, journal@),
            seq_carried(out@).subset_of(seq_carried(whole.take(it.index() as int))),
            all_pure(whole.take(it.index() as int)) ==> all_pure(out@),
            offset == seq_content(whole.take(it.index() as int)).len(),
            seq_content(whole).len() <= usize::MAX,
            seq_content(out@) == without(
                seq_content(whole.take(it.index() as int)),
                from as int,
                to as int,
            ),
            seq_marks(out@) == without(
                seq_marks(whole.take(it.index() as int)),
                from as int,
                to as int,
            ),
            cut_upto(whole, parts, it.index() as int, from as int, to as int),
            out@ == parts.flatten(),
            it.index() > 0 && it.index() == whole.len() ==> all_cut(
                whole,
                parts,
                from as int,
                to as int,
            ),
    {
        let ghost at = it.index() as int;
        let ghost before = kid;
        proof {
            assert(kid == whole[at]);
            assert(whole.take(at + 1) =~= whole.take(at).push(kid));
            lemma_seq_push(whole.take(at), kid);
            assert(whole =~= whole.take(at + 1) + whole.skip(at + 1));
            lemma_seq_concat(whole.take(at + 1), whole.skip(at + 1));
        }
        let mut kid = kid;
        let length = kid.length();
        let lo = if from > offset {
            from
        } else {
            offset
        };
        let hi = if to < offset + length {
            to
        } else {
            offset + length
        };
        proof {
            lemma_without_last(
                whole.take(at),
                before,
                from as int,
                to as int,
                lo - offset,
                hi - offset,
            );
            lemma_without_clamp(before.content(), lo - offset, hi - offset);
            lemma_without_clamp(before.marks(), lo - offset, hi - offset);
            before.lemma_marks_len();
            lemma_carried_push(whole.take(at), before);
        }
        let ghost early = out@;
        let ghost mut after = kid;
        if lo < hi {
            kid.remove_range(lo - offset, hi - offset, journal);
            proof {
                kid.lemma_marks_len();
                after = kid;
            }
            if kid.length() > 0 {
                proof {
                    lemma_seq_push(out@, kid);
                    lemma_carried_push(out@, kid);
                }
                out.push(kid);
            } else {
                proof {
                    assert(seq_content(out@) + kid.content() =~= seq_content(out@));
                    assert(seq_marks(out@) + kid.marks() =~= seq_marks(out@));
                }
            }
        } else {
            kid.purge_none(journal);
            proof {
                lemma_seq_push(out@, kid);
                lemma_carried_push(out@, kid);
                after = kid;
            }
            out.push(kid);
        }
        proof {
            let outs = out@.skip(early.len() as int);
            assert(out@ =~= early + outs);
            assert(begin(whole, at) == offset);
            if lo < hi && after.content().len() == 0 {
                assert(outs =~= Seq::<Node<T>>::empty());
            } else {
                assert(outs =~= seq![after]);
            }
            lemma_cut_push(whole, parts, after, outs, at, from as int, to as int);
            parts = parts.push(outs);
        }
        offset = offset + length;
    }
    proof {
        assert(whole.take(whole.len() as int) =~= whole);
    }
    (out, Ghost(parts))
}

impl<T: PartialEq> Node<T> {
    /// Takes the bytes from `from` up to `to` out of the text that the node
    /// covers, and says whether the node became a leaf by taking over its
    /// only child.
    pub(crate) fn remove_range(
        &mut self,
        from: usize,
        to: usize,
        journal: &mut Journal,
    ) -> (merged: bool)
        requires
            decides_equality::<T>(),
            from < to <= old(self).content().len() <= usize::MAX,
        ensures
            grown(old(journal)@, final(journal)@),
            removed(*old(self), *final(self), from as int, to as int),
            cut(*old(self), *final(self), from as int, to as int),
            merged == (!old(self).leaf() && final(self).leaf() && final(self).content().len() > 0),
        decreases *old(self),
    {
        proof {
            self.lemma_content();
            self.lemma_marks();
            self.lemma_carried();
            self.lemma_pure();
            self.lemma_size();
        }
        if self.children.len() == 0 {
            let mut tail = self.text.split_off(to);
            self.text.truncate(from);
            self.text.append(&mut tail);
            if self.text.len() > 0 {
                journal.text_changed(&self.id);
            }
            proof {
                self.lemma_content();
                self.lemma_marks();
                self.lemma_canonical();
                self.lemma_carried();
                self.lemma_pure();
                assert(self.content() =~= without(old(self).content(), from as int, to as int));
                assert(self.marks() =~= without(old(self).marks(), from as int, to as int));
            }
            false
        } else {
            let ids = self.kid_ids();
            let kids = self.take_kids();
            let ghost whole = kids@;
            let (kids, Ghost(parts)) = remove_list(kids, from, to, journal);
            let merged = self.install(ids, kids, journal);
            proof {
                assert(such(parts));
                lemma_without_widen(seq_marks(whole), old(self).own(), from as int, to as int);
            }
            merged
        }
    }

    /// Takes `count` bytes from the byte `idx` on out of the text that the
    /// node covers, or as many as there are from there on. The first result
    /// says whether the node holds no text afterwards, the second whether it
    /// became a leaf by taking over the only child that was left to it.
    pub fn remove(&mut self, idx: usize, count: usize) -> (gone: (bool, bool))
        requires
            decides_equality::<T>(),
            old(self).content().len() <= usize::MAX,
        ensures
            removed(*old(self), *final(self), idx as int, idx + count),
            gone.0 == (final(self).content().len() == 0),
            gone.1 == (!old(self).leaf() && final(self).leaf() && !gone.0),
    {
        let mut scratch = Journal::new();
        self.remove_logged(idx, count, &mut scratch)
    }

    /// Takes bytes out of the text as `remove` does, and records the
    /// changes.
    pub(crate) fn remove_logged(
        &mut self,
        idx: usize,
        count: usize,
        journal: &mut Journal,
    ) -> (gone: (bool, bool))
        requires
            decides_equality::<T>(),
            old(self).content().len() <= usize::MAX,
        ensures
            grown(old(journal)@, final(journal)@),
            removed(*old(self), *final(self), idx as int, idx + count),
            gone.0 == (final(self).content().len() == 0),
            gone.1 == (!old(self).leaf() && final(self).leaf() && !gone.0),
    {
        let length = self.length();
        proof {
            self.lemma_marks_len();
            lemma_without_clamp(self.content(), idx as int, idx + count);
            lemma_without_clamp(self.marks(), idx as int, idx + count);
        }
        if idx >= length || count == 0 {
            let merged = self.purge_none(journal);
            (length == 0, merged)
        } else {
            let to = if count > length - idx {
                length
            } else {
                idx + count
            };
            let merged = self.remove_range(idx, to, journal);
            (self.length() == 0, merged)
        }
    }
}

/// What `Node::remove` leaves behind: the subtree without the bytes from
/// `from` up to `to`, as far as it holds them, arranged as `cut` says; or,
/// where it holds none of them, brought into canonical arrangement. It
/// covers the text and the attributes of its bytes without those of the
/// range.
pub open spec fn removed<T>(before: Node<T>, after: Node<T>, from: int, to: int) -> bool {
    &&& if from < to && from < before.content().len() {
        cut(before, after, from, if to < before.content().len() {
            to
        } else {
            before.content().len() as int
        })
    } else {
        tidied(before, after)
    }
    &&& after.canonical()
    &&& after.content() == without(before.content(), from, to)
    &&& after.marks() == without(before.marks(), from, to)
    &&& after.at_root() == before.at_root()
    &&& after.ident() == before.ident()
    &&& after.carried().subset_of(before.carried())
    &&& before.pure() ==> after.pure()
}

} // verus!
