//! Taking an attribute off a whole subtree, and putting a subtree in order.

use crate::attrs::decides_equality;
use crate::canon::{
    all_canonical, all_pure, lemma_carried_empty, lemma_carried_push, lemma_seq_alike_same,
    lone_leaf, seq_alike, seq_carried, settled,
};
use crate::change::{Journal, grown};
use crate::marks::erase;
use crate::node::{
    Node, lemma_seq_empty, lemma_seq_push, lemma_size_at, seq_content, seq_marks, seq_size,
    seq_weight, widen,
};
use crate::settle::{installed, stripped, such};
use vstd::prelude::*;

verus! {

broadcast use Node::lemma_parts;

/// `marks` with `attr` taken from every byte.
pub open spec fn erase_all<T>(marks: Seq<Set<T>>, attr: T) -> Seq<Set<T>> {
    erase(marks, 0, marks.len() as int, attr)
}

/// Whether no node of `list` or below it carries `attr`.
pub open spec fn all_absent<T>(list: Seq<Node<T>>, attr: T) -> bool {
    forall|i: int| 0 <= i < list.len() ==> (#[trigger] list[i]).absent(attr)
}

/// Whether `after` is the subtree `before` with `attr` taken off every
/// node of it: a leaf loses the attribute; an inner node loses it, and its
/// children, which have lost it below them in the same way, are brought into
/// canonical arrangement again.
pub open spec fn purged<T>(before: Node<T>, after: Node<T>, attr: T) -> bool
    decreases before.size(), 0nat,
{
    if before.leaf() {
        stripped(before, after, attr)
    } else {
        exists|bare: Node<T>, mid: Seq<Node<T>>|
            {
                &&& #[trigger] stripped(before, bare, attr) && #[trigger] such(mid)
                &&& seq_size(before.kids()) < before.size()
                &&& all_purged(before.kids(), mid, attr)
                &&& installed(bare, mid, after)
            }
    }
}

/// Whether `out` holds the subtrees of `list`, each with `attr` taken off
/// every node of it.
pub open spec fn all_purged<T>(list: Seq<Node<T>>, out: Seq<Node<T>>, attr: T) -> bool
    decreases seq_size(list), 1nat,
{
    &&& out.len() == list.len()
    &&& forall|i: int|
        0 <= i < list.len() ==> (#[trigger] list[i]).size() <= seq_size(list) && purged(
            list[i],
            out[i],
            attr,
        )
}

/// A list of subtrees without the attribute stays one with one more such
/// subtree behind it.
pub proof fn lemma_all_purged_push<T>(
    list: Seq<Node<T>>,
    out: Seq<Node<T>>,
    before: Node<T>,
    after: Node<T>,
    attr: T,
)
    requires
        all_purged(list, out, attr),
        purged(before, after, attr),
    ensures
        all_purged(list.push(before), out.push(after), attr),
{
    let x = list.push(before);
    let y = out.push(after);
    assert forall|i: int| 0 <= i < x.len() implies (#[trigger] x[i]).size() <= seq_size(x)
        && purged(x[i], y[i], attr) by {
        lemma_size_at(x, i);
        if i < list.len() {
            assert(purged(list[i], out[i], attr));
        }
    }
}

/// Takes `attr` off every node of `list` and every node below them.
pub(crate) fn purge_all<T: PartialEq>(
    list: Vec<Node<T>>,
    attr: &T,
    journal: &mut Journal,
) -> (out: Vec<Node<T>>)
    requires
        decides_equality::<T>(),
    ensures
        grown(old(journal)@, final(journal)@),
        seq_carried(out@).subset_of(seq_carried(list@).remove(*attr)),
        all_pure(list@) ==> all_pure(out@),
        all_canonical(out@),
        seq_content(out@) == seq_content(list@),
        seq_marks(out@) == erase_all(seq_marks(list@), *attr),
        seq_weight(out@) <= seq_weight(list@),
        all_canonical(list@) && all_absent(list@, *attr) ==> seq_alike(list@, out@),
        all_purged(list@, out@, *attr),
    decreases list@,
{
    let ghost whole = list@;
    let mut out: Vec<Node<T>> = Vec::new();
    proof {
        lemma_seq_empty::<T>();
        lemma_carried_empty::<T>();
        assert(whole.take(0) =~= Seq::<Node<T>>::empty());
        assert(erase_all(Seq::<Set<T>>::empty(), *attr) =~= Seq::<Set<T>>::empty());
    }
    for kid in it: list
        invariant
            decides_equality::<T>(),
            it.seq() == whole,
            whole == list@,
            grown(old(journal)@, journal@),
            seq_carried(out@).subset_of(seq_carried(whole.take(it.index() as int)).remove(*attr)),
            all_pure(whole.take(it.index() as int)) ==> all_pure(out@),
            all_canonical(out@),
            all_canonical(whole) && all_absent(whole, *attr) ==> seq_alike(
                whole.take(it.index() as int),
                out@,
            ),
            seq_content(out@) == seq_content(whole.take(it.index() as int)),
            seq_marks(out@) == erase_all(seq_marks(whole.take(it.index() as int)), *attr),
            seq_weight(out@) <= seq_weight(whole.take(it.index() as int)),
            all_purged(whole.take(it.index() as int), out@, *attr),
    {
        let ghost at = it.index() as int;
        let ghost before = kid;
        let mut kid = kid;
        proof {
            assert(before == whole[at]);
        }
        kid.purge(attr, journal);
        proof {
            assert(whole.take(at + 1) =~= whole.take(at).push(before));
            lemma_seq_push(whole.take(at), before);
            lemma_seq_push(out@, kid);
            assert(erase_all(seq_marks(whole.take(at)) + before.marks(), *attr) =~= erase_all(
                seq_marks(whole.take(at)),
                *attr,
            ) + erase_all(before.marks(), *attr));
            if all_canonical(whole) && all_absent(whole, *attr) {
                lemma_seq_alike_push(whole.take(at), out@, before, kid);
            }
            lemma_carried_push(whole.take(at), before);
            lemma_carried_push(out@, kid);
            lemma_all_purged_push(whole.take(at), out@, before, kid, *attr);
        }
        out.push(kid);
    }
    assert(whole.take(whole.len() as int) =~= whole);
    out
}

impl<T: PartialEq> Node<T> {
    /// Takes `attr` off this node and every node below it, and brings what
    /// is left into canonical arrangement.
    pub(crate) fn purge(&mut self, attr: &T, journal: &mut Journal)
        requires
            decides_equality::<T>(),
        ensures
            grown(old(journal)@, final(journal)@),
            final(self).carried().subset_of(old(self).carried().remove(*attr)),
            old(self).pure() ==> final(self).pure(),
            old(self).own().remove(*attr).subset_of(final(self).own()),
            final(self).canonical(),
            final(self).content() == old(self).content(),
            final(self).marks() == erase_all(old(self).marks(), *attr),
            final(self).weight() <= old(self).weight(),
            final(self).at_root() == old(self).at_root(),
            final(self).ident() == old(self).ident(),
            old(self).canonical() && old(self).absent(*attr) ==> old(self).alike(*final(self)),
            purged(*old(self), *final(self), *attr),
        decreases *old(self),
    {
        proof {
            self.lemma_content();
            self.lemma_marks();
            self.lemma_weight();
            self.lemma_size();
            self.lemma_absent(*attr);
            self.lemma_canonical();
            self.lemma_alike_refl();
        }
        if self.attrs.remove(attr).is_some() {
            journal.attributes_changed(&self.id);
        }
        let ghost bare = *self;
        proof {
            old(self).lemma_recarried(*self);
            assert(stripped(*old(self), bare, *attr));
        }
        if self.children.len() == 0 {
            proof {
                self.lemma_content();
                self.lemma_marks();
                self.lemma_weight();
                self.lemma_canonical();
                lemma_carried_empty::<T>();
                assert(self.kids() =~= Seq::<Node<T>>::empty());
                assert(self.marks() =~= erase_all(old(self).marks(), *attr));
            }
        } else {
            let ids = self.kid_ids();
            let kids = self.take_kids();
            let ghost whole = kids@;
            let out = purge_all(kids, attr, journal);
            let ghost built = out@;
            let ghost own = self.own();
            proof {
                if old(self).canonical() && old(self).absent(*attr) {
                    lemma_seq_alike_same(whole, built);
                }
            }
            self.install(ids, out, journal);
            proof {
                assert(such(built));
                if old(self).canonical() && old(self).absent(*attr) {
                    lemma_rebuilt(*old(self), *self, built);
                }
                let below = seq_marks(whole);
                assert(widen(erase_all(below, *attr), own) =~= erase_all(
                    widen(below, old(self).own()),
                    *attr,
                )) by {
                    assert forall|i: int| 0 <= i < below.len() implies widen(
                        erase_all(below, *attr),
                        own,
                    )[i] == erase_all(widen(below, old(self).own()), *attr)[i] by {
                        assert(below[i].remove(*attr).union(own) =~= below[i].union(
                            old(self).own(),
                        ).remove(*attr));
                    }
                }
            }
        }
    }
}

/// Two lists that hold the same trees still do so with one more pair of
/// the same trees behind them.
pub(crate) proof fn lemma_seq_alike_push<T>(
    x: Seq<Node<T>>,
    y: Seq<Node<T>>,
    a: Node<T>,
    b: Node<T>,
)
    requires
        seq_alike(x, y),
        a.alike(b),
    ensures
        seq_alike(x.push(a), y.push(b)),
{
    assert forall|i: int| 0 <= i < x.push(a).len() implies (#[trigger] x.push(a)[i]).alike(
        y.push(b)[i],
    ) by {
        if i < x.len() {
            assert(x[i].alike(y[i]));
        }
    }
}

/// An inner node in canonical arrangement is the same tree after its
/// children were taken out, found to be the same trees, brought into
/// canonical arrangement and put back.
pub(crate) proof fn lemma_rebuilt<T>(before: Node<T>, after: Node<T>, out: Seq<Node<T>>)
    requires
        before.canonical(),
        seq_alike(before.kids(), out),
        settled(out) && !lone_leaf(out) ==> after.kids() == out && after.own_order()
            == before.own_order(),
        after.at_root() == before.at_root(),
        after.ident() == before.ident(),
        !before.leaf(),
    ensures
        before.alike(after),
        settled(out),
{
    before.lemma_canonical();
    lemma_seq_alike_same(before.kids(), out);
    assert(settled(out) && !lone_leaf(out));
    before.lemma_alike(after);
}

/// Whether `after` is the subtree `before` brought into canonical
/// arrangement: a leaf stays as it is; the children of an inner node, each
/// brought into canonical arrangement below itself, are brought into
/// canonical arrangement and made its children again.
pub open spec fn tidied<T>(before: Node<T>, after: Node<T>) -> bool
    decreases before.size(), 0nat,
{
    if before.leaf() {
        after == before
    } else {
        exists|mid: Seq<Node<T>>|
            {
                &&& #[trigger] such(mid)
                &&& seq_size(before.kids()) < before.size()
                &&& all_tidied(before.kids(), mid)
                &&& installed(before, mid, after)
            }
    }
}

/// Whether `out` holds the subtrees of `list`, each brought into canonical
/// arrangement.
pub open spec fn all_tidied<T>(list: Seq<Node<T>>, out: Seq<Node<T>>) -> bool
    decreases seq_size(list), 1nat,
{
    &&& out.len() == list.len()
    &&& forall|i: int|
        0 <= i < list.len() ==> (#[trigger] list[i]).size() <= seq_size(list) && tidied(
            list[i],
            out[i],
        )
}

/// A list of subtrees in canonical arrangement stays one with one more
/// such subtree behind it.
pub proof fn lemma_all_tidied_push<T>(
    list: Seq<Node<T>>,
    out: Seq<Node<T>>,
    before: Node<T>,
    after: Node<T>,
)
    requires
        all_tidied(list, out),
        tidied(before, after),
    ensures
        all_tidied(list.push(before), out.push(after)),
{
    let x = list.push(before);
    let y = out.push(after);
    assert forall|i: int| 0 <= i < x.len() implies (#[trigger] x[i]).size() <= seq_size(x)
        && tidied(x[i], y[i]) by {
        lemma_size_at(x, i);
        if i < list.len() {
            assert(tidied(list[i], out[i]));
        }
    }
}

impl<T: PartialEq> Node<T> {
    /// Brings the subtree, in which each node's children may stand in any
    /// arrangement, into canonical arrangement.
    pub(crate) fn purge_none(&mut self, journal: &mut Journal) -> (merged: bool)
        requires
            decides_equality::<T>(),
        ensures
            merged == (!old(self).leaf() && final(self).leaf() && final(self).content().len() > 0),
            grown(old(journal)@, final(journal)@),
            final(self).carried().subset_of(old(self).carried()),
            old(self).pure() ==> final(self).pure(),
            final(self).canonical(),
            final(self).content() == old(self).content(),
            final(self).marks() == old(self).marks(),
            final(self).at_root() == old(self).at_root(),
            final(self).ident() == old(self).ident(),
            old(self).canonical() ==> old(self).alike(*final(self)),
            tidied(*old(self), *final(self)),
        decreases *old(self),
    {
        proof {
            self.lemma_content();
            self.lemma_marks();
            self.lemma_size();
            self.lemma_canonical();
            self.lemma_alike_refl();
            self.lemma_carried();
            self.lemma_pure();
        }
        if self.children.len() > 0 {
            let ids = self.kid_ids();
            let kids = self.take_kids();
            let ghost whole = kids@;
            let mut out: Vec<Node<T>> = Vec::new();
            proof {
                lemma_seq_empty::<T>();
                lemma_carried_empty::<T>();
                assert(whole.take(0) =~= Seq::<Node<T>>::empty());
            }
            for kid in it: kids
                invariant
                    decides_equality::<T>(),
                    it.seq() == whole,
                    whole == old(self).children@,
                    grown(old(journal)@, journal@),
                    seq_carried(out@).subset_of(seq_carried(whole.take(it.index() as int))),
                    all_pure(whole.take(it.index() as int)) ==> all_pure(out@),
                    all_canonical(out@),
                    all_canonical(whole) ==> seq_alike(whole.take(it.index() as int), out@),
                    seq_content(out@) == seq_content(whole.take(it.index() as int)),
                    seq_marks(out@) == seq_marks(whole.take(it.index() as int)),
                    all_tidied(whole.take(it.index() as int), out@),
            {
                let ghost at = it.index() as int;
                let ghost before = kid;
                let mut kid = kid;
                proof {
                    assert(before == whole[at]);
                }
                kid.purge_none(journal);
                proof {
                    assert(whole.take(at + 1) =~= whole.take(at).push(before));
                    lemma_seq_push(whole.take(at), before);
                    lemma_seq_push(out@, kid);
                    lemma_carried_push(whole.take(at), before);
                    lemma_carried_push(out@, kid);
                    if all_canonical(whole) {
                        lemma_seq_alike_push(whole.take(at), out@, before, kid);
                    }
                    lemma_all_tidied_push(whole.take(at), out@, before, kid);
                }
                out.push(kid);
            }
            assert(whole.take(whole.len() as int) =~= whole);
            let ghost built = out@;
            proof {
                if old(self).canonical() {
                    lemma_seq_alike_same(whole, built);
                }
            }
            let merged = self.install(ids, out, journal);
            proof {
                assert(such(built));
                if old(self).canonical() {
                    lemma_rebuilt(*old(self), *self, built);
                }
            }
            merged
        } else {
            false
        }
    }
}

} // verus!
