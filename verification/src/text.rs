//! Putting text into the tree. The arrangement of the nodes stays as it is:
//! one leaf takes the text in.

use crate::change::{Change, Journal};
use crate::node::{
    Node, begin, lemma_seq_at, lemma_seq_empty, lemma_seq_marks_len, lemma_size_at, seq_content,
    seq_marks,
};
use vstd::prelude::*;
use vstd::string::*;
use vstd::utf8::encode_utf8;

verus! {

broadcast use Node::lemma_parts;

/// Writes `ch` in UTF-8 with `char::encode_utf8`.
#[verifier::external_body]
fn char_bytes(ch: char) -> (out: Vec<u8>)
    ensures
        out@ == encode_utf8(seq![ch]),
{
    let mut buffer = [0u8; 4];
    ch.encode_utf8(&mut buffer).as_bytes().to_vec()
}

/// `count` times the set `marks`.
pub open spec fn fill<T>(count: nat, marks: Set<T>) -> Seq<Set<T>> {
    Seq::new(count, |i: int| marks)
}

/// Whether the `at`-th of the siblings `kids` is the first of them that
/// reaches as far as the byte `idx` of the text that they cover together.
pub open spec fn reaches<T>(kids: Seq<Node<T>>, at: int, idx: int) -> bool {
    &&& 0 <= at < kids.len()
    &&& idx <= begin(kids, at) + kids[at].content().len()
    &&& at > 0 ==> begin(kids, at) < idx
}

/// Whether `after` is the subtree `before` with `bytes` in its text at the
/// byte `idx`: in the text of a leaf, and below an inner node in the first
/// child that reaches as far as `idx`, with all else as it was.
pub open spec fn taken_in<T>(before: Node<T>, after: Node<T>, idx: int, bytes: Seq<u8>) -> bool
    decreases before.size(),
{
    &&& after.own_order() == before.own_order()
    &&& after.ident() == before.ident()
    &&& after.at_root() == before.at_root()
    &&& if before.leaf() {
        &&& after.leaf()
        &&& after.fragment() == before.fragment().take(idx) + bytes + before.fragment().skip(idx)
    } else {
        &&& after.fragment() == before.fragment()
        &&& exists|at: int|
            {
                &&& #[trigger] reaches(before.kids(), at, idx)
                &&& after.kids() == before.kids().update(at, after.kids()[at])
                &&& before.kids()[at].size() < before.size()
                &&& taken_in(
                    before.kids()[at],
                    after.kids()[at],
                    idx - begin(before.kids(), at),
                    bytes,
                )
            }
    }
}

/// Whether `after` is the subtree `before` with `bytes` at the end of its
/// text: behind the text of a leaf, and below an inner node in the last
/// child, with all else as it was.
pub open spec fn taken_last<T>(before: Node<T>, after: Node<T>, bytes: Seq<u8>) -> bool
    decreases before.size(),
{
    &&& after.own_order() == before.own_order()
    &&& after.ident() == before.ident()
    &&& after.at_root() == before.at_root()
    &&& if before.leaf() {
        &&& after.leaf()
        &&& after.fragment() == before.fragment() + bytes
    } else {
        &&& after.fragment() == before.fragment()
        &&& after.kids() == before.kids().update(
            before.kids().len() - 1,
            after.kids()[before.kids().len() - 1],
        )
        &&& before.kids()[before.kids().len() - 1].size() < before.size()
        &&& taken_last(
            before.kids()[before.kids().len() - 1],
            after.kids()[before.kids().len() - 1],
            bytes,
        )
    }
}

/// What putting `bytes` in at the byte `idx` makes of the node `before`:
/// the subtree as `taken_in` says. It covers the text with the bytes in it,
/// which carry the attributes of the leaf that took them in, on the same
/// arrangement of nodes.
pub open spec fn inserted<T>(before: Node<T>, after: Node<T>, idx: int, bytes: Seq<u8>) -> bool {
    &&& taken_in(before, after, idx, bytes)
    &&& after.content() == before.content().take(idx) + bytes + before.content().skip(idx)
    &&& after.marks() == before.marks().take(idx) + fill(bytes.len(), before.marks_before(idx))
        + before.marks().skip(idx)
    &&& before.same_frame(after)
}

/// What putting `bytes` at the end makes of the node `before`: the subtree
/// as `taken_last` says. It covers the text with the bytes behind it, which
/// carry the attributes of the last leaf, on the same arrangement of nodes.
pub open spec fn pushed<T>(before: Node<T>, after: Node<T>, bytes: Seq<u8>) -> bool {
    &&& taken_last(before, after, bytes)
    &&& after.content() == before.content() + bytes
    &&& after.marks() == before.marks() + fill(bytes.len(), before.tail_marks())
    &&& before.same_frame(after)
}

/// A leaf that takes bytes in.
proof fn lemma_inserted_leaf<T>(before: Node<T>, after: Node<T>, idx: int, bytes: Seq<u8>)
    requires
        before.leaf(),
        after.leaf(),
        0 <= idx <= before.fragment().len(),
        after.fragment() == before.fragment().take(idx) + bytes + before.fragment().skip(idx),
        after.own_order() == before.own_order(),
        after.own() == before.own(),
        after.at_root() == before.at_root(),
        after.ident() == before.ident(),
    ensures
        inserted(before, after, idx, bytes),
{
    before.lemma_content();
    after.lemma_content();
    before.lemma_marks();
    after.lemma_marks();
    before.lemma_lead_marks();
    before.lemma_same_frame(after);
    assert(after.marks() =~= before.marks().take(idx) + fill(
        bytes.len(),
        before.marks_before(idx),
    ) + before.marks().skip(idx));
}

/// An inner node whose child at `at` takes bytes in.
proof fn lemma_inserted_inner<T>(
    before: Node<T>,
    after: Node<T>,
    at: int,
    idx: int,
    bytes: Seq<u8>,
)
    requires
        0 <= at < before.kids().len(),
        after.kids() == before.kids().update(at, after.kids()[at]),
        after.own_order() == before.own_order(),
        after.own() == before.own(),
        after.at_root() == before.at_root(),
        after.ident() == before.ident(),
        after.fragment() == before.fragment(),
        seq_content(before.kids().take(at)).len() <= idx <= seq_content(
            before.kids().take(at),
        ).len() + before.kids()[at].content().len(),
        at > 0 ==> seq_content(before.kids().take(at)).len() < idx,
        inserted(
            before.kids()[at],
            after.kids()[at],
            idx - seq_content(before.kids().take(at)).len(),
            bytes,
        ),
    ensures
        inserted(before, after, idx, bytes),
{
    let kids = before.kids();
    let now = after.kids();
    let kid = kids[at];
    let own = before.own();
    let offset = seq_content(kids.take(at)).len() as int;
    let here = idx - offset;
    before.lemma_size();
    lemma_size_at(kids, at);
    assert(reaches(kids, at, idx));
    before.lemma_content();
    after.lemma_content();
    before.lemma_marks();
    after.lemma_marks();
    before.lemma_lead_marks();
    assert(now.take(at) =~= kids.take(at));
    assert(now.skip(at + 1) =~= kids.skip(at + 1));
    lemma_seq_at(kids, at);
    lemma_seq_at(now, at);
    lemma_seq_marks_len(kids.take(at));
    lemma_seq_marks_len(kids);
    kid.lemma_marks_len();
    let whole = seq_content(kids);
    let below = seq_marks(kids);
    assert(after.content() =~= whole.take(idx) + bytes + whole.skip(idx));
    let fresh = kid.marks_before(here).union(own);
    assert(fresh == before.marks_before(idx)) by {
        if here > 0 {
            assert(below[idx - 1] == kid.marks()[here - 1]);
        } else {
            assert(at == 0);
        }
    }
    assert(after.marks() =~= before.marks().take(idx) + fill(bytes.len(), fresh)
        + before.marks().skip(idx));
    assert forall|j: int| 0 <= j < kids.len() implies (#[trigger] kids[j]).same_frame(now[j]) by {
        if j != at {
            kids[j].lemma_same_frame_refl();
        }
    }
    before.lemma_same_frame(after);
}

/// A leaf that takes bytes at its end.
proof fn lemma_pushed_leaf<T>(before: Node<T>, after: Node<T>, bytes: Seq<u8>)
    requires
        before.leaf(),
        after.leaf(),
        after.fragment() == before.fragment() + bytes,
        after.own_order() == before.own_order(),
        after.own() == before.own(),
        after.at_root() == before.at_root(),
        after.ident() == before.ident(),
    ensures
        pushed(before, after, bytes),
{
    before.lemma_content();
    after.lemma_content();
    before.lemma_marks();
    after.lemma_marks();
    before.lemma_tail_marks();
    before.lemma_same_frame(after);
    assert(after.marks() =~= before.marks() + fill(bytes.len(), before.tail_marks()));
}

/// An inner node whose last child takes bytes at its end.
proof fn lemma_pushed_inner<T>(before: Node<T>, after: Node<T>, bytes: Seq<u8>)
    requires
        before.kids().len() > 0,
        after.kids() == before.kids().update(
            before.kids().len() - 1,
            after.kids()[before.kids().len() - 1],
        ),
        after.own_order() == before.own_order(),
        after.own() == before.own(),
        after.at_root() == before.at_root(),
        after.ident() == before.ident(),
        after.fragment() == before.fragment(),
        pushed(
            before.kids()[before.kids().len() - 1],
            after.kids()[before.kids().len() - 1],
            bytes,
        ),
    ensures
        pushed(before, after, bytes),
{
    let kids = before.kids();
    let now = after.kids();
    let n = kids.len() as int;
    before.lemma_size();
    lemma_size_at(kids, n - 1);
    before.lemma_content();
    after.lemma_content();
    before.lemma_marks();
    after.lemma_marks();
    before.lemma_tail_marks();
    assert(now.take(n - 1) =~= kids.take(n - 1));
    assert(now.skip(n) =~= kids.skip(n));
    assert(kids.skip(n) =~= Seq::<Node<T>>::empty());
    lemma_seq_empty::<T>();
    lemma_seq_at(kids, n - 1);
    lemma_seq_at(now, n - 1);
    assert(after.content() =~= before.content() + bytes);
    assert(after.marks() =~= before.marks() + fill(bytes.len(), before.tail_marks()));
    assert forall|j: int| 0 <= j < kids.len() implies (#[trigger] kids[j]).same_frame(now[j]) by {
        if j != n - 1 {
            kids[j].lemma_same_frame_refl();
        }
    }
    before.lemma_same_frame(after);
}

impl<T> Node<T> {
    /// Puts `bytes` into the text at `idx`, in the first leaf that reaches as
    /// far as `idx`.
    pub(crate) fn insert_bytes(&mut self, idx: usize, bytes: &Vec<u8>, journal: &mut Journal)
        requires
            idx <= old(self).content().len(),
            old(self).content().len() + bytes@.len() <= usize::MAX,
        ensures
            inserted(*old(self), *final(self), idx as int, bytes@),
            final(journal)@ == old(journal)@.push(
                Change::TextChanged { node: old(self).taker(idx as int) },
            ),
        decreases *old(self),
    {
        proof {
            self.lemma_content();
            self.lemma_taker(idx as int);
        }
        if self.children.len() == 0 {
            let mut tail = self.text.split_off(idx);
            self.text.extend_from_slice(bytes.as_slice());
            self.text.append(&mut tail);
            journal.text_changed(&self.id);
            proof {
                assert(self.text@ =~= old(self).text@.take(idx as int) + bytes@ + old(
                    self,
                ).text@.skip(idx as int));
                lemma_inserted_leaf(*old(self), *self, idx as int, bytes@);
            }
        } else {
            let ghost kids = self.children@;
            let ghost whole = seq_content(kids);
            let mut offset: usize = 0;
            let mut i: usize = 0;
            proof {
                lemma_seq_empty::<T>();
                assert(kids.take(0) =~= Seq::<Node<T>>::empty());
            }
            while i < self.children.len()
                invariant_except_break
                    self.children@ == kids,
                    *self == *old(self),
                    i < kids.len(),
                    offset == seq_content(kids.take(i as int)).len(),
                    offset <= idx <= whole.len(),
                    i > 0 ==> offset < idx,
                    *journal == *old(journal),
                    old(self).taker_from(idx as int, i as nat) == old(self).taker(idx as int),
                invariant
                    whole == seq_content(kids),
                    kids == old(self).kids(),
                    whole.len() + bytes@.len() <= usize::MAX,
                    kids.len() > 0,
                ensures
                    inserted(*old(self), *self, idx as int, bytes@),
                    journal@ == old(journal)@.push(
                        Change::TextChanged { node: old(self).taker(idx as int) },
                    ),
                decreases kids.len() - i,
            {
                proof {
                    lemma_seq_at(kids, i as int);
                    if i == kids.len() - 1 {
                        assert(kids.skip(i + 1) =~= Seq::<Node<T>>::empty());
                    }
                    old(self).lemma_taker_from(idx as int, i as nat);
                }
                let length = self.children[i].length();
                if idx <= offset + length {
                    self.children[i].insert_bytes(idx - offset, bytes, journal);
                    proof {
                        assert(self.children@ =~= kids.update(i as int, self.children@[i as int]));
                        lemma_inserted_inner(*old(self), *self, i as int, idx as int, bytes@);
                    }
                    break ;
                }
                offset = offset + length;
                i = i + 1;
                proof {
                    assert(i < kids.len());
                }
            }
        }
    }

    /// Puts `bytes` at the end of the text, in the last leaf.
    pub(crate) fn push_bytes(&mut self, bytes: &Vec<u8>, journal: &mut Journal)
        requires
            old(self).content().len() + bytes@.len() <= usize::MAX,
        ensures
            pushed(*old(self), *final(self), bytes@),
            final(journal)@ == old(journal)@.push(
                Change::TextChanged { node: old(self).last_leaf() },
            ),
        decreases *old(self),
    {
        proof {
            self.lemma_content();
            self.lemma_last_leaf();
        }
        let n = self.children.len();
        if n == 0 {
            self.text.extend_from_slice(bytes.as_slice());
            journal.text_changed(&self.id);
            proof {
                assert(self.text@ =~= old(self).text@ + bytes@);
                lemma_pushed_leaf(*old(self), *self, bytes@);
            }
        } else {
            let ghost kids = self.children@;
            proof {
                lemma_seq_at(kids, n - 1);
                assert(kids.skip(n as int) =~= Seq::<Node<T>>::empty());
                lemma_seq_empty::<T>();
            }
            self.children[n - 1].push_bytes(bytes, journal);
            proof {
                assert(self.children@ =~= kids.update(n - 1, self.children@[n - 1]));
                lemma_pushed_inner(*old(self), *self, bytes@);
            }
        }
    }

    /// Puts `ch` into the text at the byte `idx`, in the first leaf that
    /// reaches as far as `idx`.
    pub fn insert(&mut self, idx: usize, ch: char)
        requires
            idx <= old(self).content().len(),
            old(self).content().len() + encode_utf8(seq![ch]).len() <= usize::MAX,
        ensures
            inserted(*old(self), *final(self), idx as int, encode_utf8(seq![ch])),
    {
        let bytes = char_bytes(ch);
        let mut scratch = Journal::new();
        self.insert_bytes(idx, &bytes, &mut scratch);
    }

    /// Puts `string` into the text at the byte `idx`, in the first leaf that
    /// reaches as far as `idx`.
    pub fn insert_str(&mut self, idx: usize, string: &str)
        requires
            idx <= old(self).content().len(),
            old(self).content().len() + encode_utf8(string@).len() <= usize::MAX,
        ensures
            inserted(*old(self), *final(self), idx as int, encode_utf8(string@)),
    {
        let bytes = string.as_bytes_vec();
        let mut scratch = Journal::new();
        self.insert_bytes(idx, &bytes, &mut scratch);
    }

    /// Puts `ch` at the end of the text, in the last leaf.
    pub fn push(&mut self, ch: char)
        requires
            old(self).content().len() + encode_utf8(seq![ch]).len() <= usize::MAX,
        ensures
            pushed(*old(self), *final(self), encode_utf8(seq![ch])),
    {
        let bytes = char_bytes(ch);
        let mut scratch = Journal::new();
        self.push_bytes(&bytes, &mut scratch);
    }

    /// Puts `string` at the end of the text, in the last leaf.
    pub fn push_str(&mut self, string: &str)
        requires
            old(self).content().len() + encode_utf8(string@).len() <= usize::MAX,
        ensures
            pushed(*old(self), *final(self), encode_utf8(string@)),
    {
        let bytes = string.as_bytes_vec();
        let mut scratch = Journal::new();
        self.push_bytes(&bytes, &mut scratch);
    }
}

impl<T> Node<T> {
    /// Puts `ch` into the text as `insert` does, and records the change.
    pub(crate) fn insert_logged(&mut self, idx: usize, ch: char, journal: &mut Journal)
        requires
            idx <= old(self).content().len(),
            old(self).content().len() + encode_utf8(seq![ch]).len() <= usize::MAX,
        ensures
            inserted(*old(self), *final(self), idx as int, encode_utf8(seq![ch])),
            final(journal)@ == old(journal)@.push(
                Change::TextChanged { node: old(self).taker(idx as int) },
            ),
    {
        let bytes = char_bytes(ch);
        self.insert_bytes(idx, &bytes, journal);
    }

    /// Puts `string` into the text as `insert_str` does, and records the
    /// change.
    pub(crate) fn insert_str_logged(&mut self, idx: usize, string: &str, journal: &mut Journal)
        requires
            idx <= old(self).content().len(),
            old(self).content().len() + encode_utf8(string@).len() <= usize::MAX,
        ensures
            inserted(*old(self), *final(self), idx as int, encode_utf8(string@)),
            final(journal)@ == old(journal)@.push(
                Change::TextChanged { node: old(self).taker(idx as int) },
            ),
    {
        let bytes = string.as_bytes_vec();
        self.insert_bytes(idx, &bytes, journal);
    }

    /// Puts `ch` at the end of the text as `push` does, and records the
    /// change.
    pub(crate) fn push_logged(&mut self, ch: char, journal: &mut Journal)
        requires
            old(self).content().len() + encode_utf8(seq![ch]).len() <= usize::MAX,
        ensures
            pushed(*old(self), *final(self), encode_utf8(seq![ch])),
            final(journal)@ == old(journal)@.push(
                Change::TextChanged { node: old(self).last_leaf() },
            ),
    {
        let bytes = char_bytes(ch);
        self.push_bytes(&bytes, journal);
    }

    /// Puts `string` at the end of the text as `push_str` does, and records
    /// the change.
    pub(crate) fn push_str_logged(&mut self, string: &str, journal: &mut Journal)
        requires
            old(self).content().len() + encode_utf8(string@).len() <= usize::MAX,
        ensures
            pushed(*old(self), *final(self), encode_utf8(string@)),
            final(journal)@ == old(journal)@.push(
                Change::TextChanged { node: old(self).last_leaf() },
            ),
    {
        let bytes = string.as_bytes_vec();
        self.push_bytes(&bytes, journal);
    }
}

} // verus!
