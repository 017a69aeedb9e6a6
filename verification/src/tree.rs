//! The document: a text with attributes on ranges of it, kept as a tree.

use crate::attrs::decides_equality;
use crate::change::{Change, Event, Journal, Listeners, grown, told};
use crate::edit::removed;
use crate::marks::{erase, paint, without};
use crate::node::Node;
use crate::style::set_done;
use crate::text::{inserted, pushed};
use crate::unstyle::unset_done;
use std::rc::Rc;
use vstd::prelude::*;
use vstd::utf8::encode_utf8;

verus! {

broadcast use Node::lemma_parts;

/// A styled text. Every operation leaves the tree below the root in
/// canonical arrangement.
pub struct Tree<T> {
    root: Node<T>,
    journal: Journal,
}

impl<T> Tree<T> {
    /// The root node.
    pub closed spec fn root(self) -> Node<T> {
        self.root
    }

    /// The changes that were made since the record was last taken, oldest
    /// first.
    pub closed spec fn changes(self) -> Seq<Change> {
        self.journal@
    }

    /// The text of the document.
    pub open spec fn text(self) -> Seq<u8> {
        self.root().content()
    }

    /// For each byte of the text, the attributes that it carries.
    pub open spec fn marks(self) -> Seq<Set<T>> {
        self.root().marks()
    }

    /// What holds of every tree that the operations of this type hand out:
    /// the root is marked as such, the tree is in canonical arrangement, no
    /// node carries an attribute that a node below it carries too, and the
    /// length of the text fits into a `usize`.
    pub open spec fn wf(self) -> bool {
        &&& self.root().at_root()
        &&& self.root().canonical()
        &&& self.root().pure()
        &&& self.text().len() <= usize::MAX
    }

    /// The root node.
    pub fn get_root(&self) -> (root: &Node<T>)
        ensures
            *root == self.root(),
    {
        &self.root
    }
}

impl<T: PartialEq> Tree<T> {
    /// A document with the given text and no attributes.
    pub fn new(string: &str) -> (tree: Self)
        ensures
            tree.wf(),
            tree.text() == encode_utf8(string@),
            tree.marks() == Seq::new(tree.text().len(), |i: int| Set::<T>::empty()),
            tree.root().leaf(),
            tree.root().own() == Set::<T>::empty(),
            tree.root().own_order() == Seq::<T>::empty(),
            tree.changes() == Seq::<Change>::empty(),
    {
        let root = Node::new_root(string);
        proof {
            root.lemma_content();
            root.lemma_marks();
            root.lemma_canonical();
            root.lemma_pure();
        }
        Tree { root, journal: Journal::new() }
    }

    /// Sets `info` on the bytes from `start_idx` up to `end_idx`.
    pub fn set(&mut self, start_idx: usize, end_idx: usize, info: T)
        requires
            decides_equality::<T>(),
            old(self).wf(),
            start_idx < end_idx <= old(self).text().len(),
        ensures
            final(self).wf(),
            final(self).text() == old(self).text(),
            final(self).marks() == paint(
                old(self).marks(),
                start_idx as int,
                end_idx as int,
                info,
            ),
            set_done(
                old(self).root(),
                final(self).root(),
                None,
                start_idx as int,
                end_idx as int,
                info,
            ),
            grown(old(self).changes(), final(self).changes()),
            old(self).root().painted(start_idx as int, end_idx as int, info) ==> final(
                self
            ).changes() == old(self).changes(),
    {
        let pieces = self.root.set_logged(start_idx, end_idx, Rc::new(info), &mut self.journal);
    }

    /// Puts `ch` into the text at the byte `idx`. It carries the attributes
    /// of the leaf that takes it in.
    pub fn insert(&mut self, idx: usize, ch: char)
        requires
            old(self).wf(),
            idx <= old(self).text().len(),
            old(self).text().len() + encode_utf8(seq![ch]).len() <= usize::MAX,
        ensures
            final(self).wf(),
            inserted(old(self).root(), final(self).root(), idx as int, encode_utf8(seq![ch])),
            final(self).changes() == old(self).changes().push(
                Change::TextChanged { node: old(self).root().taker(idx as int) },
            ),
    {
        self.root.insert_logged(idx, ch, &mut self.journal);
        proof {
            old(self).root.lemma_frame_canonical(self.root);
            old(self).root.lemma_same_frame(self.root);
        }
    }

    /// Puts `string` into the text at the byte `idx`. It carries the
    /// attributes of the leaf that takes it in.
    pub fn insert_str(&mut self, idx: usize, string: &str)
        requires
            old(self).wf(),
            idx <= old(self).text().len(),
            old(self).text().len() + encode_utf8(string@).len() <= usize::MAX,
        ensures
            final(self).wf(),
            inserted(old(self).root(), final(self).root(), idx as int, encode_utf8(string@)),
            final(self).changes() == old(self).changes().push(
                Change::TextChanged { node: old(self).root().taker(idx as int) },
            ),
    {
        self.root.insert_str_logged(idx, string, &mut self.journal);
        proof {
            old(self).root.lemma_frame_canonical(self.root);
            old(self).root.lemma_same_frame(self.root);
        }
    }

    /// Puts `ch` at the end of the text. It carries the attributes of the
    /// last leaf.
    pub fn push(&mut self, ch: char)
        requires
            old(self).wf(),
            old(self).text().len() + encode_utf8(seq![ch]).len() <= usize::MAX,
        ensures
            final(self).wf(),
            pushed(old(self).root(), final(self).root(), encode_utf8(seq![ch])),
            final(self).changes() == old(self).changes().push(
                Change::TextChanged { node: old(self).root().last_leaf() },
            ),
    {
        self.root.push_logged(ch, &mut self.journal);
        proof {
            old(self).root.lemma_frame_canonical(self.root);
            old(self).root.lemma_same_frame(self.root);
        }
    }

    /// Puts `string` at the end of the text. It carries the attributes of
    /// the last leaf.
    pub fn push_str(&mut self, string: &str)
        requires
            old(self).wf(),
            old(self).text().len() + encode_utf8(string@).len() <= usize::MAX,
        ensures
            final(self).wf(),
            pushed(old(self).root(), final(self).root(), encode_utf8(string@)),
            final(self).changes() == old(self).changes().push(
                Change::TextChanged { node: old(self).root().last_leaf() },
            ),
    {
        self.root.push_str_logged(string, &mut self.journal);
        proof {
            old(self).root.lemma_frame_canonical(self.root);
            old(self).root.lemma_same_frame(self.root);
        }
    }

    /// Empties the document: the root becomes an empty leaf. It keeps its
    /// own attributes where `keep_formats` says so and loses them otherwise.
    pub fn clear(&mut self, keep_formats: bool)
        ensures
            final(self).wf(),
            final(self).text() == Seq::<u8>::empty(),
            final(self).root().leaf(),
            final(self).root().own() == if keep_formats {
                old(self).root().own()
            } else {
                Set::<T>::empty()
            },
            final(self).root().own_order() == if keep_formats {
                old(self).root().own_order()
            } else {
                Seq::<T>::empty()
            },
            final(self).changes() == old(self).changes(),
    {
        let mut root: Node<T> = Node::new_root("");
        if keep_formats {
            root.attrs = self.root.attrs.duplicate();
        }
        proof {
            reveal_strlit("");
            assert(encode_utf8(""@) =~= Seq::<u8>::empty()) by {
                reveal_with_fuel(encode_utf8, 1);
            }
            root.lemma_content();
            root.lemma_canonical();
            root.lemma_pure();
        }
        self.root = root;
    }

    /// Takes `info` off the bytes from `start_idx` up to `end_idx`.
    pub fn unset(&mut self, start_idx: usize, end_idx: usize, info: &T)
        requires
            decides_equality::<T>(),
            old(self).wf(),
            start_idx < end_idx <= old(self).text().len(),
        ensures
            final(self).wf(),
            final(self).text() == old(self).text(),
            final(self).marks() == erase(
                old(self).marks(),
                start_idx as int,
                end_idx as int,
                *info,
            ),
            unset_done(
                old(self).root(),
                final(self).root(),
                start_idx as int,
                end_idx as int,
                *info,
            ),
            grown(old(self).changes(), final(self).changes()),
    {
        self.root.unset_range(start_idx, end_idx, info, &mut self.journal);
    }

    /// Takes `count` bytes from the byte `idx` on out of the text, or as
    /// many as there are from there on.
    pub fn remove(&mut self, idx: usize, count: usize)
        requires
            decides_equality::<T>(),
            old(self).wf(),
        ensures
            final(self).wf(),
            final(self).text() == without(old(self).text(), idx as int, idx + count),
            final(self).marks() == without(old(self).marks(), idx as int, idx + count),
            removed(old(self).root(), final(self).root(), idx as int, idx + count),
            grown(old(self).changes(), final(self).changes()),
    {
        self.root.remove_logged(idx, count, &mut self.journal);
    }

    /// Takes the last byte out of the text.
    pub fn pop(&mut self)
        requires
            decides_equality::<T>(),
            old(self).wf(),
            old(self).text().len() > 0,
        ensures
            final(self).wf(),
            final(self).text() == old(self).text().drop_last(),
            final(self).marks() == old(self).marks().drop_last(),
            removed(
                old(self).root(),
                final(self).root(),
                old(self).text().len() - 1,
                old(self).text().len() as int,
            ),
            grown(old(self).changes(), final(self).changes()),
    {
        let length = self.length();
        proof {
            self.root.lemma_marks_len();
        }
        self.remove(length - 1, 1);
        proof {
            assert(without(old(self).text(), length - 1, length - 1 + 1) =~= old(
                self,
            ).text().drop_last());
            assert(without(old(self).marks(), length - 1, length - 1 + 1) =~= old(
                self,
            ).marks().drop_last());
        }
    }

    /// Hands out the changes that were made since this was last asked for,
    /// oldest first.
    pub fn take_events(&mut self) -> (events: Vec<Event>)
        ensures
            final(self).root() == old(self).root(),
            final(self).changes() == Seq::<Change>::empty(),
            events@.len() == old(self).changes().len(),
            forall|i: int|
                0 <= i < events@.len() ==> (#[trigger] events@[i])@ == old(self).changes()[i],
    {
        self.journal.take()
    }

    /// Tells the listeners of the changes that were made since they were
    /// last told or the record was taken, oldest first: every listener has
    /// been called with every one of them.
    pub fn deliver<F: Fn(&Event)>(&mut self, listeners: &Listeners<F>)
        requires
            listeners.wf(),
        ensures
            final(self).root() == old(self).root(),
            final(self).changes() == Seq::<Change>::empty(),
            forall|k: int|
                0 <= k < old(self).changes().len() ==> told(
                    *listeners,
                    #[trigger] old(self).changes()[k],
                ),
    {
        let events = self.take_events();
        let mut at: usize = 0;
        while at < events.len()
            invariant
                at <= events@.len(),
                listeners.wf(),
                events@.len() == old(self).changes().len(),
                forall|k: int| 0 <= k < events@.len() ==> (#[trigger] events@[k])@ == old(
                    self,
                ).changes()[k],
                forall|k: int|
                    0 <= k < at ==> told(*listeners, #[trigger] old(self).changes()[k]),
            decreases events@.len() - at,
        {
            listeners.notify(&events[at]);
            at = at + 1;
        }
    }

    /// The length of the text in bytes.
    pub fn length(&self) -> (n: usize)
        requires
            self.wf(),
        ensures
            n == self.text().len(),
    {
        self.root.length()
    }
}

} // verus!
