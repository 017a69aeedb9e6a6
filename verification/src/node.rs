//! The nodes of a styled-text tree and what they stand for.

use crate::attrs::AttrSet;
use crate::seqs::{
    gather, lemma_gather_at, lemma_gather_concat, lemma_gather_empty, lemma_gather_one,
    lemma_gather_push, lemma_tally_at, lemma_tally_concat, lemma_tally_one, lemma_tally_push, tally,
};
use vstd::prelude::*;
use vstd::slice::slice_to_vec;
use vstd::string::*;
use vstd::utf8::encode_utf8;

verus! {

/// Draws a random identifier with `uuid::Uuid::new_v4` and writes it in the
/// hyphenated form, which is 36 characters long whatever was drawn.
#[verifier::external_body]
fn fresh_id() -> (id: String)
    ensures
        id@.len() == 36,
{
    uuid::Uuid::new_v4().to_string()
}

/// One node of the tree: a leaf with a fragment of the text, or an inner node
/// with children. Its attributes hold for all the text below it.
pub struct Node<T> {
    pub(crate) id: String,
    pub(crate) attrs: AttrSet<T>,
    pub(crate) text: Vec<u8>,
    pub(crate) children: Vec<Node<T>>,
    pub(crate) root: bool,
}

/// The text that a node covers, as a function.
pub open spec fn content_of<T>() -> spec_fn(Node<T>) -> Seq<u8> {
    |n: Node<T>| n.content()
}

/// For each byte that a node covers, the attributes it carries, as a function.
pub open spec fn marks_of<T>() -> spec_fn(Node<T>) -> Seq<Set<T>> {
    |n: Node<T>| n.marks()
}

/// How many attributes are attached in a node's subtree, as a function.
pub open spec fn weight_of<T>() -> spec_fn(Node<T>) -> nat {
    |n: Node<T>| n.weight()
}

/// How many nodes a subtree holds, as a function.
pub open spec fn size_of<T>() -> spec_fn(Node<T>) -> nat {
    |n: Node<T>| n.size()
}

/// How many nodes the subtrees of a list of siblings hold.
pub open spec fn seq_size<T>(nodes: Seq<Node<T>>) -> nat {
    tally(nodes, size_of())
}

/// The text that a list of siblings covers.
pub open spec fn seq_content<T>(nodes: Seq<Node<T>>) -> Seq<u8> {
    gather(nodes, content_of())
}

/// For each byte that a list of siblings covers, the attributes it carries
/// from the siblings downwards.
pub open spec fn seq_marks<T>(nodes: Seq<Node<T>>) -> Seq<Set<T>> {
    gather(nodes, marks_of())
}

/// How many attributes are attached in the subtrees of a list of siblings.
pub open spec fn seq_weight<T>(nodes: Seq<Node<T>>) -> nat {
    tally(nodes, weight_of())
}

/// Where the `at`-th of the siblings `kids` begins in the text that they
/// cover together.
pub open spec fn begin<T>(kids: Seq<Node<T>>, at: int) -> int {
    seq_content(kids.take(at)).len() as int
}

/// Where a range that begins at `start`, in the text that the siblings
/// `kids` cover together, begins within the `at`-th of them.
pub open spec fn lower<T>(kids: Seq<Node<T>>, at: int, start: int) -> int {
    if start > begin(kids, at) {
        start - begin(kids, at)
    } else {
        0
    }
}

/// Where a range that ends at `end`, in the text that the siblings `kids`
/// cover together, ends within the `at`-th of them.
pub open spec fn upper<T>(kids: Seq<Node<T>>, at: int, end: int) -> int {
    if end < begin(kids, at) + kids[at].content().len() {
        end - begin(kids, at)
    } else {
        kids[at].content().len() as int
    }
}

/// Every set of `marks` together with `more`.
pub open spec fn widen<T>(marks: Seq<Set<T>>, more: Set<T>) -> Seq<Set<T>> {
    Seq::new(marks.len(), |i: int| marks[i].union(more))
}

impl<T> Node<T> {
    /// The children, in order. A node without children is a leaf.
    pub closed spec fn kids(self) -> Seq<Node<T>> {
        self.children@
    }

    /// The text that the node holds itself, which counts while it is a leaf.
    pub closed spec fn fragment(self) -> Seq<u8> {
        self.text@
    }

    /// The attributes attached to the node itself.
    pub closed spec fn own(self) -> Set<T> {
        self.attrs@
    }

    /// The node's own attributes in the order in which they were attached.
    pub closed spec fn own_order(self) -> Seq<T> {
        self.attrs.order()
    }

    /// Whether the node is the root of a tree.
    pub closed spec fn at_root(self) -> bool {
        self.root
    }

    /// The node's identifier.
    pub closed spec fn ident(self) -> Seq<char> {
        self.id@
    }

    pub open spec fn leaf(self) -> bool {
        self.kids().len() == 0
    }

    /// A node's own attributes are those that were attached to it, in
    /// whatever order.
    pub broadcast proof fn lemma_own(self)
        ensures
            #[trigger] self.own() == self.own_order().to_set(),
    {
    }

    /// What the parts of a node are, for the modules that work on them.
    pub(crate) broadcast proof fn lemma_parts(self)
        ensures
            #![trigger self.kids()]
            #![trigger self.fragment()]
            #![trigger self.own()]
            #![trigger self.own_order()]
            #![trigger self.at_root()]
            #![trigger self.ident()]
            self.kids() == self.children@,
            self.fragment() == self.text@,
            self.own() == self.attrs@,
            self.own_order() == self.attrs.order(),
            self.at_root() == self.root,
            self.ident() == self.id@,
    {
    }

    /// The text that the node covers.
    pub closed spec fn content(self) -> Seq<u8>
        decreases self, self.kids().len() + 1,
    {
        if self.children@.len() == 0 {
            self.text@
        } else {
            self.content_upto(self.children@.len())
        }
    }

    /// The text that the first `n` children cover.
    spec fn content_upto(self, n: nat) -> Seq<u8>
        decreases self, n,
    {
        if n == 0 || n > self.children@.len() {
            Seq::empty()
        } else {
            self.content_upto((n - 1) as nat) + self.children@[n - 1].content()
        }
    }

    /// For each byte that the node covers, the attributes that it carries
    /// from this node downwards.
    pub closed spec fn marks(self) -> Seq<Set<T>>
        decreases self, self.kids().len() + 1,
    {
        if self.children@.len() == 0 {
            Seq::new(self.text@.len(), |i: int| self.attrs@)
        } else {
            widen(self.marks_upto(self.children@.len()), self.attrs@)
        }
    }

    /// What the first `n` children mark.
    spec fn marks_upto(self, n: nat) -> Seq<Set<T>>
        decreases self, n,
    {
        if n == 0 || n > self.children@.len() {
            Seq::empty()
        } else {
            self.marks_upto((n - 1) as nat) + self.children@[n - 1].marks()
        }
    }

    /// How many attributes are attached in the node's subtree. Grouping a
    /// run of siblings attaches one attribute less than before; the
    /// relations that describe it are defined by recursion on this number.
    pub closed spec fn weight(self) -> nat
        decreases self, self.kids().len() + 1,
    {
        self.attrs.order().len() + self.weight_upto(self.children@.len())
    }

    /// How many nodes the subtree holds. The relations between a subtree
    /// before and after an operation are defined by recursion on this
    /// number: where one of them goes from a node to its children, it
    /// says that they hold fewer nodes, as they always do.
    pub closed spec fn size(self) -> nat
        decreases self, self.kids().len() + 1,
    {
        1 + self.size_upto(self.children@.len())
    }

    /// How many nodes the subtrees of the first `n` children hold.
    spec fn size_upto(self, n: nat) -> nat
        decreases self, n,
    {
        if n == 0 || n > self.children@.len() {
            0
        } else {
            self.size_upto((n - 1) as nat) + self.children@[n - 1].size()
        }
    }

    /// How many attributes are attached in the subtrees of the first `n`
    /// children.
    spec fn weight_upto(self, n: nat) -> nat
        decreases self, n,
    {
        if n == 0 || n > self.children@.len() {
            0
        } else {
            self.weight_upto((n - 1) as nat) + self.children@[n - 1].weight()
        }
    }

    proof fn lemma_upto(self, n: nat)
        requires
            n <= self.children@.len(),
        ensures
            self.content_upto(n) == seq_content(self.children@.take(n as int)),
            self.marks_upto(n) == seq_marks(self.children@.take(n as int)),
            self.weight_upto(n) == seq_weight(self.children@.take(n as int)),
            self.size_upto(n) == seq_size(self.children@.take(n as int)),
        decreases n,
    {
        let kids = self.children@;
        if n == 0 {
            assert(kids.take(0) =~= Seq::<Node<T>>::empty());
            lemma_gather_empty(content_of::<T>());
            lemma_gather_empty(marks_of::<T>());
        } else {
            self.lemma_upto((n - 1) as nat);
            lemma_gather_at(kids, n - 1, content_of());
            lemma_gather_at(kids, n - 1, marks_of());
            lemma_tally_at(kids, n - 1, weight_of());
            lemma_tally_at(kids, n - 1, size_of());
        }
    }

    /// What a node covers: its fragment, or what its children cover.
    pub broadcast proof fn lemma_content(self)
        ensures
            #[trigger] self.content() == if self.leaf() {
                self.fragment()
            } else {
                seq_content(self.kids())
            },
    {
        self.lemma_upto(self.children@.len());
        assert(self.children@.take(self.children@.len() as int) =~= self.children@);
    }

    /// What a node marks: its own attributes on a leaf's fragment, or what
    /// its children mark, each byte together with the node's own attributes.
    pub broadcast proof fn lemma_marks(self)
        ensures
            #[trigger] self.marks() == if self.leaf() {
                Seq::new(self.fragment().len(), |i: int| self.own())
            } else {
                widen(seq_marks(self.kids()), self.own())
            },
    {
        self.lemma_upto(self.children@.len());
        assert(self.children@.take(self.children@.len() as int) =~= self.children@);
    }

    /// A subtree holds its root and what the subtrees of the children hold.
    pub broadcast proof fn lemma_size(self)
        ensures
            #[trigger] self.size() == 1 + seq_size(self.kids()),
    {
        self.lemma_upto(self.children@.len());
        assert(self.children@.take(self.children@.len() as int) =~= self.children@);
    }

    /// A node weighs what is attached to it and what its children weigh.
    pub broadcast proof fn lemma_weight(self)
        ensures
            #[trigger] self.weight() == self.own_order().len() + seq_weight(self.kids()),
    {
        self.lemma_upto(self.children@.len());
        assert(self.children@.take(self.children@.len() as int) =~= self.children@);
    }
}

impl<T> Node<T> {
    /// A leaf that is no root, with the given text and attributes.
    pub(crate) fn leaf_with(text: Vec<u8>, attrs: AttrSet<T>) -> (node: Self)
        ensures
            node.leaf(),
            node.fragment() == text@,
            node.own() == attrs@,
            node.own_order() == attrs.order(),
            !node.at_root(),
    {
        Node { id: fresh_id(), attrs, text, children: Vec::new(), root: false }
    }

    /// An inner node that is no root, with the given children and attributes.
    pub(crate) fn inner_with(children: Vec<Node<T>>, attrs: AttrSet<T>) -> (node: Self)
        ensures
            node.kids() == children@,
            node.fragment() == Seq::<u8>::empty(),
            node.own() == attrs@,
            node.own_order() == attrs.order(),
            !node.at_root(),
    {
        Node { id: fresh_id(), attrs, text: Vec::new(), children, root: false }
    }

    /// A leaf with the given text and no attributes.
    pub fn new_leaf(text: String) -> (node: Self)
        ensures
            node.leaf(),
            node.fragment() == encode_utf8(text@),
            node.content() == encode_utf8(text@),
            node.own() == Set::<T>::empty(),
            node.own_order() == Seq::<T>::empty(),
            !node.at_root(),
    {
        Node::leaf_with(text.as_str().as_bytes_vec(), AttrSet::new())
    }

    /// A node without text, children or attributes.
    pub fn new() -> (node: Self)
        ensures
            node.leaf(),
            node.fragment() == Seq::<u8>::empty(),
            node.content() == Seq::<u8>::empty(),
            node.own() == Set::<T>::empty(),
            node.own_order() == Seq::<T>::empty(),
            !node.at_root(),
    {
        Node::leaf_with(Vec::new(), AttrSet::new())
    }

    /// The root of a tree over the given text: one leaf without attributes.
    pub fn new_root(string: &str) -> (node: Self)
        ensures
            node.leaf(),
            node.fragment() == encode_utf8(string@),
            node.content() == encode_utf8(string@),
            node.content().len() <= usize::MAX,
            node.own() == Set::<T>::empty(),
            node.own_order() == Seq::<T>::empty(),
            node.at_root(),
    {
        let text = string.as_bytes_vec();
        let length = text.len();
        assert(text@.len() == length);
        Node { id: fresh_id(), attrs: AttrSet::new(), text, children: Vec::new(), root: true }
    }

    /// The node's identifier.
    pub fn id(&self) -> (id: &String)
        ensures
            id@ == self.ident(),
    {
        &self.id
    }

    /// Whether the node is a leaf: it has no children.
    pub fn is_leaf(&self) -> (b: bool)
        ensures
            b == self.leaf(),
    {
        self.children.len() == 0
    }

    /// How many children the node has.
    pub fn child_count(&self) -> (n: usize)
        ensures
            n == self.kids().len(),
    {
        self.children.len()
    }

    /// The children, in order.
    pub fn children(&self) -> (kids: &[Node<T>])
        ensures
            kids@ == self.kids(),
    {
        self.children.as_slice()
    }

    /// The node's own attributes.
    pub fn infos(&self) -> (attrs: &AttrSet<T>)
        ensures
            attrs@ == self.own(),
            attrs.order() == self.own_order(),
    {
        &self.attrs
    }

    /// Appends `child` to the children. A leaf becomes an inner node by
    /// this, and its own fragment no longer counts.
    pub fn add_child(&mut self, child: Node<T>)
        ensures
            final(self).kids() == old(self).kids().push(child),
            final(self).own() == old(self).own(),
            final(self).own_order() == old(self).own_order(),
            final(self).at_root() == old(self).at_root(),
            final(self).ident() == old(self).ident(),
            final(self).content() == if old(self).leaf() {
                child.content()
            } else {
                old(self).content() + child.content()
            },
            final(self).marks() == if old(self).leaf() {
                widen(child.marks(), old(self).own())
            } else {
                old(self).marks() + widen(child.marks(), old(self).own())
            },
    {
        proof {
            self.lemma_content();
            self.lemma_marks();
            lemma_seq_push(self.children@, child);
            lemma_seq_empty::<T>();
        }
        self.children.push(child);
        proof {
            self.lemma_content();
            self.lemma_marks();
            lemma_widen_concat(seq_marks(old(self).kids()), child.marks(), self.own());
            if old(self).leaf() {
                assert(old(self).kids() =~= Seq::<Node<T>>::empty());
                assert(Seq::<Set<T>>::empty() + child.marks() =~= child.marks());
            }
        }
    }

    /// The length of the text that the node covers, in bytes.
    pub fn length(&self) -> (n: usize)
        requires
            self.content().len() <= usize::MAX,
        ensures
            n == self.content().len(),
        decreases self,
    {
        proof {
            self.lemma_content();
        }
        if self.children.len() == 0 {
            self.text.len()
        } else {
            let mut total: usize = 0;
            let mut i: usize = 0;
            proof {
                lemma_gather_empty(content_of::<T>());
                assert(self.children@.take(0) =~= Seq::<Node<T>>::empty());
            }
            while i < self.children.len()
                invariant
                    i <= self.children@.len(),
                    total == seq_content(self.children@.take(i as int)).len(),
                    seq_content(self.children@).len() <= usize::MAX,
                decreases self.children@.len() - i,
            {
                proof {
                    lemma_gather_at(self.children@, i as int, content_of());
                }
                let n = self.children[i].length();
                total = total + n;
                i = i + 1;
            }
            assert(self.children@.take(i as int) =~= self.children@);
            total
        }
    }

    /// The text that the node covers, as bytes.
    pub fn bytes(&self) -> (out: Vec<u8>)
        ensures
            out@ == self.content(),
        decreases self,
    {
        proof {
            self.lemma_content();
        }
        if self.children.len() == 0 {
            slice_to_vec(self.text.as_slice())
        } else {
            let mut out: Vec<u8> = Vec::new();
            let mut i: usize = 0;
            proof {
                lemma_gather_empty(content_of::<T>());
                assert(self.children@.take(0) =~= Seq::<Node<T>>::empty());
            }
            while i < self.children.len()
                invariant
                    i <= self.children@.len(),
                    out@ == seq_content(self.children@.take(i as int)),
                decreases self.children@.len() - i,
            {
                proof {
                    lemma_gather_at(self.children@, i as int, content_of());
                }
                let mut part = self.children[i].bytes();
                out.append(&mut part);
                i = i + 1;
            }
            assert(self.children@.take(i as int) =~= self.children@);
            out
        }
    }
}

pub proof fn lemma_widen_none<T>(marks: Seq<Set<T>>)
    ensures
        widen(marks, Set::<T>::empty()) == marks,
{
    assert forall|i: int| 0 <= i < marks.len() implies widen(marks, Set::<T>::empty())[i]
        == marks[i] by {
        assert(marks[i].union(Set::<T>::empty()) =~= marks[i]);
    }
    assert(widen(marks, Set::<T>::empty()) =~= marks);
}

pub proof fn lemma_widen_twice<T>(marks: Seq<Set<T>>, a: Set<T>, b: Set<T>)
    ensures
        widen(widen(marks, a), b) == widen(marks, a.union(b)),
{
    assert forall|i: int| 0 <= i < marks.len() implies widen(widen(marks, a), b)[i] == widen(
        marks,
        a.union(b),
    )[i] by {
        assert(marks[i].union(a).union(b) =~= marks[i].union(a.union(b)));
    }
    assert(widen(widen(marks, a), b) =~= widen(marks, a.union(b)));
}

pub proof fn lemma_widen_concat<T>(x: Seq<Set<T>>, y: Seq<Set<T>>, more: Set<T>)
    ensures
        widen(x + y, more) == widen(x, more) + widen(y, more),
{
    assert(widen(x + y, more) =~= widen(x, more) + widen(y, more));
}

/// What an empty list of siblings covers, marks and weighs.
pub proof fn lemma_seq_empty<T>()
    ensures
        seq_content(Seq::<Node<T>>::empty()) == Seq::<u8>::empty(),
        seq_marks(Seq::<Node<T>>::empty()) == Seq::<Set<T>>::empty(),
        seq_weight(Seq::<Node<T>>::empty()) == 0,
{
    lemma_gather_empty(content_of::<T>());
    lemma_gather_empty(marks_of::<T>());
}

/// What a single node covers, marks and weighs as a list.
pub proof fn lemma_seq_one<T>(node: Node<T>)
    ensures
        seq_content(seq![node]) == node.content(),
        seq_marks(seq![node]) == node.marks(),
        seq_weight(seq![node]) == node.weight(),
{
    lemma_gather_one(node, content_of());
    lemma_gather_one(node, marks_of());
    lemma_tally_one(node, weight_of());
}

/// What two lists of siblings cover, mark and weigh when put end to end.
pub proof fn lemma_seq_concat<T>(a: Seq<Node<T>>, b: Seq<Node<T>>)
    ensures
        seq_content(a + b) == seq_content(a) + seq_content(b),
        seq_marks(a + b) == seq_marks(a) + seq_marks(b),
        seq_weight(a + b) == seq_weight(a) + seq_weight(b),
{
    lemma_gather_concat(a, b, content_of());
    lemma_gather_concat(a, b, marks_of());
    lemma_tally_concat(a, b, weight_of());
}

/// What a list of siblings covers, marks and weighs with one more node at
/// its end.
pub proof fn lemma_seq_push<T>(list: Seq<Node<T>>, node: Node<T>)
    ensures
        seq_content(list.push(node)) == seq_content(list) + node.content(),
        seq_marks(list.push(node)) == seq_marks(list) + node.marks(),
        seq_weight(list.push(node)) == seq_weight(list) + node.weight(),
{
    lemma_gather_push(list, node, content_of());
    lemma_gather_push(list, node, marks_of());
    lemma_tally_push(list, node, weight_of());
}

/// A list of siblings taken apart at the node at `at`.
pub proof fn lemma_seq_at<T>(list: Seq<Node<T>>, at: int)
    requires
        0 <= at < list.len(),
    ensures
        seq_content(list) == seq_content(list.take(at)) + list[at].content() + seq_content(
            list.skip(at + 1),
        ),
        seq_marks(list) == seq_marks(list.take(at)) + list[at].marks() + seq_marks(
            list.skip(at + 1),
        ),
        seq_weight(list) == seq_weight(list.take(at)) + list[at].weight() + seq_weight(
            list.skip(at + 1),
        ),
        seq_content(list.take(at + 1)) == seq_content(list.take(at)) + list[at].content(),
        seq_marks(list.take(at + 1)) == seq_marks(list.take(at)) + list[at].marks(),
        seq_weight(list.take(at + 1)) == seq_weight(list.take(at)) + list[at].weight(),
{
    lemma_gather_at(list, at, content_of());
    lemma_gather_at(list, at, marks_of());
    lemma_tally_at(list, at, weight_of());
}

/// A list of siblings marks as many bytes as it covers.
pub proof fn lemma_seq_marks_len<T>(list: Seq<Node<T>>)
    ensures
        seq_marks(list).len() == seq_content(list).len(),
    decreases list, 0nat,
{
    if list.len() == 0 {
        lemma_seq_empty::<T>();
        assert(list =~= Seq::<Node<T>>::empty());
    } else {
        assert(list =~= list.drop_last().push(list.last()));
        lemma_seq_push(list.drop_last(), list.last());
        lemma_seq_marks_len(list.drop_last());
        list.last().lemma_marks_len();
    }
}

impl<T> Node<T> {
    /// A node marks as many bytes as it covers.
    pub proof fn lemma_marks_len(self)
        ensures
            self.marks().len() == self.content().len(),
        decreases self, 1nat,
    {
        self.lemma_content();
        self.lemma_marks();
        if !self.leaf() {
            lemma_seq_marks_len(self.kids());
        }
    }
}

impl<T> Node<T> {
    /// How a node compares with the same node under other attributes of
    /// its own.
    pub proof fn lemma_restyled(self, after: Node<T>, extra: Set<T>)
        requires
            after.kids() == self.kids(),
            after.fragment() == self.fragment(),
        ensures
            after.content() == self.content(),
            after.canonical() == self.canonical(),
            after.weight() + self.own_order().len() == self.weight() + after.own_order().len(),
            after.own().union(extra) == self.own() ==> widen(after.marks(), extra)
                == self.marks(),
    {
        self.lemma_content();
        after.lemma_content();
        self.lemma_marks();
        after.lemma_marks();
        self.lemma_weight();
        after.lemma_weight();
        self.lemma_canonical();
        after.lemma_canonical();
        if after.own().union(extra) == self.own() {
            if self.leaf() {
                assert(widen(after.marks(), extra) =~= self.marks());
            } else {
                lemma_widen_twice(seq_marks(self.kids()), after.own(), extra);
            }
        }
    }
}

impl<T> Node<T> {
    /// Every byte that a node covers carries the node's own attributes.
    pub proof fn lemma_marks_hold_own(self, i: int)
        requires
            0 <= i < self.marks().len(),
        ensures
            self.own().subset_of(self.marks()[i]),
    {
        self.lemma_marks();
    }
}

impl<T> Node<T> {
    /// A child is a smaller tree than its parent.
    pub proof fn lemma_child_smaller(self, i: int)
        requires
            0 <= i < self.kids().len(),
        ensures
            decreases_to!(self => self.kids()[i]),
    {
    }
}

impl<T> Node<T> {
    /// Takes all attributes off the node itself. The bytes below it keep
    /// what the nodes below it give them.
    pub fn clear_infos(&mut self)
        ensures
            final(self).own() == Set::<T>::empty(),
            final(self).own_order() == Seq::<T>::empty(),
            final(self).kids() == old(self).kids(),
            final(self).fragment() == old(self).fragment(),
            final(self).at_root() == old(self).at_root(),
            final(self).ident() == old(self).ident(),
            final(self).content() == old(self).content(),
            widen(final(self).marks(), old(self).own()) == old(self).marks(),
    {
        self.attrs = AttrSet::new();
        proof {
            assert(self.own().union(old(self).own()) =~= old(self).own());
            old(self).lemma_restyled(*self, old(self).own());
        }
    }
}

/// A list of siblings holds at least the nodes that one of them holds.
pub proof fn lemma_size_at<T>(list: Seq<Node<T>>, at: int)
    requires
        0 <= at < list.len(),
    ensures
        list[at].size() <= seq_size(list),
{
    lemma_tally_at(list, at, size_of());
}

} // verus!
