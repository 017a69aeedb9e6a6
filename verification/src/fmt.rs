//! The outline of a tree as text: one line for each node, in pre-order.

use crate::attrs::{AttrSet, share};
use crate::node::Node;
use crate::order::{below, decides_order, lemma_below_chain, lemma_below_one_way};
use crate::seqs::{lemma_gather_at, lemma_gather_empty};
use crate::tree::Tree;
use crate::walk::{Visit, seq_walk, walk_of};
use std::fmt::Debug;
use std::rc::Rc;
use vstd::prelude::*;
use vstd::utf8::{encode_utf8, valid_utf8};

verus! {

broadcast use Node::lemma_parts;

/// The text that `String::from_utf8_lossy` makes of a sequence of bytes.
pub uninterp spec fn lossy_text(bytes: Seq<u8>) -> Seq<char>;

/// Reads `bytes` as UTF-8 with `String::from_utf8_lossy`, which hands valid
/// UTF-8 back as the text that it encodes and puts a replacement character
/// for whatever is not valid.
#[verifier::external_body]
pub(crate) fn read_lossy(bytes: &Vec<u8>) -> (text: String)
    ensures
        text@ == lossy_text(bytes@),
        valid_utf8(bytes@) ==> encode_utf8(text@) == bytes@,
{
    String::from_utf8_lossy(bytes).into_owned()
}

/// Writes `attr` as its `Debug` implementation does.
#[verifier::external_body]
fn label<T: Debug>(attr: &T) -> (text: String) {
    format!("{:?}", attr)
}

/// One line of an outline: how deep the node stands, the text that it
/// covers, and its attributes as they are written.
pub struct Row {
    pub depth: usize,
    pub text: String,
    pub labels: Vec<String>,
}

/// `levels` times four blanks.
pub open spec fn indent(levels: nat) -> Seq<char>
    decreases levels,
{
    if levels == 0 {
        Seq::empty()
    } else {
        indent((levels - 1) as nat) + "    "@
    }
}

/// The first `n` labels, with a comma and a blank between each two.
pub open spec fn joined(labels: Seq<String>, n: nat) -> Seq<char>
    decreases n,
{
    if n == 0 || n > labels.len() {
        Seq::empty()
    } else if n == 1 {
        labels[0]@
    } else {
        joined(labels, (n - 1) as nat) + ", "@ + labels[n - 1]@
    }
}

/// The line that stands for `row`.
pub open spec fn line(row: Row) -> Seq<char> {
    indent(row.depth as nat) + "|-- '"@ + row.text@ + "' ["@ + joined(
        row.labels@,
        row.labels@.len(),
    ) + "]\n"@
}

/// The lines that stand for the first `n` rows.
pub open spec fn lines(rows: Seq<Row>, n: nat) -> Seq<char>
    decreases n,
{
    if n == 0 || n > rows.len() {
        Seq::empty()
    } else {
        lines(rows, (n - 1) as nat) + line(rows[n - 1])
    }
}

/// Writes the rows of an outline, one line each.
pub fn render(rows: &Vec<Row>) -> (out: String)
    ensures
        out@ == lines(rows@, rows@.len()),
{
    let mut out = String::new();
    let mut i: usize = 0;
    while i < rows.len()
        invariant
            i <= rows@.len(),
            out@ == lines(rows@, i as nat),
        decreases rows@.len() - i,
    {
        let row = &rows[i];
        let ghost start = out@;
        let mut d: usize = 0;
        while d < row.depth
            invariant
                d <= row.depth,
                out@ == start + indent(d as nat),
            decreases row.depth - d,
        {
            out.append("    ");
            d = d + 1;
            assert(out@ =~= start + indent(d as nat));
        }
        out.append("|-- '");
        out.append(row.text.as_str());
        out.append("' [");
        let ghost head = out@;
        let mut j: usize = 0;
        while j < row.labels.len()
            invariant
                j <= row.labels@.len(),
                out@ == head + joined(row.labels@, j as nat),
            decreases row.labels@.len() - j,
        {
            if j > 0 {
                out.append(", ");
            }
            out.append(row.labels[j].as_str());
            j = j + 1;
            assert(out@ =~= head + joined(row.labels@, j as nat));
        }
        out.append("]\n");
        i = i + 1;
        assert(out@ =~= lines(rows@, i as nat));
    }
    out
}

/// The values behind a list of handles.
pub open spec fn held<T>(handles: Seq<Rc<T>>) -> Seq<T> {
    Seq::new(handles.len(), |i: int| *handles[i])
}

/// Whether no value of `values` comes before one that stands before it.
pub open spec fn ascends<T: PartialOrd>(values: Seq<T>) -> bool {
    forall|i: int, j: int| 0 <= i < j < values.len() ==> !below(values[j], values[i])
}

/// Putting a value into an ascending list before the first value that it
/// comes before keeps the list ascending.
proof fn lemma_ascends_insert<T: PartialOrd>(values: Seq<T>, at: int, value: T)
    requires
        decides_order::<T>(),
        ascends(values),
        0 <= at <= values.len(),
        forall|k: int| 0 <= k < at ==> !below(value, values[k]),
        at < values.len() ==> below(value, values[at]),
    ensures
        ascends(values.insert(at, value)),
{
    let now = values.insert(at, value);
    assert forall|i: int, j: int| 0 <= i < j < now.len() implies !below(now[j], now[i]) by {
        if j == at {
            assert(now[i] == values[i]);
        } else if i == at {
            assert(now[j] == values[j - 1]);
            if below(values[j - 1], value) {
                lemma_below_chain(values[j - 1], value, values[at]);
                if j - 1 == at {
                    lemma_below_one_way(value, values[at]);
                }
            }
        } else {
            let a = if i < at {
                i
            } else {
                i - 1
            };
            let b = if j < at {
                j
            } else {
                j - 1
            };
            assert(now[i] == values[a]);
            assert(now[j] == values[b]);
        }
    }
}

/// A list with one more value in it holds what it held and that value.
proof fn lemma_insert_multiset<T>(values: Seq<T>, at: int, value: T)
    requires
        0 <= at <= values.len(),
    ensures
        values.insert(at, value).to_multiset() == values.to_multiset().insert(value),
{
    let now = values.insert(at, value);
    now.to_multiset_ensures();
    assert(now.remove(at) =~= values);
    assert(now[at] == value);
    assert(now.to_multiset() =~= values.to_multiset().insert(value));
}

/// The handles of `attrs` in ascending order.
fn ascending<T: PartialOrd>(attrs: &AttrSet<T>) -> (out: Vec<Rc<T>>)
    ensures
        out@.len() == attrs.order().len(),
        held(out@).to_multiset() == attrs.order().to_multiset(),
        decides_order::<T>() ==> ascends(held(out@)),
{
    let mut out: Vec<Rc<T>> = Vec::new();
    let mut i: usize = 0;
    proof {
        assert(held(out@) =~= attrs.order().take(0));
    }
    while i < attrs.len()
        invariant
            i <= attrs.order().len(),
            out@.len() == i,
            held(out@).to_multiset() == attrs.order().take(i as int).to_multiset(),
            decides_order::<T>() ==> ascends(held(out@)),
        decreases attrs.order().len() - i,
    {
        let handle = share(attrs.get(i));
        let mut at: usize = 0;
        let total = out.len();
        while at < total
            invariant
                at <= total,
                total == out@.len(),
                decides_order::<T>() ==> forall|k: int|
                    0 <= k < at ==> !below(*handle, held(out@)[k]),
            ensures
                at <= total,
                decides_order::<T>() ==> forall|k: int|
                    0 <= k < at ==> !below(*handle, held(out@)[k]),
                decides_order::<T>() && at < total ==> below(*handle, held(out@)[at as int]),
            decreases total - at,
        {
            if earlier::<T>(&*handle, &*out[at]) {
                break ;
            }
            at = at + 1;
        }
        proof {
            let before = held(out@);
            let value = *handle;
            assert(held(out@.insert(at as int, handle)) =~= before.insert(at as int, value));
            if decides_order::<T>() {
                lemma_ascends_insert(before, at as int, value);
            }
            lemma_insert_multiset(before, at as int, value);
            assert(attrs.order().take(i + 1) =~= attrs.order().take(i as int).push(*handle));
            attrs.order().take(i as int).to_multiset_ensures();
        }
        out.insert(at, handle);
        i = i + 1;
    }
    proof {
        assert(attrs.order().take(i as int) =~= attrs.order());
    }
    out
}

/// Whether `a` is known to come before `b`.
fn earlier<T: PartialOrd>(a: &T, b: &T) -> (r: bool)
    ensures
        decides_order::<T>() ==> r == below(*a, *b),
{
    *a < *b
}

impl<T: PartialOrd> Node<T> {
    /// The node's own attributes in ascending order.
    pub fn sorted_infos(&self) -> (sorted: Vec<Rc<T>>)
        ensures
            sorted@.len() == self.own_order().len(),
            held(sorted@).to_multiset() == self.own_order().to_multiset(),
            decides_order::<T>() ==> ascends(held(sorted@)),
    {
        ascending(&self.attrs)
    }
}

/// Whether `rows` is an outline of the walk `visits`: a row for each node
/// met, with its depth, the text that it covers and a label for each of its
/// attributes.
pub open spec fn outlines<T>(rows: Seq<Row>, visits: Seq<Visit<T>>) -> bool {
    &&& rows.len() == visits.len()
    &&& forall|k: int|
        0 <= k < rows.len() ==> {
            &&& (#[trigger] rows[k]).depth == visits[k].level
            &&& rows[k].text@ == lossy_text(visits[k].node.content())
            &&& rows[k].labels@.len() == visits[k].node.own_order().len()
        }
}

impl<T> Node<T> {
    /// The text that the node covers. Bytes that are no valid UTF-8 give a
    /// replacement character.
    pub fn text(&self) -> (text: String)
        ensures
            text@ == lossy_text(self.content()),
            valid_utf8(self.content()) ==> encode_utf8(text@) == self.content(),
    {
        let bytes = self.bytes();
        read_lossy(&bytes)
    }
}

impl<T: PartialOrd + Debug> Node<T> {
    /// Appends to `rows` the outline of the subtree, where this node stands
    /// `depth` deep.
    fn outline_into(&self, depth: usize, rows: &mut Vec<Row>)
        requires
            depth <= old(rows)@.len(),
        ensures
            final(rows)@.len() == old(rows)@.len() + self.walk(depth as nat).len(),
            final(rows)@.take(old(rows)@.len() as int) == old(rows)@,
            outlines(final(rows)@.skip(old(rows)@.len() as int), self.walk(depth as nat)),
        decreases self,
    {
        let ghost before = rows@;
        let sorted = ascending(&self.attrs);
        let mut labels: Vec<String> = Vec::new();
        let mut i: usize = 0;
        while i < sorted.len()
            invariant
                i <= sorted@.len(),
                labels@.len() == i,
            decreases sorted@.len() - i,
        {
            labels.push(label(&*sorted[i]));
            i = i + 1;
        }
        let bytes = self.bytes();
        let row = Row { depth, text: read_lossy(&bytes), labels };
        rows.push(row);
        proof {
            self.lemma_walk(depth as nat);
            lemma_gather_empty(walk_of::<T>((depth + 1) as nat));
            assert(self.children@.take(0) =~= Seq::<Node<T>>::empty());
            assert(rows@.skip(before.len() as int) =~= seq![row]);
        }
        let mut k: usize = 0;
        while k < self.children.len()
            invariant
                k <= self.children@.len(),
                depth < rows@.len(),
                rows@.len() == before.len() + 1 + seq_walk(
                    self.children@.take(k as int),
                    (depth + 1) as nat,
                ).len(),
                rows@.take(before.len() as int) == before,
                outlines(
                    rows@.skip(before.len() as int),
                    seq![Visit { node: *self, level: depth as nat }] + seq_walk(
                        self.children@.take(k as int),
                        (depth + 1) as nat,
                    ),
                ),
            decreases self.children@.len() - k,
        {
            let ghost so_far = rows@;
            let ghost seen = seq![Visit { node: *self, level: depth as nat }] + seq_walk(
                self.children@.take(k as int),
                (depth + 1) as nat,
            );
            let filled = rows.len();
            self.children[k].outline_into(depth + 1, rows);
            proof {
                let kid = self.children@[k as int];
                let more = kid.walk((depth + 1) as nat);
                lemma_gather_at(self.children@, k as int, walk_of((depth + 1) as nat));
                let now = rows@.skip(before.len() as int);
                assert(rows@.take(before.len() as int) =~= so_far.take(before.len() as int)) by {
                    assert(rows@.take(so_far.len() as int) == so_far);
                }
                assert forall|j: int| 0 <= j < now.len() implies {
                    &&& (#[trigger] now[j]).depth == (seen + more)[j].level
                    &&& now[j].text@ == lossy_text((seen + more)[j].node.content())
                    &&& now[j].labels@.len() == (seen + more)[j].node.own_order().len()
                } by {
                    if j < seen.len() {
                        assert(now[j] == rows@.take(so_far.len() as int)[before.len() + j]);
                        assert(now[j] == so_far.skip(before.len() as int)[j]);
                    } else {
                        assert(now[j] == rows@.skip(so_far.len() as int)[j - seen.len()]);
                    }
                }
            }
            k = k + 1;
        }
        proof {
            assert(self.children@.take(k as int) =~= self.children@);
        }
    }

    /// The outline of the subtree: a row for each node in pre-order.
    pub fn outline(&self) -> (rows: Vec<Row>)
        ensures
            outlines(rows@, self.walk(0)),
    {
        let mut rows: Vec<Row> = Vec::new();
        self.outline_into(0, &mut rows);
        proof {
            assert(rows@.skip(0) =~= rows@);
        }
        rows
    }

    /// The outline of the subtree as text. Each line holds four blanks for
    /// each level of its node's depth, then the text that the node covers in
    /// quotes, then the node's own attributes in ascending order in square
    /// brackets.
    pub fn dump(&self) -> (out: String)
        ensures
            exists|rows: Seq<Row>|
                outlines(rows, self.walk(0)) && out@ == #[trigger] lines(rows, rows.len()),
    {
        let rows = self.outline();
        render(&rows)
    }
}

impl<T: PartialOrd + Debug> Tree<T> {
    /// The outline of the tree as text, as `Node::dump` writes it for the
    /// root.
    pub fn dump(&self) -> (out: String)
        ensures
            exists|rows: Seq<Row>|
                outlines(rows, self.root().walk(0)) && out@ == #[trigger] lines(
                    rows,
                    rows.len(),
                ),
    {
        self.get_root().dump()
    }
}

} // verus!
