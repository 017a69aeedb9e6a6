//! Bringing the children of a node into canonical arrangement.

use crate::attrs::{decides_equality, joint, share};
use crate::canon::{
    all_canonical, all_of_use, all_pure, lemma_carried_concat, lemma_carried_empty,
    lemma_carried_push, lone_leaf, no_more, no_plain_pair, no_shared_pair, seq_carried, settled,
};
use crate::change::{Change, Journal, grown};
use crate::node::{
    Node, lemma_seq_at, lemma_seq_concat, lemma_seq_empty, lemma_seq_one, lemma_seq_push,
    lemma_widen_concat, lemma_widen_none, seq_content, seq_marks, seq_weight, widen,
};
use crate::seqs::{gather, lemma_gather_empty, lemma_gather_push};
use std::rc::Rc;
use vstd::prelude::*;

verus! {

broadcast use Node::lemma_parts;

/// What takes the place of a node when inner nodes without attributes give
/// way to their children and leaves without text are left out: its
/// children, nothing, or the node itself.
pub open spec fn lifted<T>() -> spec_fn(Node<T>) -> Seq<Node<T>> {
    |node: Node<T>|
        if node.leaf() && node.fragment().len() == 0 {
            Seq::empty()
        } else if node.bare_inner() {
            node.kids()
        } else {
            seq![node]
        }
}

/// Holds of every value: it marks the value that a statement speaks of.
pub open spec fn such<A>(value: A) -> bool {
    true
}

/// Whether `after` is the leaf `before` with `more` behind its text.
pub open spec fn lengthened<T>(before: Node<T>, after: Node<T>, more: Seq<u8>) -> bool {
    &&& after.leaf()
    &&& after.fragment() == before.fragment() + more
    &&& after.own_order() == before.own_order()
    &&& after.ident() == before.ident()
    &&& after.at_root() == before.at_root()
}

/// Whether `out` is `list` with each run of neighbouring leaves without
/// attributes joined into its first leaf.
pub open spec fn fused<T>(list: Seq<Node<T>>, out: Seq<Node<T>>) -> bool
    decreases list.len(),
{
    if list.len() == 0 {
        out.len() == 0
    } else {
        exists|prev: Seq<Node<T>>|
            {
                &&& #[trigger] such(prev)
                &&& fused(list.drop_last(), prev)
                &&& if list.last().plain_leaf() && prev.len() > 0 && prev.last().plain_leaf() {
                    &&& out.len() == prev.len()
                    &&& out.drop_last() == prev.drop_last()
                    &&& lengthened(prev.last(), out.last(), list.last().fragment())
                } else {
                    out == prev.push(list.last())
                }
            }
    }
}

/// Whether `after` is the node `before` without `attr` among its own
/// attributes.
pub open spec fn stripped<T>(before: Node<T>, after: Node<T>, attr: T) -> bool {
    &&& after.kids() == before.kids()
    &&& after.fragment() == before.fragment()
    &&& after.ident() == before.ident()
    &&& after.at_root() == before.at_root()
    &&& after.own_order() == before.own_order().filter(|x: T| x != attr)
}

/// Whether `after` holds the nodes of `before`, each without `attr` among
/// its own attributes.
pub open spec fn all_stripped<T>(before: Seq<Node<T>>, after: Seq<Node<T>>, attr: T) -> bool {
    &&& after.len() == before.len()
    &&& forall|i: int| 0 <= i < before.len() ==> stripped(before[i], #[trigger] after[i], attr)
}

/// Whether `made` is the node that carries `attr` for `kids`: a new inner
/// node with `kids` as its children and `attr` as its only attribute, or,
/// where `kids` is one leaf, that leaf with `attr` among its attributes.
pub open spec fn crowned<T>(made: Node<T>, kids: Seq<Node<T>>, attr: T) -> bool {
    if lone_leaf(kids) {
        &&& made.leaf()
        &&& made.fragment() == kids[0].fragment()
        &&& made.ident() == kids[0].ident()
        &&& made.at_root() == kids[0].at_root()
        &&& made.own_order() == if kids[0].own().contains(attr) {
            kids[0].own_order()
        } else {
            kids[0].own_order().push(attr)
        }
    } else {
        &&& made.kids() == kids
        &&& made.fragment() == Seq::<u8>::empty()
        &&& made.own_order() == seq![attr]
        &&& !made.at_root()
    }
}

/// Whether `out` is `list` with the siblings of `run` grouped: they give
/// way to one node that carries the attribute of the run for them, above
/// what they are without it, brought into canonical arrangement. Each of
/// them loses the attribute where it carries it, which is on the sibling
/// itself: in a pure tree no node below it carries the attribute again.
pub open spec fn grouped<T>(list: Seq<Node<T>>, run: Run<T>, out: Seq<Node<T>>) -> bool
    decreases seq_weight(list), 0nat, 0nat,
{
    &&& run.start + run.count <= list.len()
    &&& out.len() == list.len() - run.count + 1
    &&& out.take(run.start as int) == list.take(run.start as int)
    &&& out.skip(run.start + 1) == list.skip(run.start + run.count)
    &&& exists|bare: Seq<Node<T>>, kids: Seq<Node<T>>|
        {
            &&& #[trigger] such(bare) && #[trigger] such(kids)
            &&& all_stripped(
                list.subrange(run.start as int, run.start + run.count),
                bare,
                *run.attr,
            )
            &&& seq_weight(bare) < seq_weight(list)
            &&& settles(bare, kids)
            &&& crowned(out[run.start as int], kids, *run.attr)
        }
}

/// Whether `out` is what grouping the leading run of siblings again and
/// again makes of `list`, until no two neighbours share an attribute.
pub open spec fn regrouped<T>(list: Seq<Node<T>>, out: Seq<Node<T>>) -> bool
    decreases seq_weight(list), 1nat, list.len(),
{
    ||| no_run(list) && out == list
    ||| exists|run: Run<T>, next: Seq<Node<T>>|
        {
            &&& #[trigger] leads(list, run) && #[trigger] such(next)
            &&& seq_weight(next) <= seq_weight(list)
            &&& next.len() < list.len()
            &&& grouped(list, run, next)
            &&& regrouped(next, out)
        }
}

/// Whether `out` is `list` brought into canonical arrangement: inner nodes
/// without attributes give way to their children, leaves without text are
/// left out, neighbouring leaves without attributes are joined, and runs of
/// siblings that share an attribute are grouped, the leading run first.
pub open spec fn settles<T>(list: Seq<Node<T>>, out: Seq<Node<T>>) -> bool
    decreases seq_weight(list), 2nat, 0nat,
{
    exists|joined: Seq<Node<T>>|
        {
            &&& #[trigger] such(joined)
            &&& fused(gather(list, lifted()), joined)
            &&& seq_weight(joined) <= seq_weight(list)
            &&& regrouped(joined, out)
        }
}

/// Whether `after` is the node `before` with `kids` for its children; or,
/// where `kids` is one leaf, the node as that leaf: with the text of the
/// leaf, and with the attributes of the leaf behind its own.
pub open spec fn adopted<T>(before: Node<T>, kids: Seq<Node<T>>, after: Node<T>) -> bool {
    &&& after.ident() == before.ident()
    &&& after.at_root() == before.at_root()
    &&& if lone_leaf(kids) {
        &&& after.leaf()
        &&& after.fragment() == kids[0].fragment()
        &&& after.own_order() == joint(before.own_order(), kids[0].own_order())
    } else {
        &&& after.kids() == kids
        &&& after.fragment() == Seq::<u8>::empty()
        &&& after.own_order() == before.own_order()
    }
}

/// Whether `after` is the node `before` with `list`, brought into
/// canonical arrangement, for its children.
pub open spec fn installed<T>(before: Node<T>, list: Seq<Node<T>>, after: Node<T>) -> bool {
    exists|kids: Seq<Node<T>>|
        {
            &&& #[trigger] such(kids)
            &&& settles(list, kids)
            &&& adopted(before, kids, after)
        }
}

/// Replaces each inner node without attributes by its children, and
/// leaves out each leaf without text.
pub(crate) fn promote<T>(list: Vec<Node<T>>) -> (out: Vec<Node<T>>)
    requires
        all_canonical(list@),
    ensures
        all_canonical(out@),
        all_of_use(out@),
        seq_content(out@) == seq_content(list@),
        seq_marks(out@) == seq_marks(list@),
        seq_weight(out@) <= seq_weight(list@),
        all_of_use(list@) ==> out@ == list@,
        no_more(list@, out@),
        out@ == gather(list@, lifted()),
{
    let mut out: Vec<Node<T>> = Vec::new();
    let ghost whole = list@;
    proof {
        lemma_seq_empty::<T>();
        lemma_carried_empty::<T>();
        lemma_gather_empty(lifted::<T>());
        assert(whole.take(0) =~= Seq::<Node<T>>::empty());
    }
    for node in it: list
        invariant
            it.seq() == whole,
            out@ == gather(whole.take(it.index() as int), lifted()),
            all_canonical(whole),
            all_canonical(out@),
            all_of_use(out@),
            no_more(whole.take(it.index() as int), out@),
            seq_content(out@) == seq_content(whole.take(it.index() as int)),
            seq_marks(out@) == seq_marks(whole.take(it.index() as int)),
            seq_weight(out@) <= seq_weight(whole.take(it.index() as int)),
            all_of_use(whole.take(it.index() as int)) ==> out@ == whole.take(
                it.index() as int,
            ),
    {
        let ghost seen = whole.take(it.index() as int);
        proof {
            assert(whole.take(it.index() + 1) =~= seen.push(node));
            assert(node == whole[it.index() as int]);
            lemma_seq_push(seen, node);
            assert(seen.push(node)[it.index() as int] == node);
            assert forall|j: int| 0 <= j < seen.len() implies seen.push(node)[j] == seen[j] by {}
            node.lemma_content();
            node.lemma_marks_len();
            node.lemma_canonical();
            node.lemma_carried();
            node.lemma_pure();
            lemma_carried_push(seen, node);
            lemma_carried_push(out@, node);
            lemma_carried_concat(out@, node.kids());
            lemma_gather_push(seen, node, lifted());
            assert(out@ + Seq::<Node<T>>::empty() =~= out@);
            assert(out@ + seq![node] =~= out@.push(node));
            if node.children@.len() > 0 {
                lemma_seq_at(node.kids(), 0);
                assert(node.kids()[0].of_use());
            }
        }
        if node.children.len() == 0 && node.text.len() == 0 {
            proof {
                assert(!node.of_use());
                assert(seq_content(out@) + node.content() =~= seq_content(out@));
                assert(seq_marks(out@) + node.marks() =~= seq_marks(out@));
            }
        } else if node.children.len() > 0 && node.attrs.is_empty() {
            proof {
                node.lemma_content();
                node.lemma_marks();
                node.lemma_weight();
                node.lemma_canonical();
                lemma_widen_none(seq_marks(node.kids()));
                lemma_seq_concat(out@, node.kids());
                assert(node.bare_inner());
            }
            let mut kids = node.children;
            out.append(&mut kids);
        } else {
            proof {
                lemma_seq_push(out@, node);
                assert(!node.bare_inner());
            }
            out.push(node);
        }
    }
    assert(whole.take(whole.len() as int) =~= whole);
    out
}

/// Joins each run of neighbouring leaves without attributes into one leaf.
pub(crate) fn fuse<T>(list: Vec<Node<T>>, journal: &mut Journal) -> (out: Vec<Node<T>>)
    requires
        all_canonical(list@),
        all_of_use(list@),
    ensures
        grown(old(journal)@, final(journal)@),
        no_plain_pair(list@) ==> final(journal)@ == old(journal)@,
        no_more(list@, out@),
        fused(list@, out@),
        all_canonical(out@),
        all_of_use(out@),
        no_plain_pair(out@),
        seq_content(out@) == seq_content(list@),
        seq_marks(out@) == seq_marks(list@),
        seq_weight(out@) == seq_weight(list@),
        no_plain_pair(list@) ==> out@ == list@,
{
    let mut out: Vec<Node<T>> = Vec::new();
    let ghost whole = list@;
    proof {
        lemma_seq_empty::<T>();
        lemma_carried_empty::<T>();
        assert(whole.take(0) =~= Seq::<Node<T>>::empty());
    }
    for node in it: list
        invariant
            it.seq() == whole,
            no_more(whole.take(it.index() as int), out@),
            fused(whole.take(it.index() as int), out@),
            grown(old(journal)@, journal@),
            no_plain_pair(whole.take(it.index() as int)) ==> journal@ == old(journal)@,
            all_canonical(whole),
            all_of_use(whole),
            all_canonical(out@),
            all_of_use(out@),
            no_plain_pair(out@),
            seq_content(out@) == seq_content(whole.take(it.index() as int)),
            seq_marks(out@) == seq_marks(whole.take(it.index() as int)),
            seq_weight(out@) == seq_weight(whole.take(it.index() as int)),
            no_plain_pair(whole.take(it.index() as int)) ==> out@ == whole.take(
                it.index() as int,
            ),
    {
        let ghost seen = whole.take(it.index() as int);
        let ghost at = it.index() as int;
        proof {
            assert(whole.take(at + 1) =~= seen.push(node));
            assert(node == whole[at]);
            lemma_seq_push(seen, node);
            lemma_carried_push(seen, node);
            lemma_carried_push(out@, node);
            node.lemma_carried();
            node.lemma_pure();
            assert(seen.push(node).drop_last() =~= seen);
        }
        let ghost joined_so_far = out@;
        let plain = node.children.len() == 0 && node.attrs.is_empty();
        let n = out.len();
        if plain && n > 0 && out[n - 1].children.len() == 0 && out[n - 1].attrs.is_empty() {
            let ghost before = out@;
            let mut last = out.pop().unwrap();
            let ghost first = last;
            let mut node = node;
            last.text.append(&mut node.text);
            journal.text_changed(&last.id);
            proof {
                let joined = last;
                let rest = before.drop_last();
                assert(before =~= rest.push(first));
                lemma_seq_push(rest, first);
                lemma_seq_push(rest, joined);
                first.lemma_content();
                first.lemma_marks();
                first.lemma_weight();
                whole[at].lemma_content();
                whole[at].lemma_marks();
                whole[at].lemma_weight();
                joined.lemma_content();
                joined.lemma_marks();
                joined.lemma_weight();
                joined.lemma_canonical();
                joined.lemma_carried();
                joined.lemma_pure();
                first.lemma_carried();
                lemma_carried_push(rest, first);
                lemma_carried_push(rest, joined);
                lemma_carried_empty::<T>();
                assert(joined.kids() =~= Seq::<Node<T>>::empty());
                assert(first.kids() =~= Seq::<Node<T>>::empty());
                assert(joined.marks() =~= first.marks() + whole[at].marks());
                assert(joined.plain_leaf());
                if no_plain_pair(seen.push(whole[at])) && at > 0 {
                    assert(seen =~= before);
                    assert(seen.push(whole[at])[at - 1] == first);
                    assert(seen.push(whole[at])[at - 1].plain_leaf());
                    assert(seen.push(whole[at])[at - 1 + 1].plain_leaf());
                }
            }
            out.push(last);
            proof {
                assert(fused(seen.push(whole[at]), out@)) by {
                    let all = seen.push(whole[at]);
                    assert(all.drop_last() =~= seen);
                    assert(all.last() == whole[at]);
                    assert(out@.drop_last() =~= joined_so_far.drop_last());
                    assert(joined_so_far.last() == first);
                    assert(lengthened(first, out@.last(), whole[at].fragment()));
                    assert(such(joined_so_far));
                }
                assert forall|i: int|
                    #![trigger out@[i]]
                    0 <= i < out@.len() - 1 implies !(out@[i].plain_leaf() && out@[i
                    + 1].plain_leaf()) by {
                    assert(out@[i] == before[i]);
                    if i + 1 < out@.len() - 1 {
                        assert(out@[i + 1] == before[i + 1]);
                    }
                }
            }
        } else {
            proof {
                lemma_seq_push(out@, node);
                let ghost before = out@;
                assert forall|i: int|
                    #![trigger before.push(node)[i]]
                    0 <= i < before.push(node).len() - 1 implies !(before.push(
                        node,
                    )[i].plain_leaf() && before.push(node)[i + 1].plain_leaf()) by {
                    if i + 1 < before.len() {
                        assert(before.push(node)[i] == before[i]);
                        assert(before.push(node)[i + 1] == before[i + 1]);
                    }
                }
                if no_plain_pair(seen.push(node)) {
                    assert forall|i: int|
                        #![trigger seen[i]]
                        0 <= i < seen.len() - 1 implies !(seen[i].plain_leaf() && seen[i
                        + 1].plain_leaf()) by {
                        assert(seen.push(node)[i] == seen[i]);
                        assert(seen.push(node)[i + 1] == seen[i + 1]);
                    }
                }
            }
            out.push(node);
            proof {
                assert(fused(seen.push(whole[at]), out@)) by {
                    let all = seen.push(whole[at]);
                    assert(all.drop_last() =~= seen);
                    assert(all.last() == whole[at]);
                    assert(such(joined_so_far));
                    assert(out@ == joined_so_far.push(all.last()));
                    assert(!(all.last().plain_leaf() && joined_so_far.len() > 0
                        && joined_so_far.last().plain_leaf()));
                }
            }
        }
    }
    assert(whole.take(whole.len() as int) =~= whole);
    out
}

/// How many siblings in a row, from the one at `from` on, carry `attr`.
pub open spec fn run_len<T>(kids: Seq<Node<T>>, from: int, attr: T) -> nat
    decreases kids.len() - from,
{
    if 0 <= from < kids.len() && kids[from].own().contains(attr) {
        1 + run_len(kids, from + 1, attr)
    } else {
        0
    }
}

/// A run of siblings that share an attribute.
pub struct Run<T> {
    pub start: usize,
    pub count: usize,
    pub attr: Rc<T>,
}

/// Whether `run` is the run to group first: the longest that an attribute
/// of its first sibling makes, of those the one that starts first, and there
/// made by the first such attribute of that sibling.
pub open spec fn leads<T>(kids: Seq<Node<T>>, run: Run<T>) -> bool {
    &&& run.count >= 2
    &&& run.start + run.count <= kids.len()
    &&& kids[run.start as int].own().contains(*run.attr)
    &&& run_len(kids, run.start as int, *run.attr) == run.count
    &&& forall|i: int, a: T|
        0 <= i < kids.len() && kids[i].own().contains(a) ==> #[trigger] run_len(kids, i, a)
            <= run.count
    &&& forall|i: int, a: T|
        0 <= i < run.start && kids[i].own().contains(a) ==> #[trigger] run_len(kids, i, a)
            < run.count
    &&& exists|p: int|
        {
            &&& 0 <= p < kids[run.start as int].own_order().len()
            &&& #[trigger] kids[run.start as int].own_order()[p] == *run.attr
            &&& forall|q: int|
                0 <= q < p ==> run_len(
                    kids,
                    run.start as int,
                    #[trigger] kids[run.start as int].own_order()[q],
                ) < run.count
        }
}

/// Whether no attribute makes a run of two or more siblings.
pub open spec fn no_run<T>(kids: Seq<Node<T>>) -> bool {
    forall|i: int, a: T|
        0 <= i < kids.len() && kids[i].own().contains(a) ==> #[trigger] run_len(kids, i, a) < 2
}

/// Every sibling of a run carries the run's attribute.
pub proof fn lemma_run_members<T>(kids: Seq<Node<T>>, from: int, attr: T, j: int)
    requires
        0 <= from <= j < from + run_len(kids, from, attr),
    ensures
        j < kids.len(),
        kids[j].own().contains(attr),
    decreases j - from,
{
    if j > from {
        lemma_run_members(kids, from + 1, attr, j);
    }
}

/// A run ends at the end of the list or before a sibling without the
/// attribute.
pub proof fn lemma_run_end<T>(kids: Seq<Node<T>>, from: int, attr: T)
    requires
        0 <= from,
    ensures
        from + run_len(kids, from, attr) <= kids.len() || run_len(kids, from, attr) == 0,
        from + run_len(kids, from, attr) < kids.len() ==> !kids[from + run_len(
            kids,
            from,
            attr,
        )].own().contains(attr) || run_len(kids, from, attr) == 0,
    decreases kids.len() - from,
{
    if 0 <= from < kids.len() && kids[from].own().contains(attr) {
        lemma_run_end(kids, from + 1, attr);
    }
}

/// Where no attribute makes a run, no two neighbours share one, and the
/// other way round.
pub proof fn lemma_no_run<T>(kids: Seq<Node<T>>)
    ensures
        no_run(kids) == no_shared_pair(kids),
{
    if no_run(kids) {
        assert forall|i: int|
            #![trigger kids[i]]
            0 <= i < kids.len() - 1 implies kids[i].own().disjoint(kids[i + 1].own()) by {
            if !kids[i].own().disjoint(kids[i + 1].own()) {
                let a = choose|a: T| kids[i].own().contains(a) && kids[i + 1].own().contains(a);
                reveal_with_fuel(run_len, 3);
                assert(run_len(kids, i, a) >= 2);
            }
        }
    }
    if no_shared_pair(kids) {
        assert forall|i: int, a: T|
            0 <= i < kids.len() && kids[i].own().contains(a) implies #[trigger] run_len(
            kids,
            i,
            a,
        ) < 2 by {
            reveal_with_fuel(run_len, 3);
            if i + 1 < kids.len() {
                assert(kids[i].own().disjoint(kids[i + 1].own()));
            }
        }
    }
}

/// Measures the run that `attr` makes from the sibling at `from` on.
fn measure_run<T: PartialEq>(kids: &Vec<Node<T>>, from: usize, attr: &T) -> (count: usize)
    requires
        decides_equality::<T>(),
        from < kids@.len(),
        kids@[from as int].own().contains(*attr),
    ensures
        count == run_len(kids@, from as int, *attr),
        count >= 1,
        from + count <= kids@.len(),
{
    let total = kids.len();
    let mut upto: usize = from + 1;
    while upto < total && kids[upto].attrs.contains(attr)
        invariant
            decides_equality::<T>(),
            total == kids@.len(),
            from < upto <= kids@.len(),
            forall|j: int| from <= j < upto ==> kids@[j].own().contains(*attr),
        decreases kids@.len() - upto,
    {
        upto = upto + 1;
    }
    proof {
        lemma_run_exact(kids@, from as int, upto as int, *attr);
    }
    upto - from
}

/// A stretch of siblings that all carry `attr` and is followed by none that
/// does is the run from its first sibling.
proof fn lemma_run_exact<T>(kids: Seq<Node<T>>, from: int, upto: int, attr: T)
    requires
        0 <= from <= upto <= kids.len(),
        forall|j: int| from <= j < upto ==> kids[j].own().contains(attr),
        upto == kids.len() || !kids[upto].own().contains(attr),
    ensures
        run_len(kids, from, attr) == upto - from,
    decreases upto - from,
{
    if from < upto {
        lemma_run_exact(kids, from + 1, upto, attr);
    }
}

/// Finds the run of siblings to group first, if any attribute makes a run.
pub(crate) fn longest_run<T: PartialEq>(kids: &Vec<Node<T>>) -> (found: Option<Run<T>>)
    requires
        decides_equality::<T>(),
    ensures
        match found {
            Some(run) => leads(kids@, run),
            None => no_run(kids@),
        },
{
    let mut best: Option<Run<T>> = None;
    let mut i: usize = 0;
    while i < kids.len()
        invariant
            decides_equality::<T>(),
            i <= kids@.len(),
            match best {
                Some(run) => {
                    &&& run.start < i
                    &&& leads_upto(kids@, run, i as int, 0)
                },
                None => forall|s: int, a: T|
                    0 <= s < i && kids@[s].own().contains(a) ==> #[trigger] run_len(kids@, s, a)
                        < 2,
            },
        decreases kids@.len() - i,
    {
        let attrs = &kids[i].attrs;
        let mut j: usize = 0;
        while j < attrs.len()
            invariant
                decides_equality::<T>(),
                i < kids@.len(),
                attrs == kids@[i as int].attrs,
                j <= attrs.order().len(),
                match best {
                    Some(run) => {
                        &&& run.start <= i
                        &&& leads_upto(kids@, run, i as int, j as int)
                    },
                    None => {
                        &&& forall|s: int, a: T|
                            0 <= s < i && kids@[s].own().contains(a) ==> #[trigger] run_len(
                                kids@,
                                s,
                                a,
                            ) < 2
                        &&& forall|q: int|
                            0 <= q < j ==> run_len(
                                kids@,
                                i as int,
                                #[trigger] attrs.order()[q],
                            ) < 2
                    },
                },
            decreases attrs.order().len() - j,
        {
            let attr = attrs.get(j);
            let count = measure_run(kids, i, attr);
            let longer = match &best {
                Some(run) => run.count < count,
                None => count >= 2,
            };
            if longer {
                best = Some(Run { start: i, count, attr: share(attr) });
                proof {
                    let run = best->0;
                    let order = kids@[i as int].own_order();
                    assert(order[j as int] == *run.attr);
                    assert forall|q: int| 0 <= q < j implies run_len(
                        kids@,
                        i as int,
                        #[trigger] order[q],
                    ) < run.count by {}
                    assert(leads_upto(kids@, run, i as int, j + 1));
                }
            }
            j = j + 1;
        }
        proof {
            let order = kids@[i as int].own_order();
            assert forall|a: T| kids@[i as int].own().contains(a) implies exists|q: int|
                0 <= q < order.len() && order[q] == a by {
                assert(order.contains(a));
            }
        }
        i = i + 1;
    }
    best
}

/// What holds of the best run found so far, when the siblings before `i`
/// and the first `j` attributes of the sibling at `i` have been looked at.
spec fn leads_upto<T>(kids: Seq<Node<T>>, run: Run<T>, i: int, j: int) -> bool {
    &&& run.count >= 2
    &&& run.start + run.count <= kids.len()
    &&& kids[run.start as int].own().contains(*run.attr)
    &&& run_len(kids, run.start as int, *run.attr) == run.count
    &&& forall|s: int, a: T|
        0 <= s < i && kids[s].own().contains(a) ==> #[trigger] run_len(kids, s, a) <= run.count
    &&& forall|q: int|
        0 <= q < j && i < kids.len() ==> run_len(kids, i, #[trigger] kids[i].own_order()[q])
            <= run.count
    &&& forall|s: int, a: T|
        0 <= s < run.start && kids[s].own().contains(a) ==> #[trigger] run_len(kids, s, a)
            < run.count
    &&& exists|p: int|
        {
            &&& 0 <= p < kids[run.start as int].own_order().len()
            &&& #[trigger] kids[run.start as int].own_order()[p] == *run.attr
            &&& forall|q: int|
                0 <= q < p ==> run_len(
                    kids,
                    run.start as int,
                    #[trigger] kids[run.start as int].own_order()[q],
                ) < run.count
        }
}

/// Takes `attr` off each node of `members`, all of which carry it.
fn strip_own<T: PartialEq>(
    members: Vec<Node<T>>,
    attr: &T,
    journal: &mut Journal,
) -> (out: Vec<Node<T>>)
    requires
        decides_equality::<T>(),
        all_canonical(members@),
        forall|j: int| 0 <= j < members@.len() ==> members@[j].own().contains(*attr),
    ensures
        grown(old(journal)@, final(journal)@),
        no_more(members@, out@),
        all_stripped(members@, out@, *attr),
        all_pure(members@) ==> !seq_carried(out@).contains(*attr),
        out@.len() == members@.len(),
        all_canonical(out@),
        seq_content(out@) == seq_content(members@),
        widen(seq_marks(out@), set![*attr]) == seq_marks(members@),
        seq_weight(out@) + members@.len() == seq_weight(members@),
{
    let mut out: Vec<Node<T>> = Vec::new();
    let ghost whole = members@;
    proof {
        lemma_seq_empty::<T>();
        lemma_carried_empty::<T>();
        assert(whole.take(0) =~= Seq::<Node<T>>::empty());
        assert(widen(Seq::<Set<T>>::empty(), set![*attr]) =~= Seq::<Set<T>>::empty());
    }
    for node in it: members
        invariant
            decides_equality::<T>(),
            grown(old(journal)@, journal@),
            all_stripped(whole.take(it.index() as int), out@, *attr),
            no_more(whole.take(it.index() as int), out@),
            all_pure(whole.take(it.index() as int)) ==> !seq_carried(out@).contains(*attr),
            it.seq() == whole,
            all_canonical(whole),
            forall|j: int| 0 <= j < whole.len() ==> whole[j].own().contains(*attr),
            out@.len() == it.index(),
            all_canonical(out@),
            seq_content(out@) == seq_content(whole.take(it.index() as int)),
            widen(seq_marks(out@), set![*attr]) == seq_marks(whole.take(it.index() as int)),
            seq_weight(out@) + it.index() == seq_weight(whole.take(it.index() as int)),
    {
        let ghost at = it.index() as int;
        let ghost before = node;
        let mut node = node;
        node.attrs.remove(attr);
        journal.attributes_changed(&node.id);
        proof {
            assert(before == whole[at]);
            assert(whole.take(at + 1) =~= whole.take(at).push(before));
            lemma_seq_push(whole.take(at), before);
            lemma_seq_push(out@, node);
            assert(node.own().union(set![*attr]) =~= before.own());
            before.lemma_restyled(node, set![*attr]);
            before.lemma_carried();
            node.lemma_carried();
            before.lemma_pure();
            node.lemma_pure();
            lemma_carried_push(whole.take(at), before);
            lemma_carried_push(out@, node);
            assert(stripped(before, node, *attr));
            assert(all_stripped(whole.take(at + 1), out@.push(node), *attr)) by {
                assert forall|i: int| 0 <= i < at + 1 implies stripped(
                    whole.take(at + 1)[i],
                    #[trigger] out@.push(node)[i],
                    *attr,
                ) by {
                    if i < at {
                        assert(stripped(whole.take(at)[i], out@[i], *attr));
                    }
                }
            }
            lemma_widen_concat(seq_marks(out@), node.marks(), set![*attr]);
        }
        out.push(node);
    }
    assert(whole.take(whole.len() as int) =~= whole);
    out
}

/// Makes the node that stands for a group: it carries `attr` for `kids`,
/// which are in canonical arrangement. Where `kids` is one leaf, that leaf
/// takes the attribute itself.
pub(crate) fn crown<T: PartialEq>(
    kids: Vec<Node<T>>,
    attr: Rc<T>,
    journal: &mut Journal,
) -> (made: Node<T>)
    requires
        decides_equality::<T>(),
        settled(kids@),
    ensures
        grown(old(journal)@, final(journal)@),
        crowned(made, kids@, *attr),
        made.carried().subset_of(seq_carried(kids@).insert(*attr)),
        all_pure(kids@) && !seq_carried(kids@).contains(*attr) ==> made.pure(),
        made.canonical(),
        made.own().contains(*attr),
        made.content() == seq_content(kids@),
        made.marks() == widen(seq_marks(kids@), set![*attr]),
        made.weight() <= seq_weight(kids@) + 1,
{
    let ghost given = kids@;
    let mut kids = kids;
    if kids.len() == 1 && kids[0].children.len() == 0 {
        let mut only = kids.pop().unwrap();
        let ghost before = only;
        if only.attrs.insert(attr) {
            journal.attributes_changed(&only.id);
        }
        proof {
            lemma_seq_one(before);
            assert(given =~= seq![before]);
            assert(only.own() =~= before.own().union(set![*attr]));
            only.lemma_marks();
            before.lemma_marks();
            only.lemma_content();
            before.lemma_content();
            only.lemma_weight();
            before.lemma_weight();
            only.lemma_canonical();
            only.lemma_carried();
            only.lemma_pure();
            before.lemma_carried();
            before.lemma_pure();
            lemma_carried_empty::<T>();
            lemma_carried_push(Seq::<Node<T>>::empty(), before);
            assert(seq![before] =~= Seq::<Node<T>>::empty().push(before));
            assert(only.marks() =~= widen(before.marks(), set![*attr]));
        }
        only
    } else {
        let mut attrs = crate::attrs::AttrSet::new();
        attrs.insert(attr);
        let made = Node::inner_with(kids, attrs);
        proof {
            made.lemma_marks();
            made.lemma_content();
            made.lemma_weight();
            made.lemma_canonical();
            made.lemma_carried();
            made.lemma_pure();
            assert(made.own() =~= set![*attr]);
            if made.leaf() {
                lemma_seq_empty::<T>();
                assert(made.kids() =~= Seq::<Node<T>>::empty());
                assert(made.marks() =~= Seq::<Set<T>>::empty());
                assert(widen(Seq::<Set<T>>::empty(), set![*attr]) =~= Seq::<Set<T>>::empty());
            }
        }
        made
    }
}

/// What holds of a list of siblings in which the stretch `mid` has given
/// way to the one node `made`, which carries an attribute.
proof fn lemma_replaced<T>(
    head: Seq<Node<T>>,
    mid: Seq<Node<T>>,
    rest: Seq<Node<T>>,
    made: Node<T>,
)
    requires
        all_canonical(head + mid + rest),
        all_of_use(head + mid + rest),
        no_plain_pair(head + mid + rest),
        made.canonical(),
        made.own() != Set::<T>::empty(),
        made.content() == seq_content(mid),
        made.marks() == seq_marks(mid),
        seq_content(mid).len() > 0,
        made.carried().subset_of(seq_carried(mid)),
        all_pure(mid) ==> made.pure(),
    ensures
        no_more(head + mid + rest, head.push(made) + rest),
        all_canonical(head.push(made) + rest),
        all_of_use(head.push(made) + rest),
        no_plain_pair(head.push(made) + rest),
        seq_content(head.push(made) + rest) == seq_content(head + mid + rest),
        seq_marks(head.push(made) + rest) == seq_marks(head + mid + rest),
        seq_weight(head.push(made) + rest) + seq_weight(mid) == seq_weight(head + mid + rest)
            + made.weight(),
{
    let whole = head + mid + rest;
    let now = head.push(made) + rest;
    lemma_seq_concat(head, mid);
    lemma_seq_concat(head + mid, rest);
    lemma_seq_push(head, made);
    lemma_seq_concat(head.push(made), rest);
    lemma_carried_concat(head, mid);
    lemma_carried_concat(head + mid, rest);
    lemma_carried_push(head, made);
    lemma_carried_concat(head.push(made), rest);
    assert forall|i: int| 0 <= i < now.len() implies (#[trigger] now[i]).canonical()
        && now[i].of_use() by {
        if i < head.len() {
            assert(now[i] == whole[i]);
        } else if i > head.len() {
            assert(now[i] == whole[i + mid.len() - 1]);
        }
    }
    assert forall|i: int| #![trigger now[i]] 0 <= i < now.len() - 1 implies !(now[i].plain_leaf()
        && now[i + 1].plain_leaf()) by {
        if i + 1 < head.len() {
            assert(now[i] == whole[i]);
            assert(now[i + 1] == whole[i + 1]);
        } else if i > head.len() {
            assert(now[i] == whole[i + mid.len() - 1]);
            assert(now[i + 1] == whole[i + mid.len() - 1 + 1]);
        }
    }
}

/// Puts the `count` siblings from `start` on, which all carry `attr`, under
/// one new node that carries it for them.
pub(crate) fn group<T: PartialEq>(
    list: Vec<Node<T>>,
    start: usize,
    count: usize,
    attr: Rc<T>,
    journal: &mut Journal,
) -> (out: Vec<Node<T>>)
    requires
        decides_equality::<T>(),
        all_canonical(list@),
        all_of_use(list@),
        no_plain_pair(list@),
        count >= 2,
        start + count <= list@.len(),
        forall|j: int| start <= j < start + count ==> list@[j].own().contains(*attr),
    ensures
        all_canonical(out@),
        all_of_use(out@),
        no_plain_pair(out@),
        seq_content(out@) == seq_content(list@),
        seq_marks(out@) == seq_marks(list@),
        seq_weight(out@) < seq_weight(list@),
        out@.len() == list@.len() - count + 1,
        grown(old(journal)@, final(journal)@),
        no_more(list@, out@),
        grouped(list@, Run { start, count, attr }, out@),
    decreases seq_weight(list@), 0nat,
{
    let ghost whole = list@;
    let mut list = list;
    let total = list.len();
    let mut tail = list.split_off(start + count);
    let members = list.split_off(start);
    let ghost head = list@;
    let ghost mid = members@;
    let ghost rest = tail@;
    proof {
        assert(whole =~= head + mid + rest);
        lemma_seq_concat(head, mid);
        lemma_seq_concat(head + mid, rest);
        lemma_carried_concat(head, mid);
        lemma_carried_concat(head + mid, rest);
        assert forall|j: int| 0 <= j < mid.len() implies (#[trigger] mid[j]).canonical()
            && mid[j].own().contains(*attr) by {
            assert(mid[j] == whole[start + j]);
        }
    }
    let bare = strip_own(members, &attr, journal);
    let ghost bare_nodes = bare@;
    let kids = settle(bare, journal);
    let ghost under = kids@;
    let made = crown(kids, share(&attr), journal);
    proof {
        assert(made.own().contains(*attr));
        lemma_seq_at(mid, 0);
        assert(mid[0] == whole[start as int]);
        assert(whole[start as int].of_use());
        mid[0].lemma_carried();
        assert(mid[0].carried().contains(*attr));
        assert(seq_carried(mid).contains(*attr));
        lemma_replaced(head, mid, rest, made);
    }
    list.push(made);
    list.append(&mut tail);
    proof {
        assert(list@ =~= head.push(made) + rest);
        assert(list@.take(start as int) =~= whole.take(start as int));
        assert(list@.skip(start + 1) =~= whole.skip(start + count));
        assert(mid =~= whole.subrange(start as int, start + count));
        assert(list@[start as int] == made);
        assert(such(bare_nodes) && such(under));
        assert(grouped(whole, Run { start, count, attr }, list@));
    }
    list
}

/// Groups runs of siblings that share an attribute until none is left.
pub(crate) fn regroup<T: PartialEq>(
    nodes: Vec<Node<T>>,
    journal: &mut Journal,
) -> (out: Vec<Node<T>>)
    requires
        decides_equality::<T>(),
        all_canonical(nodes@),
        all_of_use(nodes@),
        no_plain_pair(nodes@),
    ensures
        settled(out@),
        seq_content(out@) == seq_content(nodes@),
        seq_marks(out@) == seq_marks(nodes@),
        seq_weight(out@) <= seq_weight(nodes@),
        no_shared_pair(nodes@) ==> out@ == nodes@,
        grown(old(journal)@, final(journal)@),
        no_shared_pair(nodes@) ==> final(journal)@ == old(journal)@,
        no_more(nodes@, out@),
        regrouped(nodes@, out@),
    decreases seq_weight(nodes@), 1nat,
{
    let ghost whole = nodes@;
    let mut list = nodes;
    loop
        invariant
            decides_equality::<T>(),
            whole == nodes@,
            all_canonical(list@),
            all_of_use(list@),
            no_plain_pair(list@),
            seq_content(list@) == seq_content(whole),
            seq_marks(list@) == seq_marks(whole),
            seq_weight(list@) <= seq_weight(whole),
            no_shared_pair(whole) ==> list@ == whole,
            grown(old(journal)@, journal@),
            no_shared_pair(whole) ==> journal@ == old(journal)@,
            no_more(whole, list@),
            forall|end: Seq<Node<T>>| #[trigger] regrouped(list@, end) ==> regrouped(whole, end),
        ensures
            settled(list@),
            regrouped(whole, list@),
        decreases list@.len(),
    {
        proof {
            lemma_no_run(list@);
        }
        match longest_run(&list) {
            None => {
                proof {
                    assert(regrouped(list@, list@));
                }
                break ;
            },
            Some(run) => {
                let ghost before = list@;
                let ghost found = run;
                proof {
                    assert forall|j: int|
                        run.start <= j < run.start + run.count implies list@[j].own().contains(
                        *run.attr,
                    ) by {
                        lemma_run_members(list@, run.start as int, *run.attr, j);
                    }
                }
                list = group(list, run.start, run.count, run.attr, journal);
                proof {
                    assert(Run { start: found.start, count: found.count, attr: found.attr }
                        == found);
                    assert forall|end: Seq<Node<T>>| #[trigger]
                        regrouped(list@, end) implies regrouped(whole, end) by {
                        assert(leads(before, found) && such(list@));
                        assert(regrouped(before, end));
                    }
                }
            },
        }
    }
    list
}

/// Brings a list of siblings, each canonical below itself, into canonical
/// arrangement: inner nodes without attributes give way to their children,
/// neighbouring leaves without attributes become one, and runs of siblings
/// that share an attribute are grouped under a node that carries it.
pub(crate) fn settle<T: PartialEq>(list: Vec<Node<T>>, journal: &mut Journal) -> (out: Vec<Node<T>>)
    requires
        decides_equality::<T>(),
        all_canonical(list@),
    ensures
        settled(out@),
        seq_content(out@) == seq_content(list@),
        seq_marks(out@) == seq_marks(list@),
        seq_weight(out@) <= seq_weight(list@),
        settled(list@) ==> out@ == list@,
        grown(old(journal)@, final(journal)@),
        settled(list@) ==> final(journal)@ == old(journal)@,
        no_more(list@, out@),
        settles(list@, out@),
    decreases seq_weight(list@), 2nat,
{
    let lifted = promote(list);
    let joined = fuse(lifted, journal);
    proof {
        assert(such(joined@));
    }
    regroup(joined, journal)
}

impl<T: PartialEq> Node<T> {
    /// Takes the children out of the node, which is left as a leaf.
    pub(crate) fn take_kids(&mut self) -> (kids: Vec<Node<T>>)
        ensures
            kids@ == old(self).kids(),
            final(self).kids() == Seq::<Node<T>>::empty(),
            final(self).own() == old(self).own(),
            final(self).own_order() == old(self).own_order(),
            final(self).fragment() == old(self).fragment(),
            final(self).at_root() == old(self).at_root(),
            final(self).ident() == old(self).ident(),
    {
        let mut kids: Vec<Node<T>> = Vec::new();
        std::mem::swap(&mut kids, &mut self.children);
        kids
    }

    /// Makes `kids`, which are in canonical arrangement, the children of the
    /// node. Where `kids` is one leaf, the node becomes that leaf instead and
    /// takes its text and attributes; the result says whether it did.
    pub(crate) fn adopt(&mut self, kids: Vec<Node<T>>) -> (merged: bool)
        requires
            decides_equality::<T>(),
            settled(kids@),
        ensures
            final(self).canonical(),
            final(self).content() == seq_content(kids@),
            final(self).marks() == widen(seq_marks(kids@), old(self).own()),
            final(self).weight() <= old(self).own_order().len() + seq_weight(kids@),
            final(self).at_root() == old(self).at_root(),
            final(self).ident() == old(self).ident(),
            old(self).own().subset_of(final(self).own()),
            merged == lone_leaf(kids@),
            merged == (final(self).leaf() && final(self).content().len() > 0),
            !merged ==> final(self).kids() == kids@ && final(self).own() == old(self).own()
                && final(self).own_order() == old(self).own_order(),
            final(self).carried().subset_of(old(self).own().union(seq_carried(kids@))),
            all_pure(kids@) && seq_carried(kids@).disjoint(old(self).own()) ==> final(self).pure(),
            adopted(*old(self), kids@, *final(self)),
    {
        let mut kids = kids;
        let ghost given = kids@;
        if kids.len() == 1 && kids[0].children.len() == 0 {
            let only = kids.pop().unwrap();
            proof {
                assert(given =~= seq![only]);
                lemma_seq_one(only);
                only.lemma_content();
                only.lemma_marks();
                only.lemma_weight();
            }
            let Node { id: _, attrs, text, children: _, root: _ } = only;
            self.text = text;
            self.children = kids;
            self.attrs.absorb(attrs);
            proof {
                self.lemma_content();
                self.lemma_marks();
                self.lemma_weight();
                self.lemma_canonical();
                self.lemma_carried();
                self.lemma_pure();
                only.lemma_carried();
                lemma_carried_empty::<T>();
                lemma_carried_push(Seq::<Node<T>>::empty(), only);
                assert(seq![only] =~= Seq::<Node<T>>::empty().push(only));
                lemma_seq_empty::<T>();
                assert(self.marks() =~= widen(only.marks(), old(self).own())) by {
                    assert forall|i: int| 0 <= i < only.marks().len() implies self.marks()[i]
                        == widen(only.marks(), old(self).own())[i] by {
                        assert(old(self).own().union(only.own()) =~= only.own().union(
                            old(self).own(),
                        ));
                    }
                }
            }
            true
        } else {
            self.text = Vec::new();
            self.children = kids;
            proof {
                self.lemma_content();
                self.lemma_marks();
                self.lemma_weight();
                self.lemma_canonical();
                self.lemma_carried();
                self.lemma_pure();
                if given.len() == 0 {
                    lemma_seq_empty::<T>();
                    assert(given =~= Seq::<Node<T>>::empty());
                    assert(self.marks() =~= widen(seq_marks(given), old(self).own()));
                }
            }
            false
        }
    }
}

/// Whether `ids` holds the identifiers of `kids`, one by one.
pub open spec fn names<T>(ids: Seq<String>, kids: Seq<Node<T>>) -> bool {
    &&& ids.len() == kids.len()
    &&& forall|i: int| 0 <= i < ids.len() ==> (#[trigger] ids[i])@ == kids[i].ident()
}

/// Says whether `ids` holds the identifiers of `kids`, one by one.
fn same_ids<T>(ids: &Vec<String>, kids: &Vec<Node<T>>) -> (same: bool)
    ensures
        same == names(ids@, kids@),
{
    if ids.len() != kids.len() {
        return false;
    }
    let mut i: usize = 0;
    while i < ids.len()
        invariant
            i <= ids@.len(),
            ids@.len() == kids@.len(),
            forall|j: int| 0 <= j < i ==> (#[trigger] ids@[j])@ == kids@[j].ident(),
        decreases ids@.len() - i,
    {
        if ids[i] != kids[i].id {
            return false;
        }
        i = i + 1;
    }
    true
}

/// The record of a node losing its `count` children, the last one first.
pub open spec fn losses(parent: Seq<char>, count: nat) -> Seq<Change> {
    Seq::new(
        count,
        |i: int| Change::NodeRemoved { parent, removed_idx: (count - 1 - i) as usize },
    )
}

/// The record of a node getting `count` children, the first one first.
pub open spec fn gains(parent: Seq<char>, count: nat) -> Seq<Change> {
    Seq::new(count, |i: int| Change::NodeAdded { parent, added_idx: i as usize })
}

/// Records that the node `parent` has lost `count` children, the last one
/// first.
pub(crate) fn record_removed(journal: &mut Journal, parent: &String, count: usize)
    ensures
        final(journal)@ == old(journal)@ + losses(parent@, count as nat),
        grown(old(journal)@, final(journal)@),
{
    let mut left = count;
    assert(journal@ =~= old(journal)@ + losses(parent@, count as nat).take(0));
    while left > 0
        invariant
            left <= count,
            journal@ == old(journal)@ + losses(parent@, count as nat).take(count - left),
        decreases left,
    {
        left = left - 1;
        journal.node_removed(parent, left);
        assert(journal@ =~= old(journal)@ + losses(parent@, count as nat).take(count - left));
    }
    assert(losses(parent@, count as nat).take(count as int) =~= losses(parent@, count as nat));
}

/// Records that the node `parent` has `count` new children, the first one
/// first.
pub(crate) fn record_added(journal: &mut Journal, parent: &String, count: usize)
    ensures
        final(journal)@ == old(journal)@ + gains(parent@, count as nat),
        grown(old(journal)@, final(journal)@),
{
    let mut at: usize = 0;
    assert(journal@ =~= old(journal)@ + gains(parent@, count as nat).take(0));
    while at < count
        invariant
            at <= count,
            journal@ == old(journal)@ + gains(parent@, count as nat).take(at as int),
        decreases count - at,
    {
        journal.node_added(parent, at);
        at = at + 1;
        assert(journal@ =~= old(journal)@ + gains(parent@, count as nat).take(at as int));
    }
    assert(gains(parent@, count as nat).take(count as int) =~= gains(parent@, count as nat));
}

impl<T: PartialEq> Node<T> {
    /// The identifiers of the children, in order.
    pub(crate) fn kid_ids(&self) -> (ids: Vec<String>)
        ensures
            names(ids@, self.kids()),
    {
        let mut ids: Vec<String> = Vec::new();
        let mut i: usize = 0;
        while i < self.children.len()
            invariant
                i <= self.children@.len(),
                ids@.len() == i,
                forall|j: int| 0 <= j < i ==> (#[trigger] ids@[j])@ == self.children@[j].ident(),
            decreases self.children@.len() - i,
        {
            ids.push(self.children[i].id.clone());
            i = i + 1;
        }
        ids
    }

    /// Brings `kids` into canonical arrangement and makes them the children
    /// of the node, whose children had the identifiers `former` before.
    /// Where one leaf is all that is left of `kids`, the node becomes that
    /// leaf instead and takes its text and attributes; the result says
    /// whether it did. The changes are recorded: to the nodes of `kids`, and
    /// to the children, text and attributes of this node.
    pub(crate) fn install(
        &mut self,
        former: Vec<String>,
        kids: Vec<Node<T>>,
        journal: &mut Journal,
    ) -> (merged: bool)
        requires
            decides_equality::<T>(),
            all_canonical(kids@),
        ensures
            final(self).canonical(),
            final(self).content() == seq_content(kids@),
            final(self).marks() == widen(seq_marks(kids@), old(self).own()),
            final(self).weight() <= old(self).own_order().len() + seq_weight(kids@),
            final(self).at_root() == old(self).at_root(),
            final(self).ident() == old(self).ident(),
            old(self).own().subset_of(final(self).own()),
            merged == (final(self).leaf() && final(self).content().len() > 0),
            settled(kids@) && !lone_leaf(kids@) ==> final(self).kids() == kids@,
            settled(kids@) && !lone_leaf(kids@) ==> final(self).own_order() == old(
                self,
            ).own_order(),
            grown(old(journal)@, final(journal)@),
            settled(kids@) && !lone_leaf(kids@) && names(former@, kids@) ==> final(journal)@
                == old(journal)@,
            final(self).carried().subset_of(old(self).own().union(seq_carried(kids@))),
            all_pure(kids@) && seq_carried(kids@).disjoint(old(self).own()) ==> final(self).pure(),
            installed(*old(self), kids@, *final(self)),
    {
        let kids = settle(kids, journal);
        proof {
            assert(such(kids@));
        }
        if kids.len() == 1 && kids[0].children.len() == 0 {
            let plain = kids[0].attrs.is_empty();
            record_removed(journal, &self.id, former.len());
            let merged = self.adopt(kids);
            journal.text_changed(&self.id);
            if !plain {
                journal.attributes_changed(&self.id);
            }
            merged
        } else {
            if !same_ids(&former, &kids) {
                record_removed(journal, &self.id, former.len());
                record_added(journal, &self.id, kids.len());
            }
            self.adopt(kids)
        }
    }
}

impl<T: PartialEq> Node<T> {
    /// Brings the children of the node, each of which is in canonical
    /// arrangement below itself, into canonical arrangement: inner nodes
    /// without attributes give way to their children, neighbouring leaves
    /// without attributes are joined, and runs of siblings that share an
    /// attribute are grouped. Where one leaf is all that is left of them,
    /// the node becomes that leaf. A leaf stays as it is.
    pub fn regroup_neighbors(&mut self)
        requires
            decides_equality::<T>(),
            all_canonical(old(self).kids()),
        ensures
            old(self).leaf() ==> *final(self) == *old(self),
            !old(self).leaf() ==> installed(*old(self), old(self).kids(), *final(self)),
            final(self).canonical(),
            final(self).content() == old(self).content(),
            final(self).marks() == old(self).marks(),
            final(self).at_root() == old(self).at_root(),
            final(self).ident() == old(self).ident(),
            settled(old(self).kids()) && !lone_leaf(old(self).kids()) ==> final(self).kids() == old(
                self,
            ).kids() && final(self).own_order() == old(self).own_order(),
    {
        proof {
            self.lemma_content();
            self.lemma_marks();
            self.lemma_canonical();
        }
        if self.children.len() > 0 {
            let mut scratch = Journal::new();
            let ids = self.kid_ids();
            let kids = self.take_kids();
            self.install(ids, kids, &mut scratch);
        }
    }

    /// Finds among the children the run of siblings to group first: the
    /// attribute that they share, and where they stand. There is none where
    /// no two neighbours share an attribute.
    pub fn find_max_similar_neighbors(&self) -> (found: Option<(Rc<T>, Vec<usize>)>)
        requires
            decides_equality::<T>(),
        ensures
            match found {
                Some((attr, places)) => {
                    &&& places@.len() >= 2
                    &&& leads(
                        self.kids(),
                        Run { start: places@[0], count: places@.len() as usize, attr },
                    )
                    &&& forall|k: int|
                        0 <= k < places@.len() ==> #[trigger] places@[k] == places@[0] + k
                },
                None => no_shared_pair(self.kids()),
            },
    {
        proof {
            lemma_no_run(self.kids());
        }
        match longest_run(&self.children) {
            None => None,
            Some(run) => {
                let Run { start, count, attr } = run;
                let mut places: Vec<usize> = Vec::new();
                let mut k: usize = 0;
                let total = self.children.len();
                while k < count
                    invariant
                        k <= count,
                        start + count <= total,
                        places@.len() == k,
                        forall|j: int| 0 <= j < k ==> #[trigger] places@[j] == start + j,
                    decreases count - k,
                {
                    places.push(start + k);
                    k = k + 1;
                }
                Some((attr, places))
            },
        }
    }
}

} // verus!
