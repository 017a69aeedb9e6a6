//! Sequences put together from the parts that each item of a list contributes.

use crate::style::part;
use vstd::prelude::*;
use vstd::seq_lib::lemma_flatten_concat;

verus! {

/// What the items of `list` contribute under `part`, in order, end to end.
pub open spec fn gather<A, B>(list: Seq<A>, part: spec_fn(A) -> Seq<B>) -> Seq<B> {
    list.map_values(part).flatten()
}

/// The sum of what the items of `list` count under `count`.
pub open spec fn tally<A>(list: Seq<A>, count: spec_fn(A) -> nat) -> nat
    decreases list.len(),
{
    if list.len() == 0 {
        0
    } else {
        tally(list.drop_last(), count) + count(list.last())
    }
}

pub proof fn lemma_gather_empty<A, B>(part: spec_fn(A) -> Seq<B>)
    ensures
        gather(Seq::<A>::empty(), part) == Seq::<B>::empty(),
{
    assert(Seq::<A>::empty().map_values(part) =~= Seq::<Seq<B>>::empty());
}

pub proof fn lemma_gather_one<A, B>(item: A, part: spec_fn(A) -> Seq<B>)
    ensures
        gather(seq![item], part) == part(item),
{
    assert(seq![item].map_values(part) =~= seq![part(item)]);
    seq![part(item)].lemma_flatten_singleton();
}

pub proof fn lemma_gather_concat<A, B>(a: Seq<A>, b: Seq<A>, part: spec_fn(A) -> Seq<B>)
    ensures
        gather(a + b, part) == gather(a, part) + gather(b, part),
{
    assert((a + b).map_values(part) =~= a.map_values(part) + b.map_values(part));
    lemma_flatten_concat(a.map_values(part), b.map_values(part));
}

pub proof fn lemma_gather_push<A, B>(list: Seq<A>, item: A, part: spec_fn(A) -> Seq<B>)
    ensures
        gather(list.push(item), part) == gather(list, part) + part(item),
{
    assert(list.push(item) =~= list + seq![item]);
    lemma_gather_concat(list, seq![item], part);
    lemma_gather_one(item, part);
}

/// A list gathers to what its items before `at` gather to, then what those
/// from `at` on gather to.
pub proof fn lemma_gather_split<A, B>(list: Seq<A>, at: int, part: spec_fn(A) -> Seq<B>)
    requires
        0 <= at <= list.len(),
    ensures
        gather(list, part) == gather(list.take(at), part) + gather(list.skip(at), part),
{
    assert(list =~= list.take(at) + list.skip(at));
    lemma_gather_concat(list.take(at), list.skip(at), part);
}

/// A list gathers to what stands before the item at `at`, that item's part,
/// and what stands behind it.
pub proof fn lemma_gather_at<A, B>(list: Seq<A>, at: int, part: spec_fn(A) -> Seq<B>)
    requires
        0 <= at < list.len(),
    ensures
        gather(list, part) == gather(list.take(at), part) + part(list[at]) + gather(
            list.skip(at + 1),
            part,
        ),
        gather(list.take(at + 1), part) == gather(list.take(at), part) + part(list[at]),
{
    lemma_gather_split(list, at + 1, part);
    assert(list.take(at + 1) =~= list.take(at).push(list[at]));
    lemma_gather_push(list.take(at), list[at], part);
}

pub proof fn lemma_tally_concat<A>(a: Seq<A>, b: Seq<A>, count: spec_fn(A) -> nat)
    ensures
        tally(a + b, count) == tally(a, count) + tally(b, count),
    decreases b.len(),
{
    if b.len() == 0 {
        assert(a + b =~= a);
    } else {
        assert((a + b).drop_last() =~= a + b.drop_last());
        lemma_tally_concat(a, b.drop_last(), count);
    }
}

pub proof fn lemma_tally_one<A>(item: A, count: spec_fn(A) -> nat)
    ensures
        tally(seq![item], count) == count(item),
{
    reveal_with_fuel(tally, 2);
    assert(seq![item].drop_last() =~= Seq::<A>::empty());
}

pub proof fn lemma_tally_push<A>(list: Seq<A>, item: A, count: spec_fn(A) -> nat)
    ensures
        tally(list.push(item), count) == tally(list, count) + count(item),
{
    assert(list.push(item).drop_last() =~= list);
}

pub proof fn lemma_tally_at<A>(list: Seq<A>, at: int, count: spec_fn(A) -> nat)
    requires
        0 <= at < list.len(),
    ensures
        tally(list, count) == tally(list.take(at), count) + count(list[at]) + tally(
            list.skip(at + 1),
            count,
        ),
        tally(list.take(at + 1), count) == tally(list.take(at), count) + count(list[at]),
{
    assert(list =~= list.take(at + 1) + list.skip(at + 1));
    lemma_tally_concat(list.take(at + 1), list.skip(at + 1), count);
    assert(list.take(at + 1) =~= list.take(at).push(list[at]));
    lemma_tally_push(list.take(at), list[at], count);
}

} // verus!
