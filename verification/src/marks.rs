//! What setting and unsetting an attribute over a range of bytes does to the
//! attributes that each byte carries.

use crate::node::widen;
use vstd::prelude::*;

verus! {

/// `marks` with `attr` added to every byte from `start` up to `end`.
pub open spec fn paint<T>(marks: Seq<Set<T>>, start: int, end: int, attr: T) -> Seq<Set<T>> {
    Seq::new(
        marks.len(),
        |i: int|
            if start <= i < end {
                marks[i].insert(attr)
            } else {
                marks[i]
            },
    )
}

/// `marks` with `attr` taken from every byte from `start` up to `end`.
pub open spec fn erase<T>(marks: Seq<Set<T>>, start: int, end: int, attr: T) -> Seq<Set<T>> {
    Seq::new(
        marks.len(),
        |i: int|
            if start <= i < end {
                marks[i].remove(attr)
            } else {
                marks[i]
            },
    )
}

/// `index` held to the positions of a sequence of the length `len`.
pub open spec fn within(index: int, len: nat) -> int {
    if index < 0 {
        0
    } else if index > len {
        len as int
    } else {
        index
    }
}

/// `items` without those from `from` up to `to`, as far as there are any.
pub open spec fn without<A>(items: Seq<A>, from: int, to: int) -> Seq<A> {
    if from < to {
        items.take(within(from, items.len())) + items.skip(within(to, items.len()))
    } else {
        items
    }
}

/// Taking a range out of two sequences end to end takes from each what of
/// the range falls on it.
pub proof fn lemma_without_concat<A>(x: Seq<A>, y: Seq<A>, from: int, to: int)
    ensures
        without(x + y, from, to) == without(x, from, to) + without(
            y,
            from - x.len(),
            to - x.len(),
        ),
{
    assert(without(x + y, from, to) =~= without(x, from, to) + without(
        y,
        from - x.len(),
        to - x.len(),
    ));
}

/// Only the part of the range that lies within the sequence counts.
pub proof fn lemma_without_clamp<A>(items: Seq<A>, from: int, to: int)
    ensures
        without(items, from, to) == without(
            items,
            within(from, items.len()),
            within(to, items.len()),
        ),
        within(from, items.len()) >= within(to, items.len()) ==> without(items, from, to)
            == items,
{
    assert(without(items, from, to) =~= without(
        items,
        within(from, items.len()),
        within(to, items.len()),
    ));
    if within(from, items.len()) >= within(to, items.len()) {
        assert(without(items, from, to) =~= items);
    }
}

/// Taking a range out of marks that are widened by a set is widening what is
/// left of the marks.
pub proof fn lemma_without_widen<T>(marks: Seq<Set<T>>, more: Set<T>, from: int, to: int)
    ensures
        without(widen(marks, more), from, to) == widen(without(marks, from, to), more),
{
    assert(without(widen(marks, more), from, to) =~= widen(without(marks, from, to), more));
}

/// Painting two stretches of marks end to end paints each of them, the
/// second with the range moved by the length of the first.
pub proof fn lemma_paint_concat<T>(x: Seq<Set<T>>, y: Seq<Set<T>>, start: int, end: int, attr: T)
    ensures
        paint(x + y, start, end, attr) == paint(x, start, end, attr) + paint(
            y,
            start - x.len(),
            end - x.len(),
            attr,
        ),
{
    assert(paint(x + y, start, end, attr) =~= paint(x, start, end, attr) + paint(
        y,
        start - x.len(),
        end - x.len(),
        attr,
    ));
}

/// Painting changes nothing where every byte of the range carries the
/// attribute already, and so where the range holds no byte.
pub proof fn lemma_paint_same<T>(marks: Seq<Set<T>>, start: int, end: int, attr: T)
    requires
        forall|i: int| 0 <= i < marks.len() && start <= i < end ==> marks[i].contains(attr),
    ensures
        paint(marks, start, end, attr) == marks,
{
    assert forall|i: int| 0 <= i < marks.len() implies paint(marks, start, end, attr)[i]
        == marks[i] by {
        if start <= i < end {
            assert(marks[i].insert(attr) =~= marks[i]);
        }
    }
    assert(paint(marks, start, end, attr) =~= marks);
}

/// Only the part of the range that lies within the marks counts.
pub proof fn lemma_paint_clamp<T>(
    marks: Seq<Set<T>>,
    start: int,
    end: int,
    from: int,
    to: int,
    attr: T,
)
    requires
        from == (if start < 0 {
            0
        } else {
            start
        }),
        to == (if end > marks.len() {
            marks.len() as int
        } else {
            end
        }),
    ensures
        paint(marks, start, end, attr) == paint(marks, from, to, attr),
{
    assert(paint(marks, start, end, attr) =~= paint(marks, from, to, attr));
}

/// Painting marks that are widened by a set is widening the painted marks.
pub proof fn lemma_paint_widen<T>(marks: Seq<Set<T>>, more: Set<T>, start: int, end: int, attr: T)
    ensures
        paint(widen(marks, more), start, end, attr) == widen(paint(marks, start, end, attr), more),
{
    assert forall|i: int| 0 <= i < marks.len() implies paint(
        widen(marks, more),
        start,
        end,
        attr,
    )[i] == widen(paint(marks, start, end, attr), more)[i] by {
        if start <= i < end {
            assert(marks[i].union(more).insert(attr) =~= marks[i].insert(attr).union(more));
        }
    }
    assert(paint(widen(marks, more), start, end, attr) =~= widen(
        paint(marks, start, end, attr),
        more,
    ));
}

pub proof fn lemma_erase_concat<T>(x: Seq<Set<T>>, y: Seq<Set<T>>, start: int, end: int, attr: T)
    ensures
        erase(x + y, start, end, attr) == erase(x, start, end, attr) + erase(
            y,
            start - x.len(),
            end - x.len(),
            attr,
        ),
{
    assert(erase(x + y, start, end, attr) =~= erase(x, start, end, attr) + erase(
        y,
        start - x.len(),
        end - x.len(),
        attr,
    ));
}

/// Erasing changes nothing where no byte of the range carries the
/// attribute, and so where the range holds no byte.
pub proof fn lemma_erase_same<T>(marks: Seq<Set<T>>, start: int, end: int, attr: T)
    requires
        forall|i: int| 0 <= i < marks.len() && start <= i < end ==> !marks[i].contains(attr),
    ensures
        erase(marks, start, end, attr) == marks,
{
    assert forall|i: int| 0 <= i < marks.len() implies erase(marks, start, end, attr)[i]
        == marks[i] by {
        if start <= i < end {
            assert(marks[i].remove(attr) =~= marks[i]);
        }
    }
    assert(erase(marks, start, end, attr) =~= marks);
}

pub proof fn lemma_erase_clamp<T>(
    marks: Seq<Set<T>>,
    start: int,
    end: int,
    from: int,
    to: int,
    attr: T,
)
    requires
        from == (if start < 0 {
            0
        } else {
            start
        }),
        to == (if end > marks.len() {
            marks.len() as int
        } else {
            end
        }),
    ensures
        erase(marks, start, end, attr) == erase(marks, from, to, attr),
{
    assert(erase(marks, start, end, attr) =~= erase(marks, from, to, attr));
}

} // verus!
