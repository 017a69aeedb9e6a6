//! The set of attributes attached to one node.

use std::rc::Rc;
use vstd::laws_eq::obeys_concrete_eq;
use vstd::prelude::*;

verus! {

/// Makes a second handle to a shared attribute value by calling `Rc::clone`,
/// which hands back a pointer to the same allocation: both handles hold the
/// same value.
#[verifier::external_body]
pub(crate) fn share<T>(attr: &Rc<T>) -> (out: Rc<T>)
    ensures
        out == *attr,
{
    Rc::clone(attr)
}

/// True when `==` on `T` in executable code decides equality of values.
pub open spec fn decides_equality<T: PartialEq>() -> bool {
    obeys_concrete_eq::<T>()
}

/// The values behind a sequence of handles.
spec fn values<T>(handles: Seq<Rc<T>>) -> Seq<T> {
    Seq::new(handles.len(), |i: int| *handles[i])
}

/// The attributes of `first` and then those of `more` that `first` does
/// not hold.
pub open spec fn joint<T>(first: Seq<T>, more: Seq<T>) -> Seq<T> {
    first + more.filter(|x: T| !first.contains(x))
}

/// The attributes attached to one node: shared values, each held once.
pub struct AttrSet<T> {
    items: Vec<Rc<T>>,
}

impl<T> View for AttrSet<T> {
    type V = Set<T>;

    open spec fn view(&self) -> Set<T> {
        self.order().to_set()
    }
}

impl<T> AttrSet<T> {
    /// The attributes in the order in which they were added.
    pub closed spec fn order(self) -> Seq<T> {
        values(self.items@)
    }

    #[verifier::type_invariant]
    spec fn distinct(self) -> bool {
        self.order().no_duplicates()
    }

    /// An empty set.
    pub fn new() -> (out: Self)
        ensures
            out.order() == Seq::<T>::empty(),
            out@ == Set::<T>::empty(),
    {
        let out = AttrSet { items: Vec::new() };
        assert(out.order() =~= Seq::<T>::empty());
        assert(out@ =~= Set::<T>::empty());
        out
    }

    /// How many attributes the set holds.
    pub fn len(&self) -> (n: usize)
        ensures
            n == self.order().len(),
            n == self@.len(),
            self.order().no_duplicates(),
    {
        proof {
            use_type_invariant(self);
            self.order().unique_seq_to_set();
        }
        self.items.len()
    }

    /// Whether the set holds nothing.
    pub fn is_empty(&self) -> (b: bool)
        ensures
            b == (self.order().len() == 0),
            b == (self@ == Set::<T>::empty()),
    {
        proof {
            if self.order().len() == 0 {
                assert(self@ =~= Set::<T>::empty());
            } else {
                assert(self@.contains(self.order()[0]));
            }
        }
        self.items.len() == 0
    }

    /// The attribute that was added as the `i`-th of those still held.
    pub fn get(&self, i: usize) -> (attr: &Rc<T>)
        requires
            i < self.order().len(),
        ensures
            **attr == self.order()[i as int],
            self@.contains(**attr),
    {
        &self.items[i]
    }

    /// A second set with handles to the same attributes, in the same order.
    pub fn duplicate(&self) -> (out: Self)
        ensures
            out.order() == self.order(),
            out@ == self@,
    {
        proof {
            use_type_invariant(self);
        }
        let mut items: Vec<Rc<T>> = Vec::new();
        let mut i: usize = 0;
        while i < self.items.len()
            invariant
                i <= self.items@.len(),
                items@.len() == i,
                values(items@) == values(self.items@).take(i as int),
            decreases self.items@.len() - i,
        {
            let handle = share(&self.items[i]);
            let ghost before = items@;
            items.push(handle);
            i = i + 1;
            assert(values(items@) =~= values(self.items@).take(i as int)) by {
                assert forall|j: int| 0 <= j < i implies values(items@)[j] == values(
                    self.items@,
                ).take(i as int)[j] by {
                    if j < i - 1 {
                        assert(values(before)[j] == values(self.items@).take(i - 1)[j]);
                    }
                }
            }
        }
        assert(values(self.items@).take(i as int) =~= values(self.items@));
        AttrSet { items }
    }
}

impl<T: PartialEq> AttrSet<T> {
    /// Where `attr` stands in the order, if the set holds it.
    fn position(&self, attr: &T) -> (at: Option<usize>)
        requires
            decides_equality::<T>(),
        ensures
            match at {
                Some(i) => i < self.order().len() && self.order()[i as int] == *attr,
                None => !self@.contains(*attr),
            },
    {
        let mut i: usize = 0;
        while i < self.items.len()
            invariant
                i <= self.items@.len(),
                decides_equality::<T>(),
                forall|j: int| 0 <= j < i ==> self.order()[j] != *attr,
            decreases self.items@.len() - i,
        {
            proof {
                reveal(obeys_concrete_eq);
            }
            let here: &T = &self.items[i];
            if *here == *attr {
                return Some(i);
            }
            i = i + 1;
        }
        None
    }

    /// Whether the set holds `attr`.
    pub fn contains(&self, attr: &T) -> (b: bool)
        requires
            decides_equality::<T>(),
        ensures
            b == self@.contains(*attr),
    {
        self.position(attr).is_some()
    }

    /// Adds `attr` unless the set holds it already; says whether it was added.
    pub fn insert(&mut self, attr: Rc<T>) -> (added: bool)
        requires
            decides_equality::<T>(),
        ensures
            added == !old(self)@.contains(*attr),
            final(self)@ == old(self)@.insert(*attr),
            final(self).order() == if added {
                old(self).order().push(*attr)
            } else {
                old(self).order()
            },
            final(self).order().len() <= old(self).order().len() + 1,
            !added ==> *final(self) == *old(self),
    {
        proof {
            use_type_invariant(&*self);
        }
        match self.position(&attr) {
            Some(_) => {
                assert(self@ =~= self@.insert(*attr));
                false
            },
            None => {
                let ghost before = self.order();
                assert(values(self.items@.push(attr)) =~= before.push(*attr));
                assert(before.push(*attr).no_duplicates());
                let mut items: Vec<Rc<T>> = Vec::new();
                std::mem::swap(&mut items, &mut self.items);
                items.push(attr);
                self.items = items;
                proof {
                    let value = *attr;
                    before.lemma_push_to_set_commute(value);
                }
                true
            },
        }
    }

    /// Adds every attribute of `other` that the set does not hold yet, in the
    /// order in which `other` holds them.
    pub fn absorb(&mut self, other: AttrSet<T>)
        requires
            decides_equality::<T>(),
        ensures
            final(self)@ == old(self)@.union(other@),
            final(self).order() == joint(old(self).order(), other.order()),
            final(self).order().len() <= old(self).order().len() + other.order().len(),
    {
        let ghost start = self@;
        let ghost first = self.order();
        let ghost fresh = |x: T| !first.contains(x);
        proof {
            use_type_invariant(&other);
        }
        let AttrSet { items } = other;
        let ghost given = values(items@);
        proof {
            assert(self@ =~= start.union(given.take(0).to_set()));
            assert(given.take(0).filter(fresh) =~= Seq::<T>::empty()) by {
                reveal(Seq::filter);
            }
            assert(first + Seq::<T>::empty() =~= first);
        }
        for handle in it: items
            invariant
                decides_equality::<T>(),
                values(it.seq()) == given,
                given.no_duplicates(),
                start == first.to_set(),
                fresh == |x: T| !first.contains(x),
                self@ == start.union(given.take(it.index() as int).to_set()),
                self.order() == first + given.take(it.index() as int).filter(fresh),
        {
            let ghost at = it.index() as int;
            proof {
                assert(given[at] == *handle);
                assert(given.take(at + 1) =~= given.take(at).push(*handle));
                let value = *handle;
                given.take(at).lemma_push_to_set_commute(value);
                given.take(at).lemma_filter_push(value, fresh);
                assert(start.union(given.take(at).to_set()).insert(*handle) =~= start.union(
                    given.take(at + 1).to_set(),
                ));
                assert(!given.take(at).contains(value)) by {
                    if given.take(at).contains(value) {
                        let j = choose|j: int| 0 <= j < at && given.take(at)[j] == value;
                        assert(given[j] == given[at]);
                    }
                }
                assert((first + given.take(at).filter(fresh)).push(value) =~= first + given.take(
                    at,
                ).filter(fresh).push(value));
            }
            self.insert(handle);
        }
        proof {
            assert(given.take(given.len() as int) =~= given);
            given.lemma_filter_len(fresh);
        }
    }

    /// Takes `attr` out of the set and hands back the handle that was held.
    pub fn remove(&mut self, attr: &T) -> (taken: Option<Rc<T>>)
        requires
            decides_equality::<T>(),
        ensures
            taken is Some == old(self)@.contains(*attr),
            taken matches Some(handle) ==> *handle == *attr,
            final(self)@ == old(self)@.remove(*attr),
            final(self).order() == old(self).order().filter(|x: T| x != *attr),
            final(self).order().len() + (if taken is Some {
                1nat
            } else {
                0nat
            }) == old(self).order().len(),
            taken is None ==> *final(self) == *old(self),
    {
        proof {
            use_type_invariant(&*self);
        }
        let ghost before = self.order();
        match self.position(attr) {
            Some(i) => {
                proof {
                    lemma_drop_one(before, i as int);
                    assert(values(self.items@.remove(i as int)) =~= before.remove(i as int));
                }
                let mut items: Vec<Rc<T>> = Vec::new();
                std::mem::swap(&mut items, &mut self.items);
                let handle = items.remove(i);
                self.items = items;
                Some(handle)
            },
            None => {
                proof {
                    lemma_drop_none(before, *attr);
                    assert(self@ =~= self@.remove(*attr));
                }
                None
            },
        }
    }
}

/// Removing the only occurrence of a value from a sequence without
/// duplicates filters that value out.
proof fn lemma_drop_one<T>(s: Seq<T>, at: int)
    requires
        s.no_duplicates(),
        0 <= at < s.len(),
    ensures
        s.remove(at) == s.filter(|x: T| x != s[at]),
        s.remove(at).no_duplicates(),
        s.remove(at).to_set() == s.to_set().remove(s[at]),
    decreases s.len(),
{
    let keep = |x: T| x != s[at];
    reveal_with_fuel(Seq::filter, 2);
    if at == s.len() - 1 {
        lemma_drop_none(s.drop_last(), s[at]);
        assert(s.remove(at) =~= s.drop_last());
    } else {
        lemma_drop_one(s.drop_last(), at);
        assert(s.drop_last()[at] == s[at]);
        assert(s.remove(at) =~= s.drop_last().remove(at).push(s.last()));
        assert(keep(s.last()));
    }
    assert(s.remove(at).to_set() =~= s.to_set().remove(s[at])) by {
        assert forall|x: T| #[trigger]
            s.remove(at).to_set().contains(x) == s.to_set().remove(s[at]).contains(x) by {
            if s.remove(at).contains(x) {
                let j = choose|j: int| 0 <= j < s.remove(at).len() && s.remove(at)[j] == x;
                if j < at {
                    assert(s[j] == x);
                } else {
                    assert(s[j + 1] == x);
                }
            }
            if s.contains(x) && x != s[at] {
                let j = choose|j: int| 0 <= j < s.len() && s[j] == x;
                if j < at {
                    assert(s.remove(at)[j] == x);
                } else {
                    assert(s.remove(at)[j - 1] == x);
                }
            }
        }
    }
}

/// Filtering out a value that a sequence does not hold changes nothing.
proof fn lemma_drop_none<T>(s: Seq<T>, gone: T)
    requires
        !s.contains(gone),
    ensures
        s == s.filter(|x: T| x != gone),
    decreases s.len(),
{
    reveal_with_fuel(Seq::filter, 2);
    if s.len() > 0 {
        assert(s.drop_last() =~= s.take(s.len() - 1));
        assert forall|j: int| 0 <= j < s.drop_last().len() implies s.drop_last()[j] != gone by {
            assert(s[j] == s.drop_last()[j]);
        }
        lemma_drop_none(s.drop_last(), gone);
        assert(s.last() != gone) by {
            assert(s[s.len() - 1] == s.last());
        }
        assert(s =~= s.drop_last().push(s.last()));
    } else {
        assert(s.filter(|x: T| x != gone) =~= s);
    }
}

} // verus!
