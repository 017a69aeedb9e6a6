//! The order of attributes, by which they are listed.

use std::cmp::Ordering;
use vstd::laws_cmp::obeys_partial_cmp_spec_properties;
use vstd::prelude::*;
use vstd::std_specs::cmp::PartialOrdSpec;

verus! {

/// True when `<` on `T` in executable code decides an order that is
/// transitive and never holds both ways.
pub open spec fn decides_order<T: PartialOrd>() -> bool {
    T::obeys_partial_cmp_spec() && obeys_partial_cmp_spec_properties::<T>()
}

/// Whether `a` comes before `b` in the order of `T`.
pub open spec fn below<T: PartialOrd>(a: T, b: T) -> bool {
    a.partial_cmp_spec(&b) == Some(Ordering::Less)
}

/// What comes before something that comes before a third comes before the
/// third.
pub proof fn lemma_below_chain<T: PartialOrd>(a: T, b: T, c: T)
    requires
        decides_order::<T>(),
        below(a, b),
        below(b, c),
    ensures
        below(a, c),
{
    reveal(obeys_partial_cmp_spec_properties);
}

/// Of two values, at most one comes before the other.
pub proof fn lemma_below_one_way<T: PartialOrd>(a: T, b: T)
    requires
        decides_order::<T>(),
        below(a, b),
    ensures
        !below(b, a),
{
    reveal(obeys_partial_cmp_spec_properties);
}

} // verus!
