//! The ordering that the tree relies on, stated over `PartialOrd`'s spec.
use core::cmp::Ordering;
use vstd::laws_cmp::obeys_partial_cmp_spec_properties;
use vstd::prelude::*;
use vstd::std_specs::cmp::PartialOrdSpec;

verus! {

/// `a < b` as `PartialOrd::lt` decides it.
pub open spec fn less<T: PartialOrd>(a: T, b: T) -> bool {
    a.partial_cmp_spec(&b) == Some(Ordering::Less)
}

/// `T`'s comparison agrees with its spec and behaves as an ordering:
/// `<` is transitive and `a < b` holds exactly when `b > a`.
pub open spec fn lawful_order<T: PartialOrd>() -> bool {
    &&& T::obeys_partial_cmp_spec()
    &&& obeys_partial_cmp_spec_properties::<T>()
}

/// No element is strictly less than one that comes before it.
pub open spec fn non_decreasing<T: PartialOrd>(s: Seq<T>) -> bool {
    forall|i: int, j: int| 0 <= i < j < s.len() ==> !less(#[trigger] s[j], #[trigger] s[i])
}

/// Under a lawful order `<` is asymmetric and transitive.
pub proof fn lemma_less_laws<T: PartialOrd>()
    requires
        lawful_order::<T>(),
    ensures
        forall|a: T, b: T| less(a, b) ==> !less(b, a),
        forall|a: T, b: T, c: T| less(a, b) && #[trigger] less(b, c) ==> #[trigger] less(a, c),
{
    reveal(obeys_partial_cmp_spec_properties);
}

} // verus!
