//! Predicates tying the executable `==` and `clone` of a type parameter
//! to their mathematical counterparts.
//!
//! The structures in this crate are generic, and their contracts speak of
//! mathematical equality. A caller's type keeps those contracts exact as
//! long as its `PartialEq` and `Clone` impls agree with that equality,
//! which these predicates state. Primitive types, for which the standard
//! library's specifications pin both operations down, satisfy them.

use vstd::prelude::*;
use vstd::std_specs::cmp::PartialEqSpec;
use vstd::pervasive::cloned;

verus! {

/// The executable `==` of `T` decides mathematical equality: the impl
/// obeys its specification, and that specification is equality itself.
pub open spec fn reliable_eq<T: PartialEq>() -> bool {
    &&& T::obeys_eq_spec()
    &&& forall|a: &T, b: &T| #[trigger] a.eq_spec(b) <==> a == b
}

/// Every value `T::clone` can return is equal to the value cloned.
pub open spec fn reliable_clone<T: Clone>() -> bool {
    forall|a: T, b: T| #[trigger] cloned::<T>(a, b) ==> b == a
}

} // verus!
