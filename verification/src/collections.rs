//! Declarations of the fixed-capacity vectors that the kernel keeps inline, from the `arrayvec`
//! crate.
use vstd::prelude::*;
use arrayvec::{ArrayVec, CapacityError};

verus! {

#[verifier::external_type_specification]
#[verifier::external_body]
#[verifier::reject_recursive_types(T)]
pub struct ExArrayVec<T, const CAP: usize>(ArrayVec<T, CAP>);

#[verifier::external_type_specification]
#[verifier::external_body]
#[verifier::reject_recursive_types(T)]
pub struct ExCapacityError<T>(CapacityError<T>);

} // verus!
