//! Helper traits for working with `bellpepper` types.
use bellpepper_core::SynthesisError;
use vstd::prelude::*;

verus! {

/// `bellpepper_core::SynthesisError`, carried through opaquely.
#[verifier::external_type_specification]
#[verifier::external_body]
pub struct ExSynthesisError(SynthesisError);

/// `SynthesisError::AssignmentMissing`, the error for a missing variable assignment.
#[verifier::external_body]
fn assignment_missing() -> SynthesisError {
    SynthesisError::AssignmentMissing
}

/// A helper trait to provide a `.get()` method for `Option` types.
pub trait OptionExt<T> {
    /// The contained value, or the missing-assignment error.
    fn get(&self) -> Result<&T, SynthesisError>;
}

impl<T> OptionExt<T> for Option<T> {
    fn get(&self) -> (r: Result<&T, SynthesisError>)
        ensures
            r is Ok <==> self is Some,
            r matches Ok(v) ==> self == Some(*v),
    {
        match self {
            Some(v) => Ok(v),
            None => Err(assignment_missing()),
        }
    }
}

} // verus!
