use bellpepper_core::SynthesisError;
use spartan2::gadgets::helpers::OptionExt;

#[test]
fn get_returns_the_contained_value() {
    let v: Option<u64> = Some(42);
    assert_eq!(*v.get().unwrap(), 42);
}

#[test]
fn get_of_nothing_is_a_missing_assignment() {
    let v: Option<u64> = None;
    assert!(matches!(v.get(), Err(SynthesisError::AssignmentMissing)));
}
