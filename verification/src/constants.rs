//! Constants for non-native field arithmetic gadgets.
use vstd::prelude::*;

verus! {

/// The width of each limb in bits for big number operations.
pub const BN_LIMB_WIDTH: usize = 64;

/// The number of limbs used for big number operations.
pub const BN_N_LIMBS: usize = 4;

} // verus!
