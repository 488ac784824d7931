//! Lossless integer conversions between the machine's address-sized types.
use vstd::prelude::*;

verus! {

/// Converts a `usize` into a `u64`; every `usize` of a supported machine fits.
pub fn usize_to_u64(value: usize) -> (result: u64)
    ensures
        result == value,
{
    value as u64
}

} // verus!
