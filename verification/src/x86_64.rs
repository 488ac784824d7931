//! Code specific to `x86_64`.
use vstd::prelude::*;

use crate::relocation::{FinalizedRelocation, RelocationInfo, RELATIVE};

verus! {

/// Handles the ELF relocation types on `x86_64`; a relative relocation whose value does not fit
/// in 64 bits is refused.
pub fn relocate(info: &RelocationInfo) -> (result: Result<FinalizedRelocation, ()>)
    ensures
        result == if info.relocation_type == RELATIVE && 0 <= info.slide + info.addend <= u64::MAX {
            Ok::<FinalizedRelocation, ()>(FinalizedRelocation::Bits64((info.slide + info.addend) as u64))
        } else {
            Err::<FinalizedRelocation, ()>(())
        },
{
    if info.relocation_type == RELATIVE {
        match info.slide.checked_add_signed(info.addend) {
            Some(value) => Ok(FinalizedRelocation::Bits64(value)),
            None => Err(()),
        }
    } else {
        Err(())
    }
}

} // verus!
