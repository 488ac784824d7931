//! Descriptions of the valid addresses of an address space.
use vstd::prelude::*;
use vstd::arithmetic::power2::pow2;

verus! {

/// The largest address with `bits` significant bits: `2^bits - 1`.
pub open spec fn low_mask(bits: nat) -> int {
    pow2(bits) - 1
}

/// Returns `2^bits - 1` for `1 <= bits <= 64`.
fn mask(bits: u8) -> (mask: u64)
    requires
        1 <= bits <= 64,
    ensures
        mask == low_mask(bits as nat),
{
    if bits == 64 {
        proof {
            vstd::arithmetic::power2::lemma2_to64_rest();
        }
        u64::MAX
    } else {
        proof {
            vstd::bits::lemma_u64_pow2_no_overflow(bits as nat);
            vstd::bits::lemma_u64_shl_is_mul(1, bits as u64);
        }
        (1u64 << bits as u64) - 1
    }
}

/// The valid addresses of an address space: a lower range `[0, 2^lower_bits)` and an upper
/// range `[2^64 - 2^upper_bits, 2^64)`; a range with zero bits is empty.
#[derive(Clone, Copy, Debug, PartialEq, Eq, Structural)]
pub struct AddressSpaceDescriptor {
    /// The number of address bits of the lower range.
    lower_bits: u8,
    /// The number of address bits of the upper range.
    upper_bits: u8,
}

impl AddressSpaceDescriptor {
    /// The number of address bits of the lower range.
    pub closed spec fn spec_lower_bits(&self) -> nat {
        self.lower_bits as nat
    }

    /// The number of address bits of the upper range.
    pub closed spec fn spec_upper_bits(&self) -> nat {
        self.upper_bits as nat
    }

    /// The descriptor's bit counts are at most 64.
    pub open spec fn wf(&self) -> bool {
        self.spec_lower_bits() <= 64 && self.spec_upper_bits() <= 64
    }

    /// `address` lies in the lower range.
    pub open spec fn in_lower(&self, address: int) -> bool {
        self.spec_lower_bits() > 0 && 0 <= address <= low_mask(self.spec_lower_bits())
    }

    /// `address` lies in the upper range.
    pub open spec fn in_upper(&self, address: int) -> bool {
        self.spec_upper_bits() > 0 && pow2(64) - pow2(self.spec_upper_bits()) <= address < pow2(64)
    }

    /// `address` is valid in the address space.
    pub open spec fn spec_is_valid(&self, address: int) -> bool {
        self.in_lower(address) || self.in_upper(address)
    }

    /// Every address from `start` to `end_inclusive` is valid and they all lie in one range.
    pub open spec fn spec_is_valid_range(&self, start: int, end_inclusive: int) -> bool {
        start <= end_inclusive && ((self.in_lower(start) && self.in_lower(end_inclusive)) || (self.in_upper(start)
            && self.in_upper(end_inclusive)))
    }

    /// The descriptor of an address space of `bits` address bits, split between a lower and an
    /// upper half when `sign_extended`.
    pub closed spec fn spec_new(bits: u8, sign_extended: bool) -> Self {
        if sign_extended {
            AddressSpaceDescriptor { lower_bits: (bits - 1) as u8, upper_bits: (bits - 1) as u8 }
        } else {
            AddressSpaceDescriptor { lower_bits: bits, upper_bits: 0 }
        }
    }

    /// The bit counts of [`AddressSpaceDescriptor::spec_new`].
    pub proof fn lemma_spec_new(bits: u8, sign_extended: bool)
        requires
            sign_extended ==> bits >= 1,
        ensures
            sign_extended ==> Self::spec_new(bits, sign_extended).spec_lower_bits() == bits - 1
                && Self::spec_new(bits, sign_extended).spec_upper_bits() == bits - 1,
            !sign_extended ==> Self::spec_new(bits, sign_extended).spec_lower_bits() == bits
                && Self::spec_new(bits, sign_extended).spec_upper_bits() == 0,
    {
    }

    /// Describes an address space of `bits` address bits; when `sign_extended`, the addresses
    /// are split between a lower half and an upper half.
    pub fn new(bits: u8, sign_extended: bool) -> (descriptor: Self)
        requires
            bits <= 64,
            sign_extended ==> bits >= 1,
        ensures
            descriptor == Self::spec_new(bits, sign_extended),
            descriptor.wf(),
            sign_extended ==> descriptor.spec_lower_bits() == bits - 1 && descriptor.spec_upper_bits()
                == bits - 1,
            !sign_extended ==> descriptor.spec_lower_bits() == bits && descriptor.spec_upper_bits() == 0,
    {
        if sign_extended {
            AddressSpaceDescriptor { lower_bits: bits - 1, upper_bits: bits - 1 }
        } else {
            AddressSpaceDescriptor { lower_bits: bits, upper_bits: 0 }
        }
    }

    /// Describes an address space with `lower_bits` bits in its lower range and `upper_bits`
    /// bits in its upper range.
    pub fn bit_range(lower_bits: u8, upper_bits: u8) -> (descriptor: Self)
        requires
            lower_bits <= 64,
            upper_bits <= 64,
        ensures
            descriptor.wf(),
            descriptor.spec_lower_bits() == lower_bits,
            descriptor.spec_upper_bits() == upper_bits,
    {
        AddressSpaceDescriptor { lower_bits, upper_bits }
    }

    /// The lower and upper valid ranges as inclusive `(start, end)` pairs, `(1, 0)` when empty.
    pub open spec fn spec_valid_ranges(&self) -> [(u64, u64); 2] {
        [
            if self.spec_lower_bits() == 0 {
                (1u64, 0u64)
            } else {
                (0u64, low_mask(self.spec_lower_bits()) as u64)
            },
            if self.spec_upper_bits() == 0 {
                (1u64, 0u64)
            } else {
                ((pow2(64) - pow2(self.spec_upper_bits())) as u64, u64::MAX)
            },
        ]
    }

    /// Returns the lower and upper valid ranges as inclusive `(start, end)` pairs; an empty range
    /// is returned as `(1, 0)`.
    pub fn valid_ranges(&self) -> (ranges: [(u64, u64); 2])
        requires
            self.wf(),
        ensures
            ranges == self.spec_valid_ranges(),
            ranges[0] == if self.spec_lower_bits() == 0 {
                (1u64, 0u64)
            } else {
                (0u64, low_mask(self.spec_lower_bits()) as u64)
            },
            ranges[1] == if self.spec_upper_bits() == 0 {
                (1u64, 0u64)
            } else {
                ((pow2(64) - pow2(self.spec_upper_bits())) as u64, u64::MAX)
            },
            forall|a: int| 0 <= a <= u64::MAX ==> (self.in_lower(a) <==> ranges[0].0 <= a <= ranges[0].1),
            forall|a: int| 0 <= a <= u64::MAX ==> (self.in_upper(a) <==> ranges[1].0 <= a <= ranges[1].1),
    {
        proof {
            vstd::arithmetic::power2::lemma2_to64_rest();
        }
        let lower = if self.lower_bits == 0 {
            (1u64, 0u64)
        } else {
            (0u64, mask(self.lower_bits))
        };
        let upper = if self.upper_bits == 0 {
            (1u64, 0u64)
        } else {
            let m = mask(self.upper_bits);
            proof {
                vstd::arithmetic::power2::lemma_pow2_pos(self.upper_bits as nat);
                if self.upper_bits < 64 {
                    vstd::arithmetic::power2::lemma_pow2_strictly_increases(self.upper_bits as nat, 64);
                }
            }
            (u64::MAX - m, u64::MAX)
        };
        [lower, upper]
    }

    /// Returns `true` if `address` is valid in the address space.
    pub fn is_valid(&self, address: u64) -> (result: bool)
        requires
            self.wf(),
        ensures
            result == self.spec_is_valid(address as int),
    {
        let ranges = self.valid_ranges();
        (ranges[0].0 <= address && address <= ranges[0].1) || (ranges[1].0 <= address && address
            <= ranges[1].1)
    }

    /// Returns `true` if every address from `start` to `end_inclusive` is valid and they all lie
    /// in one range.
    pub fn is_valid_range(&self, start: u64, end_inclusive: u64) -> (result: bool)
        requires
            self.wf(),
        ensures
            result == (start <= end_inclusive && ((self.in_lower(start as int) && self.in_lower(
                end_inclusive as int,
            )) || (self.in_upper(start as int) && self.in_upper(end_inclusive as int)))),
    {
        let ranges = self.valid_ranges();
        start <= end_inclusive && ((ranges[0].0 <= start && end_inclusive <= ranges[0].1) || (
        ranges[1].0 <= start && end_inclusive <= ranges[1].1))
    }
}

} // verus!
