//! Protection flags and error types shared by every address space implementation.
use vstd::prelude::*;

verus! {

/// Protection settings for a page in an address space.
///
/// The value is a set of bits: `READ` is bit 0, `WRITE` is bit 1 and `EXEC` is bit 2.
#[derive(Clone, Copy, Debug, PartialEq, Eq, Structural)]
pub struct ProtectionFlags(pub u32);

/// The page should be readable.
pub const PROTECTION_READ: u32 = 0x1;
/// The page should be writable.
pub const PROTECTION_WRITE: u32 = 0x2;
/// The page should be executable.
pub const PROTECTION_EXEC: u32 = 0x4;

impl ProtectionFlags {
    /// The flag set that holds `bit`.
    pub open spec fn has(self, bit: u32) -> bool {
        self.0 & bit == bit
    }

    /// The flag set that allows reads.
    pub fn read() -> (flags: Self)
        ensures
            flags.0 == PROTECTION_READ,
    {
        ProtectionFlags(PROTECTION_READ)
    }

    /// The flag set that allows writes.
    pub fn write() -> (flags: Self)
        ensures
            flags.0 == PROTECTION_WRITE,
    {
        ProtectionFlags(PROTECTION_WRITE)
    }

    /// The flag set that allows execution.
    pub fn exec() -> (flags: Self)
        ensures
            flags.0 == PROTECTION_EXEC,
    {
        ProtectionFlags(PROTECTION_EXEC)
    }

    /// Returns `true` if the page should be readable.
    pub fn readable(self) -> (result: bool)
        ensures
            result == self.has(PROTECTION_READ),
    {
        self.0 & PROTECTION_READ == PROTECTION_READ
    }

    /// Returns `true` if the page should be writable.
    pub fn writable(self) -> (result: bool)
        ensures
            result == self.has(PROTECTION_WRITE),
    {
        self.0 & PROTECTION_WRITE == PROTECTION_WRITE
    }

    /// Returns `true` if the page should be executable.
    pub fn executable(self) -> (result: bool)
        ensures
            result == self.has(PROTECTION_EXEC),
    {
        self.0 & PROTECTION_EXEC == PROTECTION_EXEC
    }

    /// Returns the union of two flag sets.
    pub fn union(self, other: Self) -> (result: Self)
        ensures
            result.0 == self.0 | other.0,
    {
        ProtectionFlags(self.0 | other.0)
    }

    /// Returns the intersection of two flag sets.
    pub fn intersection(self, other: Self) -> (result: Self)
        ensures
            result.0 == self.0 & other.0,
    {
        ProtectionFlags(self.0 & other.0)
    }

    /// Returns the flags that this set does not hold.
    pub fn complement(self) -> (result: Self)
        ensures
            result.0 == !self.0,
    {
        ProtectionFlags(!self.0)
    }

    /// Returns the flags that exactly one of the two sets holds.
    pub fn symmetric_difference(self, other: Self) -> (result: Self)
        ensures
            result.0 == self.0 ^ other.0,
    {
        ProtectionFlags(self.0 ^ other.0)
    }

    /// Returns this flag set with the write bit set to `writable`.
    pub fn set_writable(self, writable: bool) -> (result: Self)
        ensures
            result.has(PROTECTION_WRITE) == writable,
            result.has(PROTECTION_READ) == self.has(PROTECTION_READ),
            result.has(PROTECTION_EXEC) == self.has(PROTECTION_EXEC),
    {
        let bits = self.0;
        if writable {
            let result = bits | PROTECTION_WRITE;
            assert(result & 2 == 2 && (result & 1 == 1) == (bits & 1 == 1) && (result & 4 == 4)
                == (bits & 4 == 4)) by (bit_vector)
                requires
                    result == bits | 2u32,
            ;
            ProtectionFlags(result)
        } else {
            let result = bits & !PROTECTION_WRITE;
            assert(result & 2 != 2 && (result & 1 == 1) == (bits & 1 == 1) && (result & 4 == 4)
                == (bits & 4 == 4)) by (bit_vector)
                requires
                    result == bits & !2u32,
            ;
            ProtectionFlags(result)
        }
    }
}

/// Various errors that can occur when mapping a physical region into an address space.
#[derive(Clone, Copy, Debug, PartialEq, Eq, Structural)]
pub enum MapError {
    /// The requested mapping starts at an invalid alignment.
    AlignmentError,
    /// An error occurred when allocating memory required to fulfill the requested mapping.
    AllocationError,
    /// An unspecified error occurred.
    GeneralError,
    /// A provided address is invalid.
    InvalidAddress,
    /// The size of the requested mapping is invalid.
    InvalidSize,
    /// The requested mapping overlaps a region that is already mapped.
    OverlapError,
    /// The requested mapping would wrap around an address space.
    WrapAroundError,
}

impl MapError {
    /// Returns a human readable description of the error.
    pub fn message(&self) -> (text: &'static str)
        ensures
            text@ == match *self {
                MapError::AlignmentError => "requested mapping starts at an invalid alignment"@,
                MapError::AllocationError => "requested mapping had a required allocation fail"@,
                MapError::GeneralError => "an unspecified error occurred"@,
                MapError::InvalidAddress => "requested mapping involves an invalid address"@,
                MapError::InvalidSize => "requested mapping is too large"@,
                MapError::OverlapError => "requested mapping overlaps an existing mapping"@,
                MapError::WrapAroundError => "requested mapping would wrap around an address space"@,
            },
    {
        match self {
            MapError::AlignmentError => "requested mapping starts at an invalid alignment",
            MapError::AllocationError => "requested mapping had a required allocation fail",
            MapError::GeneralError => "an unspecified error occurred",
            MapError::InvalidAddress => "requested mapping involves an invalid address",
            MapError::InvalidSize => "requested mapping is too large",
            MapError::OverlapError => "requested mapping overlaps an existing mapping",
            MapError::WrapAroundError => "requested mapping would wrap around an address space",
        }
    }
}

/// An error obtained when attempting to unmap a virtual region that is already not mapped.
#[derive(Clone, Copy, Debug, PartialEq, Eq, Structural)]
pub struct NotMapped;

/// An error obtained when a region cannot be found.
#[derive(Clone, Copy, Debug, PartialEq, Eq, Structural)]
pub struct NotFound;

/// An error obtained when attempting to translate an address using an address space.
#[derive(Clone, Copy, Debug, PartialEq, Eq, Structural)]
pub struct NoMapping;

} // verus!
