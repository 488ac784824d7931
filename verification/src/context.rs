//! The boot context: the platform's physical address width, frame and page sizes, and frame
//! allocation with the checks that every platform answer must pass.
use vstd::prelude::*;
use vstd::arithmetic::power2::pow2;

use crate::descriptor::low_mask;

verus! {

/// Determines how frames must be allocated.
#[derive(Clone, Copy, Debug, PartialEq, Eq, Structural)]
pub enum AllocationPolicy {
    /// Allocates any available range of frames that satisfies the request.
    Any,
    /// Allocates the range of frames that begins at the requested address.
    At(u64),
    /// Allocates any available range of frames that is completely below the given value.
    Below(u64),
}

/// Indicates that there were no available frame regions that matched the [`AllocationPolicy`].
#[derive(Clone, Copy, Debug, PartialEq, Eq, Structural)]
pub struct OutOfMemory;

/// Indicates that the mapping failed because the region was too large or the physical region is
/// not able to be fully mapped.
#[derive(Clone, Copy, Debug, PartialEq, Eq, Structural)]
pub struct FailedMapping;

/// Indicates that an object was not able to be found.
#[derive(Clone, Copy, Debug, PartialEq, Eq, Structural)]
pub struct NotFound;

/// Provider of the platform's frame allocation.
pub trait ContextImpl {
    /// Returns the number of bits used to represent a valid physical address.
    fn physical_bits(&self) -> u8;

    /// Returns the size, in bytes, of a frame.
    fn frame_size(&self) -> u64;

    /// Returns the size, in bytes, of a page.
    fn page_size(&self) -> usize;

    /// Allocates a region of `count` frames according to the given [`AllocationPolicy`].
    fn allocate_frames(&mut self, kind: AllocationPolicy, count: u64) -> Result<u64, OutOfMemory>;
}

/// `value` is a power of two.
pub open spec fn is_power_of_two(value: int) -> bool {
    exists|k: nat| k < 64 && pow2(k) == value
}

/// Provider of all boot context dependent functionality.
pub struct Context<C: ContextImpl> {
    /// The platform.
    inner: C,
    /// The number of bits used to represent a valid physical address.
    physical_bits: u8,
    /// The size, in bytes, of a frame.
    frame_size: u64,
    /// The size, in bytes, of a page.
    page_size: usize,
    /// The requests handed to the platform so far, in order.
    requests: Ghost<Seq<(AllocationPolicy, u64)>>,
}

/// The sizes that a platform reports are usable: physical addresses have between 1 and 64 bits,
/// a frame is a power of two below `2^physical_bits`, and a page is a power of two.
pub open spec fn sizes_valid(physical_bits: u8, frame_size: u64, page_size: usize) -> bool {
    &&& 1 <= physical_bits <= 64
    &&& is_power_of_two(frame_size as int)
    &&& frame_size < pow2(physical_bits as nat)
    &&& is_power_of_two(page_size as int)
}

/// Returns `true` if `value` is a power of two.
pub fn power_of_two(value: u64) -> (result: bool)
    ensures
        result == is_power_of_two(value as int),
{
    let mut p: u64 = 1;
    let mut k: u64 = 0;
    proof {
        vstd::arithmetic::power2::lemma2_to64();
    }
    while k < 64
        invariant
            k <= 64,
            k < 64 ==> p == pow2(k as nat),
            forall|j: nat| j < k ==> pow2(j) != value,
        decreases 64 - k,
    {
        if p == value {
            return true;
        }
        if k == 63 {
            k = 64;
        } else {
            proof {
                vstd::bits::lemma_u64_pow2_no_overflow((k + 1) as nat);
                vstd::arithmetic::power2::lemma_pow2_unfold((k + 1) as nat);
            }
            p = p * 2;
            k = k + 1;
        }
    }
    false
}

/// Returns `true` if the sizes that a platform reports are usable.
pub fn check_sizes(physical_bits: u8, frame_size: u64, page_size: usize) -> (result: bool)
    ensures
        result == sizes_valid(physical_bits, frame_size, page_size),
{
    if physical_bits == 0 || physical_bits > 64 {
        return false;
    }
    if !power_of_two(frame_size) || !power_of_two(page_size as u64) {
        return false;
    }
    proof {
        vstd::arithmetic::power2::lemma2_to64();
        vstd::arithmetic::power2::lemma2_to64_rest();
    }
    if physical_bits == 64 {
        return true;
    }
    proof {
        vstd::bits::lemma_u64_pow2_no_overflow(physical_bits as nat);
        vstd::bits::lemma_u64_shl_is_mul(1, physical_bits as u64);
    }
    frame_size < (1u64 << physical_bits as u64)
}

impl<C: ContextImpl> Context<C> {
    /// The number of bits of a valid physical address.
    pub closed spec fn spec_physical_bits(&self) -> nat {
        self.physical_bits as nat
    }

    /// The size of a frame.
    pub closed spec fn spec_frame_size(&self) -> int {
        self.frame_size as int
    }

    /// The size of a page.
    pub closed spec fn spec_page_size(&self) -> int {
        self.page_size as int
    }

    /// The requests handed to the platform so far, in order.
    pub closed spec fn spec_requests(&self) -> Seq<(AllocationPolicy, u64)> {
        self.requests@
    }

    /// The platform's sizes are usable: physical addresses have between 1 and 64 bits, and
    /// frames and pages are non-zero powers of two, frames below `2^physical_bits`.
    pub open spec fn wf(&self) -> bool {
        &&& 1 <= self.spec_physical_bits() <= 64
        &&& self.spec_frame_size() > 0
        &&& self.spec_page_size() > 0
        &&& sizes_valid(self.spec_physical_bits() as u8, self.spec_frame_size() as u64, self.spec_page_size() as usize)
    }

    /// The largest valid physical address.
    pub open spec fn spec_mask(&self) -> int {
        low_mask(self.spec_physical_bits())
    }

    /// The largest valid physical address fits in 64 bits.
    pub proof fn lemma_mask_bound(&self)
        requires
            self.wf(),
        ensures
            0 <= self.spec_mask() <= u64::MAX,
    {
        vstd::arithmetic::power2::lemma2_to64_rest();
        vstd::arithmetic::power2::lemma_pow2_pos(self.spec_physical_bits());
        if self.spec_physical_bits() < 64 {
            vstd::arithmetic::power2::lemma_pow2_strictly_increases(self.spec_physical_bits(), 64);
        }
    }

    /// `address` is a valid physical address.
    pub open spec fn valid_address(&self, address: int) -> bool {
        0 <= address <= self.spec_mask()
    }

    /// Creates a new [`Context`] from a platform, if the platform's sizes are usable (see
    /// [`sizes_valid`]). The sizes are read once and kept as
    /// [`Context::from_sizes`] keeps them.
    pub fn new(inner: C) -> (context: Option<Self>)
        ensures
            context matches Some(c) ==> c.wf() && c.spec_requests() == Seq::<(AllocationPolicy, u64)>::empty(),
    {
        let physical_bits = inner.physical_bits();
        let frame_size = inner.frame_size();
        let page_size = inner.page_size();
        Self::from_sizes(inner, physical_bits, frame_size, page_size)
    }

    /// Creates a new [`Context`] from a platform that reported the given sizes: `Some` exactly
    /// when they are usable, holding them as reported.
    pub fn from_sizes(inner: C, physical_bits: u8, frame_size: u64, page_size: usize) -> (context: Option<Self>)
        ensures
            context is Some <==> sizes_valid(physical_bits, frame_size, page_size),
            context matches Some(c) ==> {
                &&& c.wf()
                &&& c.spec_physical_bits() == physical_bits
                &&& c.spec_frame_size() == frame_size
                &&& c.spec_page_size() == page_size
                &&& c.spec_requests() == Seq::<(AllocationPolicy, u64)>::empty()
            },
    {
        if !check_sizes(physical_bits, frame_size, page_size) {
            return None;
        }
        proof {
            vstd::arithmetic::power2::lemma2_to64();
            let k = choose|k: nat| k < 64 && pow2(k) == page_size as int;
            vstd::arithmetic::power2::lemma_pow2_pos(k);
            let j = choose|k: nat| k < 64 && pow2(k) == frame_size as int;
            vstd::arithmetic::power2::lemma_pow2_pos(j);
        }
        Some(Context { inner, physical_bits, frame_size, page_size, requests: Ghost(Seq::empty()) })
    }

    /// Returns the number of bits used to represent a valid physical address.
    pub fn physical_bits(&self) -> (bits: u8)
        ensures
            bits == self.spec_physical_bits(),
    {
        self.physical_bits
    }

    /// Returns the physical address mask that represents a valid physical address:
    /// `2^physical_bits - 1`.
    pub fn physical_address_mask(&self) -> (mask: u64)
        requires
            self.wf(),
        ensures
            mask == self.spec_mask(),
    {
        let bits = self.physical_bits;
        proof {
            vstd::bits::lemma_u64_pow2_no_overflow((bits - 1) as nat);
            vstd::bits::lemma_u64_shl_is_mul(1, (bits - 1) as u64);
            vstd::arithmetic::power2::lemma_pow2_unfold(bits as nat);
            vstd::arithmetic::power2::lemma_pow2_pos((bits - 1) as nat);
        }
        let high = (1u64 << (bits - 1) as u64) - 1;
        proof {
            vstd::arithmetic::power2::lemma2_to64();
            vstd::arithmetic::power2::lemma2_to64_rest();
            if bits - 1 < 63 {
                vstd::arithmetic::power2::lemma_pow2_strictly_increases((bits - 1) as nat, 63);
            }
            vstd::bits::lemma_u64_shl_is_mul(high, 1);
        }
        (high << 1u64) + 1
    }

    /// Returns `true` if `address` is valid.
    pub fn is_valid_physical_address(&self, address: u64) -> (result: bool)
        requires
            self.wf(),
        ensures
            result == self.valid_address(address as int),
    {
        let mask = self.physical_address_mask();
        proof {
            lemma_and_low_mask(address, self.spec_physical_bits());
        }
        address & mask == address
    }

    /// Returns `true` if `size` is valid for the physical address space.
    pub fn is_valid_physical_size(&self, size: u64) -> (result: bool)
        requires
            self.wf(),
        ensures
            result == (size <= self.spec_mask()),
    {
        size <= self.physical_address_mask()
    }

    /// Returns the size, in bytes, of a frame.
    pub fn frame_size(&self) -> (size: u64)
        ensures
            size == self.spec_frame_size(),
    {
        self.frame_size
    }

    /// Returns the size, in bytes, of a page.
    pub fn page_size(&self) -> (size: usize)
        ensures
            size == self.spec_page_size(),
    {
        self.page_size
    }
}

impl<C: ContextImpl> Context<C> {
    /// The request for `count` frames under `kind` is refused before the platform is asked:
    /// its size overflows or exceeds the physical address space, a fixed region would run past
    /// the last valid address, or a bounded region could never fit below its bound.
    pub open spec fn refused_request(&self, kind: AllocationPolicy, count: u64) -> bool {
        let total = count * self.spec_frame_size();
        ||| total > u64::MAX
        ||| total > self.spec_mask()
        ||| (kind matches AllocationPolicy::At(a) && (a + total - 1 > self.spec_mask()))
        ||| (kind matches AllocationPolicy::Below(v) && total >= v)
    }

    /// `address` is an acceptable answer to a request for `count` frames under `kind`: it is
    /// frame aligned, the region from it lies within the valid physical addresses, and it meets
    /// the policy.
    pub open spec fn acceptable(&self, kind: AllocationPolicy, count: u64, address: u64) -> bool {
        let last = address + count * self.spec_frame_size() - 1;
        &&& (address as int) % self.spec_frame_size() == 0
        &&& self.valid_address(address as int)
        &&& last <= self.spec_mask()
        &&& (kind matches AllocationPolicy::At(a) ==> address == a)
        &&& (kind matches AllocationPolicy::Below(v) ==> last < v)
    }

    /// The two contexts have the same sizes.
    pub open spec fn same_sizes(&self, other: &Self) -> bool {
        &&& self.spec_physical_bits() == other.spec_physical_bits()
        &&& self.spec_frame_size() == other.spec_frame_size()
        &&& self.spec_page_size() == other.spec_page_size()
    }

    /// What comes of the platform's `answer` to a request for `count` frames under `kind`: the
    /// address it gives where that is acceptable, else [`OutOfMemory`].
    pub open spec fn answer_outcome(
        &self,
        kind: AllocationPolicy,
        count: u64,
        answer: Result<u64, OutOfMemory>,
    ) -> Result<u64, OutOfMemory> {
        match answer {
            Ok(address) => if self.acceptable(kind, count, address) {
                Ok(address)
            } else {
                Err(OutOfMemory)
            },
            Err(error) => Err(error),
        }
    }

    /// Allocates a region of `count` frames according to `kind`.
    ///
    /// The request is checked before the platform is asked: a refused request never reaches
    /// it. Otherwise the platform is asked once, with `kind` and `count`, and its answer goes
    /// through [`Context::check_answer`].
    pub fn allocate_frames(&mut self, kind: AllocationPolicy, count: u64) -> (result: Result<u64, OutOfMemory>)
        requires
            old(self).wf(),
            count != 0,
            kind matches AllocationPolicy::At(a) ==> (a as int) % old(self).spec_frame_size() == 0
                && old(self).valid_address(a as int),
        ensures
            final(self).wf(),
            final(self).same_sizes(old(self)),
            old(self).refused_request(kind, count) ==> result == Err::<u64, OutOfMemory>(OutOfMemory) && *final(self)
                == *old(self),
            !old(self).refused_request(kind, count) ==> final(self).spec_requests() == old(self).spec_requests().push(
                (kind, count),
            ) && exists|answer: Result<u64, OutOfMemory>| result == #[trigger] old(self).answer_outcome(kind, count, answer),
            result matches Ok(address) ==> old(self).acceptable(kind, count, address),
    {
        if self.refuses(kind, count) {
            return Err(OutOfMemory);
        }
        let answer = self.inner.allocate_frames(kind, count);
        proof {
            self.requests@ = self.requests@.push((kind, count));
        }
        let result = self.check_answer(kind, count, answer);
        assert(result == old(self).answer_outcome(kind, count, answer));
        result
    }

    /// Returns `true` if a request for `count` frames under `kind` is refused before the
    /// platform is asked.
    pub fn refuses(&self, kind: AllocationPolicy, count: u64) -> (result: bool)
        requires
            self.wf(),
            count != 0,
            kind matches AllocationPolicy::At(a) ==> (a as int) % self.spec_frame_size() == 0 && self.valid_address(
                a as int,
            ),
        ensures
            result == self.refused_request(kind, count),
    {
        proof {
            self.lemma_mask_bound();
        }
        let total_size = match count.checked_mul(self.frame_size) {
            Some(size) => size,
            None => return true,
        };
        if !self.is_valid_physical_size(total_size) {
            return true;
        }
        match kind {
            AllocationPolicy::Any => false,
            AllocationPolicy::At(address) => {
                let end_address = address.wrapping_add(total_size);
                let last_valid_address = end_address.wrapping_sub(1);
                proof {
                    assert(total_size > 0) by (nonlinear_arith)
                        requires total_size == count * self.spec_frame_size(), count >= 1, self.spec_frame_size() >= 1;
                    lemma_wrapping_last(address, total_size, end_address, last_valid_address);
                }
                last_valid_address < address || !self.is_valid_physical_address(last_valid_address)
            },
            AllocationPolicy::Below(value) => total_size >= value,
        }
    }

    /// Checks the platform's `answer` to a request for `count` frames under `kind`: returns
    /// the address it gives where that is acceptable, else [`OutOfMemory`].
    pub fn check_answer(&self, kind: AllocationPolicy, count: u64, answer: Result<u64, OutOfMemory>) -> (result: Result<
        u64,
        OutOfMemory,
    >)
        requires
            self.wf(),
            count != 0,
            !self.refused_request(kind, count),
        ensures
            result == self.answer_outcome(kind, count, answer),
    {
        proof {
            self.lemma_mask_bound();
        }
        let total_size = count * self.frame_size;
        let address = match answer {
            Ok(address) => address,
            Err(error) => return Err(error),
        };
        if address % self.frame_size != 0 || !self.is_valid_physical_address(address) {
            return Err(OutOfMemory);
        }
        let end_address = address.wrapping_add(total_size);
        let last_valid_address = end_address.wrapping_sub(1);
        proof {
            assert(total_size > 0) by (nonlinear_arith)
                requires total_size == count * self.spec_frame_size(), count >= 1, self.spec_frame_size() >= 1;
            lemma_wrapping_last(address, total_size, end_address, last_valid_address);
        }
        if last_valid_address < address || !self.is_valid_physical_address(last_valid_address) {
            return Err(OutOfMemory);
        }
        match kind {
            AllocationPolicy::Any => {},
            AllocationPolicy::At(requested) => {
                if address != requested {
                    return Err(OutOfMemory);
                }
            },
            AllocationPolicy::Below(value) => {
                if last_valid_address >= value {
                    return Err(OutOfMemory);
                }
            },
        }
        Ok(address)
    }
}

/// The last address of a region of `size > 0` bytes from `address`, computed with wrapping
/// arithmetic, lies below `address` exactly when the region runs past `u64::MAX`, and is the
/// true last address otherwise or when the region ends exactly at `2^64`.
proof fn lemma_wrapping_last(address: u64, size: u64, end: u64, last: u64)
    requires
        size > 0,
        end == if address + size > u64::MAX { address + size - 0x1_0000_0000_0000_0000 } else { address + size },
        last == if end < 1 { end - 1 + 0x1_0000_0000_0000_0000 } else { end - 1 },
    ensures
        (last < address) == (address + size - 1 > u64::MAX),
        last >= address ==> last == address + size - 1,
{
}

/// `address & (2^bits - 1) == address` exactly when `address < 2^bits`.
proof fn lemma_and_low_mask(address: u64, bits: nat)
    requires
        1 <= bits <= 64,
    ensures
        (address & (low_mask(bits) as u64) == address) == (address <= low_mask(bits)),
{
    vstd::arithmetic::power2::lemma2_to64();
    vstd::arithmetic::power2::lemma2_to64_rest();
    if bits == 64 {
        assert(address & 0xFFFF_FFFF_FFFF_FFFFu64 == address) by (bit_vector);
    } else {
        vstd::bits::lemma_u64_low_bits_mask_is_mod(address, bits);
        vstd::arithmetic::power2::lemma_pow2_pos(bits);
        vstd::bits::lemma_u64_pow2_no_overflow(bits);
        let p = pow2(bits) as int;
        assert(vstd::bits::low_bits_mask(bits) == low_mask(bits));
        if address < p {
            vstd::arithmetic::div_mod::lemma_small_mod(address as nat, p as nat);
        } else {
            vstd::arithmetic::div_mod::lemma_mod_pos_bound(address as int, p);
        }
    }
}

} // verus!
