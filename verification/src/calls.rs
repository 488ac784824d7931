//! The computing part of the calls that a loaded executable makes into the stub: reading the
//! bytes of a message out of its address space, and giving back frames it allocated.
use vstd::prelude::*;

use crate::frame_vec::{law_held_range_is_removable, FrameRange, FrameVec};
use crate::paging::{ChunkRange, MapError, MappingType, Permissions, TranslationScheme};
use crate::physical_memory::{memory_byte, FrameAllocator, PhysicalBytes, PhysicalMemory64};
use crate::utf8_check::is_valid_utf8;
use crate::x86_paging::{range_fits, LongModeTables, LongModeTranslationScheme};
use vstd::utf8::valid_utf8;

verus! {

/// The outcome of a call.
#[derive(Clone, Copy, Debug, PartialEq, Eq, Structural)]
pub enum Status {
    /// The call succeeded.
    Success,
    /// The arguments of the call are not usable.
    InvalidUsage,
    /// Not enough memory was available.
    OutOfMemory,
    /// The requested pages are already mapped, or lie outside the address space.
    Overlap,
    /// The buffer handed in is too small; the size it needs was written back.
    BufferTooSmall,
}

/// Map flag: the pages allow writes.
pub const MAP_WRITE: u64 = 0x1;
/// Map flag: the pages allow execution.
pub const MAP_EXEC: u64 = 0x2;
/// Map flag: pages already mapped in the range are unmapped first.
pub const MAP_MAY_OVERWRITE: u64 = 0x4;
/// Every map flag.
pub const MAP_VALID: u64 = 0x7;

/// The message of `len` bytes at `ptr` can be read: the pointer is not null, the message lies
/// in one valid range of the input address space, and every byte of it is mapped.
pub open spec fn message_readable<S: TranslationScheme>(scheme: &S, ptr: u64, len: u64) -> bool {
    &&& ptr != 0
    &&& ptr + len - 1 <= u64::MAX
    &&& scheme.spec_input_descriptor().spec_is_valid_range(ptr as int, ptr + len - 1)
    &&& forall|i: int| 0 <= i < len ==> (#[trigger] scheme.output_address((ptr + i) as u64)) is Some
}

/// The bytes of the message of `len` bytes at `ptr`, each read where its address translates
/// to.
pub open spec fn message_bytes<S: TranslationScheme>(scheme: &S, memory: Seq<u8>, ptr: u64, len: u64) -> Seq<u8> {
    Seq::new(len as nat, |i: int| memory_byte(memory, scheme.output_address((ptr + i) as u64)->0))
}

/// Reads the message of `len` bytes at `ptr` in the address space of `scheme`, whose pages
/// lie in `memory`: each byte is read where its address translates to. A message that is not
/// well-formed UTF-8 is refused.
pub fn write_func<S: TranslationScheme>(scheme: &S, memory: &PhysicalBytes, ptr: u64, len: u64) -> (result: Result<
    Vec<u8>,
    Status,
>)
    requires
        scheme.valid(),
        len > 0,
    ensures
        result is Ok <==> message_readable(scheme, ptr, len) && valid_utf8(message_bytes(scheme, memory.bytes@, ptr, len)),
        result matches Err(status) ==> status == Status::InvalidUsage,
        result matches Ok(bytes) ==> bytes@ == message_bytes(scheme, memory.bytes@, ptr, len),
{
    if ptr == 0 {
        return Err(Status::InvalidUsage);
    }
    let end = match ptr.checked_add(len - 1) {
        Some(end) => end,
        None => return Err(Status::InvalidUsage),
    };
    if !scheme.input_descriptor().is_valid_range(ptr, end) {
        return Err(Status::InvalidUsage);
    }
    let mut bytes: Vec<u8> = Vec::new();
    let mut i: u64 = 0;
    while i < len
        invariant
            scheme.valid(),
            ptr != 0,
            ptr + len - 1 <= u64::MAX,
            scheme.spec_input_descriptor().spec_is_valid_range(ptr as int, ptr + len - 1),
            i <= len,
            bytes@.len() == i,
            forall|k: int| 0 <= k < i ==> (#[trigger] scheme.output_address((ptr + k) as u64)) is Some,
            forall|k: int| 0 <= k < i ==> #[trigger] bytes@[k] == memory_byte(
                memory.bytes@,
                scheme.output_address((ptr + k) as u64)->0,
            ),
        decreases len - i,
    {
        let address = match scheme.translate(ptr + i) {
            Some((_, _, address)) => address,
            None => {
                assert(!message_readable(scheme, ptr, len)) by {
                    assert(scheme.output_address((ptr + i) as u64) is None);
                }
                return Err(Status::InvalidUsage);
            },
        };
        bytes.push(memory.read_u8(address));
        i += 1;
    }
    assert(bytes@ =~= message_bytes(scheme, memory.bytes@, ptr, len));
    if !is_valid_utf8(bytes.as_slice()) {
        return Err(Status::InvalidUsage);
    }
    Ok(bytes)
}

/// The number of frames of `frame_size` bytes that `count` pages of `page_size` bytes take,
/// rounded up.
pub open spec fn frames_for(count: int, page_size: int, frame_size: int) -> int {
    (count * page_size) / frame_size + if (count * page_size) % frame_size != 0 { 1int } else { 0int }
}

/// `frames` frames of `frame_size` bytes are the fewest that hold `bytes` bytes.
pub open spec fn fewest_frames_holding(frames: int, bytes: int, frame_size: int) -> bool {
    &&& frames * frame_size >= bytes
    &&& frames * frame_size < bytes + frame_size
}

/// The frames counted for `count` pages of `page_size` bytes are the fewest that hold them.
pub proof fn law_frames_for_holds_pages(count: int, page_size: int, frame_size: int)
    requires
        count >= 0,
        page_size >= 0,
        frame_size > 0,
    ensures
        frames_for(count, page_size, frame_size) >= 0,
        fewest_frames_holding(frames_for(count, page_size, frame_size), count * page_size, frame_size),
{
    let t = count * page_size;
    assert(t >= 0) by (nonlinear_arith)
        requires
            count >= 0,
            page_size >= 0,
            t == count * page_size,
    ;
    let q = t / frame_size;
    vstd::arithmetic::div_mod::lemma_fundamental_div_mod(t, frame_size);
    vstd::arithmetic::div_mod::lemma_mod_pos_bound(t, frame_size);
    vstd::arithmetic::div_mod::lemma_div_pos_is_pos(t, frame_size);
    vstd::arithmetic::mul::lemma_mul_is_distributive_add_other_way(frame_size, q, 1);
    vstd::arithmetic::mul::lemma_mul_is_commutative(q, frame_size);
    vstd::arithmetic::mul::lemma_mul_is_commutative(q + 1, frame_size);
}

/// The frames that a call to give back `count` pages at `physical_address` names.
pub open spec fn released_range(physical_address: u64, count: u64, page_size: int, frame_size: u64) -> FrameRange {
    FrameRange {
        start: (physical_address / frame_size) as u64,
        count: frames_for(count as int, page_size, frame_size as int) as u64,
    }
}

/// The size, in bytes, of the pages that calls count in: the larger of the scheme's granule
/// and the frame size.
pub open spec fn page_frame_size(chunk_size: u64, frame_size: u64) -> int {
    if chunk_size > frame_size {
        chunk_size as int
    } else {
        frame_size as int
    }
}

/// Gives back the `count` pages at `physical_address` that the executable allocated, in frames
/// of `frame_size` bytes: the frames they cover leave `allocations`. A call whose size
/// overflows, or that names frames not all held, changes nothing and is refused.
pub fn deallocate_frames_func<S: TranslationScheme>(
    scheme: &S,
    allocations: &mut FrameVec,
    frame_size: u64,
    physical_address: u64,
    count: u64,
) -> (result: Result<(), Status>)
    requires
        scheme.valid(),
        old(allocations).wf(),
        frame_size > 0,
    ensures
        final(allocations).wf(),
        ({
            let size = page_frame_size(scheme.spec_chunk_size(), frame_size);
            let range = released_range(physical_address, count, size, frame_size);
            if count * size > u64::MAX || !range.wf() || !range.frames().subset_of(old(allocations)@) {
                result == Err::<(), Status>(Status::InvalidUsage) && final(allocations)@ == old(allocations)@
            } else {
                result == Ok::<(), Status>(()) && final(allocations)@ == old(allocations)@.difference(range.frames())
            }
        }),
{
    let chunk = scheme.chunk_size();
    let size = if chunk > frame_size { chunk } else { frame_size };
    let total = match count.checked_mul(size) {
        Some(total) => total,
        None => return Err(Status::InvalidUsage),
    };
    proof {
        if total % frame_size != 0 {
            assert(frame_size >= 2);
            assert(total as int / frame_size as int <= total as int / 2) by {
                vstd::arithmetic::div_mod::lemma_div_is_ordered_by_denominator(total as int, 2, frame_size as int);
            }
        }
    }
    let frame_count = total / frame_size + if total % frame_size != 0 { 1 } else { 0 };
    let start = physical_address / frame_size;
    if start > u64::MAX - frame_count {
        return Err(Status::InvalidUsage);
    }
    let range = FrameRange::new(start, frame_count);
    if !allocations.contains_region(range) {
        return Err(Status::InvalidUsage);
    }
    proof {
        law_held_range_is_removable(allocations, range);
    }
    allocations.remove_region(range);
    Ok(())
}

/// The number of 4 KiB pages that `count` pages of the calls' page size take, where the calls
/// count in pages of the larger of 4 KiB and `frame_size`; `None` where the size overflows.
pub open spec fn page_count_for(count: u64, frame_size: u64) -> Option<u64> {
    let size = page_frame_size(4096, frame_size);
    if count * size > u64::MAX {
        None
    } else {
        Some(frames_for(count as int, size, 4096) as u64)
    }
}

/// Returns the number of 4 KiB pages that `count` pages of the calls' page size take.
fn page_count(count: u64, frame_size: u64) -> (result: Option<u64>)
    ensures
        result == page_count_for(count, frame_size),
{
    let size = if 4096 > frame_size { 4096 } else { frame_size };
    let total = match count.checked_mul(size) {
        Some(total) => total,
        None => return None,
    };
    Some(total / 4096 + if total % 4096 != 0 { 1 } else { 0 })
}

/// The pages of a range of `n` pages that starts at the page of `address`, if they fit in 64
/// bits.
pub open spec fn pages_from(address: u64, n: u64) -> Option<ChunkRange> {
    let range = ChunkRange { start: address / 4096, count: n };
    if range_fits(range) {
        Some(range)
    } else {
        None
    }
}

/// Returns the range of `n` pages from the page of `address`, if it fits in 64 bits.
fn pages_at(address: u64, n: u64) -> (result: Option<ChunkRange>)
    ensures
        result == pages_from(address, n),
{
    let start = address / 4096;
    if n == 0 || n > 0x10_0000_0000_0000 || start > 0x10_0000_0000_0000 - n {
        return None;
    }
    Some(ChunkRange { start, count: n })
}

/// What a call to map `count` pages at `physical_address` to `virtual_address` with `flags`
/// asks for: the input and output pages, the permissions and whether mapped pages may be
/// overwritten; `None` where the call is malformed.
pub open spec fn map_request(
    flags: u64,
    count: u64,
    physical_address: u64,
    virtual_address: u64,
    frame_size: u64,
) -> Option<(ChunkRange, ChunkRange, Permissions, bool)> {
    if flags & MAP_VALID != flags || count == 0 {
        None
    } else {
        match page_count_for(count, frame_size) {
            None => None,
            Some(n) => match (pages_from(virtual_address, n), pages_from(physical_address, n)) {
                (Some(input), Some(output)) => Some(
                    (
                        input,
                        output,
                        Permissions::from_access_spec(flags & MAP_WRITE == MAP_WRITE, flags & MAP_EXEC == MAP_EXEC),
                        flags & MAP_MAY_OVERWRITE == MAP_MAY_OVERWRITE,
                    ),
                ),
                _ => None,
            },
        }
    }
}

/// The status that a failed mapping is answered with.
pub open spec fn map_status(error: MapError) -> Status {
    match error {
        MapError::FindFreeRegionError => Status::Overlap,
        MapError::FrameAllocation => Status::OutOfMemory,
    }
}

/// The answer to a call whose mapping ended with `result`.
pub open spec fn map_answer(result: Result<(), MapError>) -> Result<(), Status> {
    match result {
        Ok(()) => Ok(()),
        Err(error) => Err(map_status(error)),
    }
}

/// What a call that maps `input` to `output` with `permissions`, first unmapping `input` where
/// `overwrite` is set, leaves: the tables `after` with frames from `after_allocator`, and
/// `result`, the answer to the outcome of `map_at` on the tables as the unmapping left them.
pub open spec fn map_call_outcome(
    scheme: &LongModeTranslationScheme,
    before: PhysicalMemory64,
    before_allocator: FrameAllocator,
    after: PhysicalMemory64,
    after_allocator: FrameAllocator,
    input: ChunkRange,
    output: ChunkRange,
    permissions: Permissions,
    overwrite: bool,
    result: Result<(), Status>,
) -> bool {
    exists|unmapped: PhysicalMemory64, mapped: Result<(), MapError>|
        #[trigger] scheme.map_at_outcome(unmapped, before_allocator, after, after_allocator, input, output, permissions, mapped)
            && (if overwrite {
            scheme.unmap_outcome(before, before_allocator, unmapped, input)
        } else {
            unmapped == before
        }) && result == map_answer(mapped)
}

/// Maps `count` pages at `physical_address` to `virtual_address` with the permissions that
/// `flags` ask for, in the long-mode tables held in `memory`, first unmapping the pages when
/// `flags` allow overwriting.
#[verifier::spinoff_prover]
#[verifier::rlimit(30)]
pub fn map_func(
    scheme: &mut LongModeTranslationScheme,
    memory: &mut PhysicalMemory64,
    allocator: &mut FrameAllocator,
    frame_size: u64,
    physical_address: u64,
    virtual_address: u64,
    count: u64,
    flags: u64,
) -> (result: Result<(), Status>)
    requires
        old(scheme).tables(*old(memory), *old(allocator)).wf(),
        (match map_request(flags, count, physical_address, virtual_address, frame_size) {
            Some((input, _, _, overwrite)) => overwrite && old(scheme).input_valid(input) ==> old(scheme).no_large_pages(
                *old(memory),
                input,
            ),
            None => true,
        }),
    ensures
        *final(scheme) == *old(scheme),
        match map_request(flags, count, physical_address, virtual_address, frame_size) {
            None => result == Err::<(), Status>(Status::InvalidUsage) && *final(memory) == *old(memory) && *final(allocator)
                == *old(allocator),
            Some((input, output, permissions, overwrite)) => if overwrite && !old(scheme).input_valid(input) {
                result == Err::<(), Status>(Status::InvalidUsage) && *final(memory) == *old(memory) && *final(allocator)
                    == *old(allocator)
            } else {
                map_call_outcome(
                    old(scheme),
                    *old(memory),
                    *old(allocator),
                    *final(memory),
                    *final(allocator),
                    input,
                    output,
                    permissions,
                    overwrite,
                    result,
                )
            },
        },
{
    if flags & MAP_VALID != flags || count == 0 {
        return Err(Status::InvalidUsage);
    }
    let n = match page_count(count, frame_size) {
        Some(n) => n,
        None => return Err(Status::InvalidUsage),
    };
    let input = match pages_at(virtual_address, n) {
        Some(input) => input,
        None => return Err(Status::InvalidUsage),
    };
    let output = match pages_at(physical_address, n) {
        Some(output) => output,
        None => return Err(Status::InvalidUsage),
    };
    let permissions = Permissions::from_access(flags & MAP_WRITE == MAP_WRITE, flags & MAP_EXEC == MAP_EXEC);
    let overwrite = flags & MAP_MAY_OVERWRITE == MAP_MAY_OVERWRITE;
    let ghost before = *memory;
    if overwrite {
        if !scheme.input_valid_exec(input) {
            return Err(Status::InvalidUsage);
        }
        scheme.unmap(memory, allocator, input);
    }
    let ghost unmapped = *memory;
    let mapped = scheme.map_at(memory, allocator, input, output, permissions, MappingType::Normal);
    let result = match mapped {
        Ok(()) => Ok(()),
        Err(MapError::FindFreeRegionError) => Err(Status::Overlap),
        Err(MapError::FrameAllocation) => Err(Status::OutOfMemory),
    };
    assert(map_request(flags, count, physical_address, virtual_address, frame_size) == Some(
        (input, output, permissions, overwrite),
    ));
    assert(scheme.map_at_outcome(unmapped, *old(allocator), *memory, *allocator, input, output, permissions, mapped));
    assert(map_call_outcome(scheme, before, *old(allocator), *memory, *allocator, input, output, permissions, overwrite, result));
    result
}

/// The pages that a call to unmap `count` pages at `virtual_address` names; `None` where the
/// call is malformed.
pub open spec fn unmap_request(count: u64, virtual_address: u64, frame_size: u64) -> Option<ChunkRange> {
    if count == 0 {
        None
    } else {
        match page_count_for(count, frame_size) {
            None => None,
            Some(n) => pages_from(virtual_address, n),
        }
    }
}

/// Unmaps `count` pages at `virtual_address` from the long-mode tables held in `memory`. A
/// call that names pages outside the input address space is refused.
pub fn unmap_func(
    scheme: &mut LongModeTranslationScheme,
    memory: &mut PhysicalMemory64,
    allocator: &FrameAllocator,
    frame_size: u64,
    virtual_address: u64,
    count: u64,
) -> (result: Result<(), Status>)
    requires
        old(scheme).tables(*old(memory), *allocator).wf(),
        (match unmap_request(count, virtual_address, frame_size) {
            Some(input) => old(scheme).input_valid(input) ==> old(scheme).no_large_pages(*old(memory), input),
            None => true,
        }),
    ensures
        *final(scheme) == *old(scheme),
        match unmap_request(count, virtual_address, frame_size) {
            Some(input) => if old(scheme).input_valid(input) {
                result == Ok::<(), Status>(()) && old(scheme).unmap_outcome(*old(memory), *allocator, *final(memory), input)
            } else {
                result == Err::<(), Status>(Status::InvalidUsage) && *final(memory) == *old(memory)
            },
            None => result == Err::<(), Status>(Status::InvalidUsage) && *final(memory) == *old(memory),
        },
{
    if count == 0 {
        return Err(Status::InvalidUsage);
    }
    let n = match page_count(count, frame_size) {
        Some(n) => n,
        None => return Err(Status::InvalidUsage),
    };
    let input = match pages_at(virtual_address, n) {
        Some(input) => input,
        None => return Err(Status::InvalidUsage),
    };
    if !scheme.input_valid_exec(input) {
        return Err(Status::InvalidUsage);
    }
    scheme.unmap(memory, allocator, input);
    Ok(())
}

/// Allocation flag: any frames will do.
pub const ALLOCATE_ANY: u64 = 0x0;
/// Allocation flag: the frames must start at the address stored at the pointer.
pub const ALLOCATE_AT: u64 = 0x1;
/// Allocation flag: the frames must end at or below the address stored at the pointer.
pub const ALLOCATE_INCLUSIVE_MAX: u64 = 0x2;
/// Every allocation flag.
pub const ALLOCATE_VALID: u64 = 0x3;

/// Where the frames of an allocation must lie.
#[derive(Clone, Copy, Debug, PartialEq, Eq, Structural)]
pub enum FramePolicy {
    /// Anywhere.
    Any,
    /// Starting at the given address.
    At(u64),
    /// Ending at or below the given address.
    InclusiveMax(u64),
}

/// What a call to allocate `count` pages with `flags`, whose pointer argument is
/// `physical_address_ptr`, asks for: the policy and the number of frames of `frame_size` bytes.
/// `translated` is where the pointer translates to, if anywhere; `stored` is the value read
/// there, if it could be read.
pub open spec fn allocation_request(
    count: u64,
    flags: u64,
    physical_address_ptr: u64,
    translated: Option<u64>,
    stored: Option<u64>,
    chunk_size: u64,
    frame_size: u64,
) -> Result<(FramePolicy, u64), Status> {
    if count == 0 || physical_address_ptr == 0 || flags & ALLOCATE_VALID != flags || translated is None {
        Err(Status::InvalidUsage)
    } else {
        let policy = if flags & 3 == ALLOCATE_ANY {
            Some(FramePolicy::Any)
        } else if flags & 3 == ALLOCATE_AT {
            match stored {
                Some(value) => Some(FramePolicy::At(value)),
                None => None,
            }
        } else if flags & 3 == ALLOCATE_INCLUSIVE_MAX {
            match stored {
                Some(value) => Some(FramePolicy::InclusiveMax(value)),
                None => None,
            }
        } else {
            None
        };
        let size = page_frame_size(chunk_size, frame_size);
        match policy {
            None => Err(Status::InvalidUsage),
            Some(policy) => if count * size > u64::MAX {
                Err(Status::OutOfMemory)
            } else {
                Ok((policy, frames_for(count as int, size, frame_size as int) as u64))
            },
        }
    }
}

/// The policy of an accepted allocation is the one that the low two bits of `flags` name:
/// any frames for [`ALLOCATE_ANY`], frames exactly at the stored address for [`ALLOCATE_AT`],
/// and frames at or below it for [`ALLOCATE_INCLUSIVE_MAX`]; a policy that needs the stored
/// address is refused where it could not be read.
pub open spec fn policy_follows_flags(flags: u64, stored: Option<u64>, result: Result<(FramePolicy, u64), Status>) -> bool {
    &&& result matches Ok((policy, _)) ==> {
        &&& flags & 3 == ALLOCATE_ANY ==> policy == FramePolicy::Any
        &&& flags & 3 == ALLOCATE_AT ==> stored is Some && policy == FramePolicy::At(stored->0)
        &&& flags & 3 == ALLOCATE_INCLUSIVE_MAX ==> stored is Some && policy == FramePolicy::InclusiveMax(stored->0)
        &&& flags & 3 != ALLOCATE_ANY && flags & 3 != ALLOCATE_AT && flags & 3 != ALLOCATE_INCLUSIVE_MAX ==> false
    }
    &&& (flags & 3 == ALLOCATE_AT || flags & 3 == ALLOCATE_INCLUSIVE_MAX) && stored is None ==> result is Err
}

/// An allocation request is refused as unusable for no pages, a null pointer, unknown flags or
/// a pointer that does not translate; an accepted one asks for the fewest frames that hold the
/// pages, each page being as large as the larger of the granule and the frame.
pub open spec fn frames_follow_count(
    count: u64,
    flags: u64,
    physical_address_ptr: u64,
    translated: Option<u64>,
    chunk_size: u64,
    frame_size: u64,
    result: Result<(FramePolicy, u64), Status>,
) -> bool {
    let size: int = if chunk_size > frame_size {
        chunk_size as int
    } else {
        frame_size as int
    };
    &&& count == 0 || physical_address_ptr == 0 || flags & ALLOCATE_VALID != flags || translated is None ==> result
        == Err::<(FramePolicy, u64), Status>(Status::InvalidUsage)
    &&& result matches Ok((_, frames)) ==> count * size <= u64::MAX && fewest_frames_holding(
        frames as int,
        count * size,
        frame_size as int,
    )
    &&& result is Ok || result == Err::<(FramePolicy, u64), Status>(Status::InvalidUsage) || (result == Err::<
        (FramePolicy, u64),
        Status,
    >(Status::OutOfMemory) && count * size > u64::MAX)
}

/// An accepted allocation request follows the policy its flags name.
pub proof fn law_policy_follows_flags(
    count: u64,
    flags: u64,
    physical_address_ptr: u64,
    translated: Option<u64>,
    stored: Option<u64>,
    chunk_size: u64,
    frame_size: u64,
)
    requires
        frame_size > 0,
    ensures
        policy_follows_flags(
            flags,
            stored,
            allocation_request(count, flags, physical_address_ptr, translated, stored, chunk_size, frame_size),
        ),
        frames_follow_count(
            count,
            flags,
            physical_address_ptr,
            translated,
            chunk_size,
            frame_size,
            allocation_request(count, flags, physical_address_ptr, translated, stored, chunk_size, frame_size),
        ),
{
    let size = page_frame_size(chunk_size, frame_size);
    law_frames_for_holds_pages(count as int, size, frame_size as int);
    let f = frames_for(count as int, size, frame_size as int);
    if count * size <= u64::MAX {
        assert(f <= u64::MAX) by (nonlinear_arith)
            requires
                f * frame_size < count * size + frame_size,
                frame_size > 0,
                count * size <= u64::MAX,
                f >= 0,
        ;
    }
}

/// Checks a call to allocate `count` pages with `flags` and returns the policy and the number
/// of frames of `frame_size` bytes to ask the platform for.
pub fn allocate_frames_request(
    count: u64,
    flags: u64,
    physical_address_ptr: u64,
    translated: Option<u64>,
    stored: Option<u64>,
    chunk_size: u64,
    frame_size: u64,
) -> (result: Result<(FramePolicy, u64), Status>)
    requires
        frame_size > 0,
    ensures
        result == allocation_request(count, flags, physical_address_ptr, translated, stored, chunk_size, frame_size),
        policy_follows_flags(flags, stored, result),
        frames_follow_count(count, flags, physical_address_ptr, translated, chunk_size, frame_size, result),
{
    proof {
        law_policy_follows_flags(count, flags, physical_address_ptr, translated, stored, chunk_size, frame_size);
    }
    if count == 0 || physical_address_ptr == 0 || flags & ALLOCATE_VALID != flags || translated.is_none() {
        return Err(Status::InvalidUsage);
    }
    let policy = if flags & 3 == ALLOCATE_ANY {
        FramePolicy::Any
    } else if flags & 3 == ALLOCATE_AT {
        match stored {
            Some(value) => FramePolicy::At(value),
            None => return Err(Status::InvalidUsage),
        }
    } else if flags & 3 == ALLOCATE_INCLUSIVE_MAX {
        match stored {
            Some(value) => FramePolicy::InclusiveMax(value),
            None => return Err(Status::InvalidUsage),
        }
    } else {
        return Err(Status::InvalidUsage);
    };
    let size = if chunk_size > frame_size { chunk_size } else { frame_size };
    let total = match count.checked_mul(size) {
        Some(total) => total,
        None => return Err(Status::OutOfMemory),
    };
    proof {
        if total % frame_size != 0 {
            assert(frame_size >= 2);
            assert(total as int / frame_size as int <= total as int / 2) by {
                vstd::arithmetic::div_mod::lemma_div_is_ordered_by_denominator(total as int, 2, frame_size as int);
            }
        }
    }
    Ok((policy, total / frame_size + if total % frame_size != 0 { 1 } else { 0 }))
}

/// `bytes` with the eight little-endian bytes of `value` stored from `address`.
pub open spec fn stored_u64(bytes: Seq<u8>, address: int, value: u64) -> Seq<u8> {
    Seq::new(
        bytes.len(),
        |i: int|
            if address <= i < address + 8 {
                (value >> ((8 * (i - address)) as u64)) as u8
            } else {
                bytes[i]
            },
    )
}

/// Stores `value` as eight little-endian bytes from `address`; returns `false`, storing
/// nothing, where they do not all lie in `memory`.
pub fn write_u64_at(memory: &mut PhysicalBytes, address: u64, value: u64) -> (written: bool)
    ensures
        written == (address + 8 <= old(memory).bytes@.len()),
        final(memory).bytes@ == if written {
            stored_u64(old(memory).bytes@, address as int, value)
        } else {
            old(memory).bytes@
        },
{
    let len = memory.bytes.len() as u64;
    if len < 8 || address > len - 8 {
        return false;
    }
    let mut i: u64 = 0;
    while i < 8
        invariant
            i <= 8,
            address + 8 <= len,
            len == old(memory).bytes@.len(),
            memory.bytes@.len() == len,
            forall|k: int| 0 <= k < len ==> #[trigger] memory.bytes@[k] == if address <= k < address + i {
                (value >> ((8 * (k - address)) as u64)) as u8
            } else {
                old(memory).bytes@[k]
            },
        decreases 8 - i,
    {
        let byte = (value >> (8 * i)) as u8;
        memory.write_u8(address + i, byte);
        i += 1;
    }
    assert(memory.bytes@ =~= stored_u64(old(memory).bytes@, address as int, value));
    true
}

/// Records the platform's `answer` to an allocation of `frame_count` frames of `frame_size`
/// bytes: the first address is stored at `ptr_address` and the frames join `allocations`.
pub fn record_allocation(
    allocations: &mut FrameVec,
    memory: &mut PhysicalBytes,
    ptr_address: u64,
    frame_size: u64,
    frame_count: u64,
    answer: Option<u64>,
) -> (result: Result<(), Status>)
    requires
        old(allocations).wf(),
        frame_size > 0,
    ensures
        final(allocations).wf(),
        match answer {
            None => result == Err::<(), Status>(Status::OutOfMemory) && *final(allocations) == *old(allocations)
                && final(memory).bytes@ == old(memory).bytes@,
            Some(base) => {
                let range = FrameRange { start: (base / frame_size) as u64, count: frame_count };
                if !range.wf() || ptr_address + 8 > old(memory).bytes@.len() {
                    result == Err::<(), Status>(Status::InvalidUsage) && *final(allocations) == *old(allocations)
                        && final(memory).bytes@ == old(memory).bytes@
                } else {
                    &&& result == Ok::<(), Status>(())
                    &&& final(memory).bytes@ == stored_u64(old(memory).bytes@, ptr_address as int, base)
                    &&& final(allocations)@ == old(allocations)@.union(range.frames())
                }
            },
        },
{
    let base = match answer {
        Some(base) => base,
        None => return Err(Status::OutOfMemory),
    };
    let start = base / frame_size;
    if start > u64::MAX - frame_count {
        return Err(Status::InvalidUsage);
    }
    if !write_u64_at(memory, ptr_address, base) {
        return Err(Status::InvalidUsage);
    }
    allocations.add_region(FrameRange::new(start, frame_count));
    Ok(())
}

/// The eight little-endian bytes from `address`, as a `u64`.
pub open spec fn loaded_u64(bytes: Seq<u8>, address: int) -> u64 {
    (bytes[address] as u64) | ((bytes[address + 1] as u64) << 8u64) | ((bytes[address + 2] as u64) << 16u64) | ((
    bytes[address + 3] as u64) << 24u64) | ((bytes[address + 4] as u64) << 32u64) | ((bytes[address + 5] as u64)
        << 40u64) | ((bytes[address + 6] as u64) << 48u64) | ((bytes[address + 7] as u64) << 56u64)
}

/// Reads the eight little-endian bytes from `address` as a `u64`, if they all lie in `memory`.
pub fn read_u64_at(memory: &PhysicalBytes, address: u64) -> (value: Option<u64>)
    ensures
        value == if address + 8 <= memory.bytes@.len() {
            Some(loaded_u64(memory.bytes@, address as int))
        } else {
            None::<u64>
        },
{
    let len = memory.bytes.len() as u64;
    if len < 8 || address > len - 8 {
        return None;
    }
    let a = address as usize;
    let b = &memory.bytes;
    Some(
        (b[a] as u64) | ((b[a + 1] as u64) << 8u64) | ((b[a + 2] as u64) << 16u64) | ((b[a + 3] as u64) << 24u64) | ((
        b[a + 4] as u64) << 32u64) | ((b[a + 5] as u64) << 40u64) | ((b[a + 6] as u64) << 48u64) | ((b[a + 7] as u64)
            << 56u64),
    )
}

/// A call that the loaded executable makes into the stub, with its arguments.
#[derive(Clone, Copy, Debug, PartialEq, Eq, Structural)]
pub enum Call {
    /// Writes the message of `len` bytes at `ptr`.
    Write { ptr: u64, len: u64 },
    /// Allocates `count` pages as `flags` ask, the address being read from and written to `ptr`.
    AllocateFrames { count: u64, flags: u64, ptr: u64 },
    /// Gives back `count` pages at `address`.
    DeallocateFrames { address: u64, count: u64 },
    /// Maps `count` pages at `physical_address` to `virtual_address` as `flags` ask.
    MapPages { physical_address: u64, virtual_address: u64, count: u64, flags: u64 },
    /// Unmaps `count` pages at `virtual_address`.
    UnmapPages { virtual_address: u64, count: u64 },
    /// Writes the platform's memory map into the buffer at `map_buffer_ptr`, whose size is
    /// read from and written back to `size_ptr`.
    GetMemoryMap {
        size_ptr: u64,
        map_buffer_ptr: u64,
        key_ptr: u64,
        descriptor_size_ptr: u64,
        descriptor_version_ptr: u64,
    },
}

/// What a call leaves to do once the stub has handled what it can.
#[derive(Debug)]
pub enum CallStep {
    /// The call is answered with the status.
    Done(Status),
    /// The message bytes are to be printed; the call then succeeds.
    Print(Vec<u8>),
    /// The platform is to allocate `frames` frames under `policy`; its answer goes to
    /// [`record_allocation`] with `ptr_address`.
    Allocate { policy: FramePolicy, frames: u64, ptr_address: u64 },
    /// The platform's memory map is to be brought up to date and read; it then goes to
    /// [`crate::memory_map::get_memory_map_func`] with the call's arguments.
    ReadMemoryMap,
}

/// The first address that `address` translates to in the long-mode tables held in `tables`.
pub open spec fn translated(scheme: &LongModeTranslationScheme, tables: PhysicalMemory64, address: u64) -> Option<u64> {
    match scheme.spec_translate(tables, address) {
        Some((_, _, physical_address)) => Some(physical_address),
        None => None,
    }
}

/// Handles `call` of the executable whose address space is the long-mode tables held in
/// `tables`, whose memory is `memory` and whose allocated frames are `allocations`.
pub fn handle_call(
    scheme: &mut LongModeTranslationScheme,
    tables: &mut PhysicalMemory64,
    table_frames: &mut FrameAllocator,
    memory: &PhysicalBytes,
    allocations: &mut FrameVec,
    frame_size: u64,
    call: Call,
) -> (step: CallStep)
    requires
        old(scheme).tables(*old(tables), *old(table_frames)).wf(),
        old(allocations).wf(),
        frame_size > 0,
        (match call {
            Call::MapPages { physical_address, virtual_address, count, flags } => match map_request(
                flags,
                count,
                physical_address,
                virtual_address,
                frame_size,
            ) {
                Some((input, _, _, overwrite)) => overwrite && old(scheme).input_valid(input) ==> old(scheme).no_large_pages(
                    *old(tables),
                    input,
                ),
                None => true,
            },
            Call::UnmapPages { virtual_address, count } => match unmap_request(count, virtual_address, frame_size) {
                Some(input) => old(scheme).input_valid(input) ==> old(scheme).no_large_pages(*old(tables), input),
                None => true,
            },
            _ => true,
        }),
    ensures
        *final(scheme) == *old(scheme),
        final(allocations).wf(),
        !(call is MapPages || call is UnmapPages) ==> *final(tables) == *old(tables) && *final(table_frames) == *old(table_frames),
        !(call is DeallocateFrames) ==> *final(allocations) == *old(allocations),
        match call {
            Call::Write { ptr, len } => {
                let view = LongModeTables { scheme: old(scheme), memory: old(tables) };
                if len > 0 && message_readable(&view, ptr, len) && valid_utf8(message_bytes(&view, memory.bytes@, ptr, len)) {
                    step matches CallStep::Print(bytes) && bytes@ == message_bytes(&view, memory.bytes@, ptr, len)
                } else {
                    step == CallStep::Done(Status::InvalidUsage)
                }
            },
            Call::AllocateFrames { count, flags, ptr } => {
                let t = translated(old(scheme), *old(tables), ptr);
                let stored = match t {
                    Some(a) => if a + 8 <= memory.bytes@.len() {
                        Some(loaded_u64(memory.bytes@, a as int))
                    } else {
                        None::<u64>
                    },
                    None => None::<u64>,
                };
                match allocation_request(count, flags, ptr, t, stored, 4096, frame_size) {
                    Err(status) => step == CallStep::Done(status),
                    Ok((policy, frames)) => step == CallStep::Allocate { policy, frames, ptr_address: t->0 },
                }
            },
            Call::DeallocateFrames { address, count } => {
                let size = page_frame_size(4096, frame_size);
                let range = released_range(address, count, size, frame_size);
                if count * size > u64::MAX || !range.wf() || !range.frames().subset_of(old(allocations)@) {
                    step == CallStep::Done(Status::InvalidUsage) && final(allocations)@ == old(allocations)@
                } else {
                    step == CallStep::Done(Status::Success) && final(allocations)@ == old(allocations)@.difference(range.frames())
                }
            },
            Call::MapPages { physical_address, virtual_address, count, flags } => match map_request(
                flags,
                count,
                physical_address,
                virtual_address,
                frame_size,
            ) {
                None => step == CallStep::Done(Status::InvalidUsage) && *final(tables) == *old(tables) && *final(table_frames)
                    == *old(table_frames),
                Some((input, output, permissions, overwrite)) => if overwrite && !old(scheme).input_valid(input) {
                    step == CallStep::Done(Status::InvalidUsage) && *final(tables) == *old(tables) && *final(table_frames)
                        == *old(table_frames)
                } else {
                    exists|result: Result<(), Status>|
                        #[trigger] map_call_outcome(
                            old(scheme),
                            *old(tables),
                            *old(table_frames),
                            *final(tables),
                            *final(table_frames),
                            input,
                            output,
                            permissions,
                            overwrite,
                            result,
                        ) && step == CallStep::Done(answer_status(result))
                },
            },
            Call::UnmapPages { virtual_address, count } => *final(table_frames) == *old(table_frames) && match unmap_request(
                count,
                virtual_address,
                frame_size,
            ) {
                Some(input) => if old(scheme).input_valid(input) {
                    step == CallStep::Done(Status::Success) && old(scheme).unmap_outcome(
                        *old(tables),
                        *old(table_frames),
                        *final(tables),
                        input,
                    )
                } else {
                    step == CallStep::Done(Status::InvalidUsage) && *final(tables) == *old(tables)
                },
                None => step == CallStep::Done(Status::InvalidUsage) && *final(tables) == *old(tables),
            },
            Call::GetMemoryMap { .. } => step == CallStep::ReadMemoryMap,
        },
{
    proof {
        crate::long_mode::X86_64AddressSpace::lemma_from_parts(
            scheme.spec_cr3(),
            scheme.spec_la57(),
            scheme.spec_nxe(),
            *tables,
            *table_frames,
        );
        scheme.tables(*tables, *table_frames).lemma_wf_root();
    }
    match call {
        Call::Write { ptr, len } => {
            if len == 0 {
                return CallStep::Done(Status::InvalidUsage);
            }
            let view = LongModeTables { scheme: &*scheme, memory: &*tables };
            match write_func(&view, memory, ptr, len) {
                Ok(bytes) => CallStep::Print(bytes),
                Err(status) => CallStep::Done(status),
            }
        },
        Call::AllocateFrames { count, flags, ptr } => {
            let t = match scheme.translate(tables, ptr) {
                Some((_, _, address)) => Some(address),
                None => None,
            };
            let stored = match t {
                Some(address) => read_u64_at(memory, address),
                None => None,
            };
            match allocate_frames_request(count, flags, ptr, t, stored, 4096, frame_size) {
                Err(status) => CallStep::Done(status),
                Ok((policy, frames)) => CallStep::Allocate { policy, frames, ptr_address: t.unwrap() },
            }
        },
        Call::DeallocateFrames { address, count } => {
            let view = LongModeTables { scheme: &*scheme, memory: &*tables };
            match deallocate_frames_func(&view, allocations, frame_size, address, count) {
                Ok(()) => CallStep::Done(Status::Success),
                Err(status) => CallStep::Done(status),
            }
        },
        Call::MapPages { physical_address, virtual_address, count, flags } => {
            let result = map_func(scheme, tables, table_frames, frame_size, physical_address, virtual_address, count, flags);
            CallStep::Done(call_status(result))
        },
        Call::UnmapPages { virtual_address, count } => {
            let result = unmap_func(scheme, tables, table_frames, frame_size, virtual_address, count);
            CallStep::Done(call_status(result))
        },
        Call::GetMemoryMap { .. } => CallStep::ReadMemoryMap,
    }
}

/// The status that answers a call that ended with `result`.
pub open spec fn answer_status(result: Result<(), Status>) -> Status {
    match result {
        Ok(()) => Status::Success,
        Err(status) => status,
    }
}

/// Returns the status that answers a call that ended with `result`.
fn call_status(result: Result<(), Status>) -> (status: Status)
    ensures
        status == answer_status(result),
{
    match result {
        Ok(()) => Status::Success,
        Err(status) => status,
    }
}

} // verus!
