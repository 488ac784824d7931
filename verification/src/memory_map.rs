//! The call that hands the platform's memory map to a loaded executable: the map is written,
//! descriptor by descriptor, into a buffer of the executable's address space.
use vstd::prelude::*;

use crate::calls::{loaded_u64, read_u64_at, stored_u64, write_u64_at, Status};
use crate::paging::TranslationScheme;
use crate::physical_memory::PhysicalBytes;

verus! {

/// The kind of a region of physical memory.
#[derive(Clone, Copy, Debug, PartialEq, Eq, Structural)]
pub enum MemoryType {
    /// Usable memory.
    Free,
    /// Memory that the boot loader used and that can be reclaimed.
    BootloaderReclaimable,
    /// Memory that does not work.
    Bad,
    /// Memory that is not available.
    Reserved,
    /// Memory holding ACPI tables, reclaimable once they are read.
    AcpiReclaimable,
    /// Memory that ACPI keeps for itself.
    AcpiNonVolatile,
}

/// One region of the platform's memory map: `count` frames from the frame at `start`.
#[derive(Clone, Copy, Debug, PartialEq, Eq, Structural)]
pub struct MemoryDescriptor {
    /// The first physical address of the region.
    pub start: u64,
    /// The number of frames in the region.
    pub count: u64,
    /// The kind of the region.
    pub region_type: MemoryType,
}

/// The size in bytes of a descriptor as the executable sees it: `start` at offset 0,
/// `count` at offset 8 and the type's code at offset 16, padded to a multiple of 8.
pub const DESCRIPTOR_SIZE: u64 = 24;

/// The version of the descriptor layout handed to the executable.
pub const DESCRIPTOR_VERSION: u64 = 1;

/// The code of a memory type as the executable sees it.
pub open spec fn memory_type_code(region_type: MemoryType) -> u32 {
    match region_type {
        MemoryType::Free => 0,
        MemoryType::BootloaderReclaimable => 1,
        MemoryType::Bad => 2,
        MemoryType::Reserved => 3,
        MemoryType::AcpiReclaimable => 4,
        MemoryType::AcpiNonVolatile => 5,
    }
}

/// The documented codes: `Free` 0, `BootloaderReclaimable` 1, `Bad` 2, `Reserved` 3,
/// `AcpiReclaimable` 4 and `AcpiNonVolatile` 5.
pub open spec fn documented_code(region_type: MemoryType, code: u32) -> bool {
    &&& region_type == MemoryType::Free <==> code == 0
    &&& region_type == MemoryType::BootloaderReclaimable <==> code == 1
    &&& region_type == MemoryType::Bad <==> code == 2
    &&& region_type == MemoryType::Reserved <==> code == 3
    &&& region_type == MemoryType::AcpiReclaimable <==> code == 4
    &&& region_type == MemoryType::AcpiNonVolatile <==> code == 5
}

/// Each memory type is handed to the executable under its documented code, so distinct types
/// get distinct codes.
pub proof fn law_memory_type_codes(a: MemoryType, b: MemoryType)
    ensures
        documented_code(a, memory_type_code(a)),
        memory_type_code(a) == memory_type_code(b) ==> a == b,
{
}

/// Returns the code of `region_type` as the executable sees it.
pub fn type_code(region_type: MemoryType) -> (code: u32)
    ensures
        code == memory_type_code(region_type),
        documented_code(region_type, code),
{
    proof {
        law_memory_type_codes(region_type, region_type);
    }
    match region_type {
        MemoryType::Free => 0,
        MemoryType::BootloaderReclaimable => 1,
        MemoryType::Bad => 2,
        MemoryType::Reserved => 3,
        MemoryType::AcpiReclaimable => 4,
        MemoryType::AcpiNonVolatile => 5,
    }
}

/// `bytes` with the four little-endian bytes of `value` stored from `address`.
pub open spec fn stored_u32(bytes: Seq<u8>, address: int, value: u32) -> Seq<u8> {
    Seq::new(
        bytes.len(),
        |i: int|
            if address <= i < address + 4 {
                (value >> ((8 * (i - address)) as u32)) as u8
            } else {
                bytes[i]
            },
    )
}

/// The four little-endian bytes from `address`, as a `u32`.
pub open spec fn loaded_u32(bytes: Seq<u8>, address: int) -> u32 {
    (bytes[address] as u32) | ((bytes[address + 1] as u32) << 8u32) | ((bytes[address + 2] as u32) << 16u32) | ((
    bytes[address + 3] as u32) << 24u32)
}

/// Stores `value` as four little-endian bytes from `address`; returns `false`, storing
/// nothing, where they do not all lie in `memory`.
pub fn write_u32_at(memory: &mut PhysicalBytes, address: u64, value: u32) -> (written: bool)
    ensures
        written == (address + 4 <= old(memory).bytes@.len()),
        final(memory).bytes@ == if written {
            stored_u32(old(memory).bytes@, address as int, value)
        } else {
            old(memory).bytes@
        },
{
    let len = memory.bytes.len() as u64;
    if len < 4 || address > len - 4 {
        return false;
    }
    let mut i: u64 = 0;
    while i < 4
        invariant
            i <= 4,
            address + 4 <= len,
            len == old(memory).bytes@.len(),
            memory.bytes@.len() == len,
            forall|k: int| 0 <= k < len ==> #[trigger] memory.bytes@[k] == if address <= k < address + i {
                (value >> ((8 * (k - address)) as u32)) as u8
            } else {
                old(memory).bytes@[k]
            },
        decreases 4 - i,
    {
        let byte = (value >> (8 * i as u32)) as u8;
        memory.write_u8(address + i, byte);
        i += 1;
    }
    assert(memory.bytes@ =~= stored_u32(old(memory).bytes@, address as int, value));
    true
}

/// Reads the four little-endian bytes from `address` as a `u32`, if they all lie in `memory`.
pub fn read_u32_at(memory: &PhysicalBytes, address: u64) -> (value: Option<u32>)
    ensures
        value == if address + 4 <= memory.bytes@.len() {
            Some(loaded_u32(memory.bytes@, address as int))
        } else {
            None::<u32>
        },
{
    let len = memory.bytes.len() as u64;
    if len < 4 || address > len - 4 {
        return None;
    }
    let a = address as usize;
    let b = &memory.bytes;
    Some((b[a] as u32) | ((b[a + 1] as u32) << 8u32) | ((b[a + 2] as u32) << 16u32) | ((b[a + 3] as u32) << 24u32))
}

/// The width in bytes of a size word of the executable: four for a 32-bit one, else eight.
pub open spec fn word_width(bits_32: bool) -> int {
    if bits_32 {
        4
    } else {
        8
    }
}

/// The size word at `address`, of the executable's width.
pub open spec fn loaded_word(bytes: Seq<u8>, address: int, bits_32: bool) -> u64 {
    if bits_32 {
        loaded_u32(bytes, address) as u64
    } else {
        loaded_u64(bytes, address)
    }
}

/// `bytes` with `value` stored as a size word of the executable's width at `address`.
pub open spec fn stored_word(bytes: Seq<u8>, address: int, value: u64, bits_32: bool) -> Seq<u8> {
    if bits_32 {
        stored_u32(bytes, address, value as u32)
    } else {
        stored_u64(bytes, address, value)
    }
}

/// Reads the size word at `address`, of the executable's width.
fn read_word_at(memory: &PhysicalBytes, address: u64, bits_32: bool) -> (value: Option<u64>)
    ensures
        value == if address + word_width(bits_32) <= memory.bytes@.len() {
            Some(loaded_word(memory.bytes@, address as int, bits_32))
        } else {
            None::<u64>
        },
{
    if bits_32 {
        match read_u32_at(memory, address) {
            Some(v) => Some(v as u64),
            None => None,
        }
    } else {
        read_u64_at(memory, address)
    }
}

/// Stores `value` as a size word of the executable's width at `address`.
fn write_word_at(memory: &mut PhysicalBytes, address: u64, value: u64, bits_32: bool) -> (written: bool)
    requires
        bits_32 ==> value <= u32::MAX,
    ensures
        written == (address + word_width(bits_32) <= old(memory).bytes@.len()),
        final(memory).bytes@ == if written {
            stored_word(old(memory).bytes@, address as int, value, bits_32)
        } else {
            old(memory).bytes@
        },
{
    if bits_32 {
        write_u32_at(memory, address, value as u32)
    } else {
        write_u64_at(memory, address, value)
    }
}

/// Writes descriptor `d` at `ptr` of the executable's address space: the three fields are
/// located first, then written in order. Returns whether every write succeeded, with the
/// bytes after the writes that did.
pub open spec fn descriptor_step<S: TranslationScheme>(scheme: &S, d: MemoryDescriptor, ptr: u64, bytes: Seq<u8>) -> (
    bool,
    Seq<u8>,
) {
    let s = scheme.output_address(ptr);
    let c = scheme.output_address((ptr + 8) as u64);
    let r = scheme.output_address((ptr + 16) as u64);
    if s is None || c is None || r is None {
        (false, bytes)
    } else if s->0 + 8 > bytes.len() {
        (false, bytes)
    } else {
        let b1 = stored_u64(bytes, s->0 as int, d.start);
        if c->0 + 8 > bytes.len() {
            (false, b1)
        } else {
            let b2 = stored_u64(b1, c->0 as int, d.count);
            if r->0 + 4 > bytes.len() {
                (false, b2)
            } else {
                (true, stored_u32(b2, r->0 as int, memory_type_code(d.region_type)))
            }
        }
    }
}

/// The first `n` descriptors of `map` written one after another from `buffer`, stopping at
/// the first that fails.
pub open spec fn descriptors_written<S: TranslationScheme>(
    scheme: &S,
    map: Seq<MemoryDescriptor>,
    buffer: u64,
    bytes: Seq<u8>,
    n: nat,
) -> (bool, Seq<u8>)
    decreases n,
{
    if n == 0 {
        (true, bytes)
    } else {
        let before = descriptors_written(scheme, map, buffer, bytes, (n - 1) as nat);
        if !before.0 {
            before
        } else {
            descriptor_step(scheme, map[n - 1], (buffer + (n - 1) * DESCRIPTOR_SIZE) as u64, before.1)
        }
    }
}

/// The pointer is neither null nor misaligned for an eight-byte value.
pub open spec fn aligned_pointer(ptr: u64) -> bool {
    ptr != 0 && ptr % 8 == 0
}

/// What the call leaves after the descriptors are written: the size of the map in bytes, the
/// key, the descriptor size and the descriptor version, each written where its pointer
/// translates to, stopping at the first write that fails.
pub open spec fn trailer_written(
    map_len: nat,
    key: u64,
    bits_32: bool,
    size_address: u64,
    key_address: u64,
    descriptor_size_address: u64,
    descriptor_version_address: u64,
    bytes: Seq<u8>,
) -> (Result<(), Status>, Seq<u8>) {
    let fail = Err::<(), Status>(Status::InvalidUsage);
    if size_address + word_width(bits_32) > bytes.len() {
        (fail, bytes)
    } else {
        let b1 = stored_word(bytes, size_address as int, (map_len * DESCRIPTOR_SIZE) as u64, bits_32);
        if key_address + 8 > bytes.len() {
            (fail, b1)
        } else {
            let b2 = stored_u64(b1, key_address as int, key);
            if descriptor_size_address + word_width(bits_32) > bytes.len() {
                (fail, b2)
            } else {
                let b3 = stored_word(b2, descriptor_size_address as int, DESCRIPTOR_SIZE, bits_32);
                if descriptor_version_address + 8 > bytes.len() {
                    (fail, b3)
                } else {
                    (Ok(()), stored_u64(b3, descriptor_version_address as int, DESCRIPTOR_VERSION))
                }
            }
        }
    }
}

/// What the memory-map call answers, and the bytes it leaves, for the map `map` with `key` in
/// the address space of `scheme` over the physical bytes `bytes`, in the order the call
/// makes its checks and writes.
///
/// The size word at `size_ptr` holds the buffer's size in bytes. The number of descriptors is
/// written back to it; where the buffer is too small the call stops there. Otherwise each
/// descriptor is written, then the size of the map in bytes, the key, the descriptor size and
/// the descriptor version.
pub open spec fn memory_map_outcome<S: TranslationScheme>(
    scheme: &S,
    map: Seq<MemoryDescriptor>,
    key: u64,
    bits_32: bool,
    size_ptr: u64,
    map_buffer_ptr: u64,
    key_ptr: u64,
    descriptor_size_ptr: u64,
    descriptor_version_ptr: u64,
    bytes: Seq<u8>,
) -> (Result<(), Status>, Seq<u8>) {
    let fail = Err::<(), Status>(Status::InvalidUsage);
    let size_address = scheme.output_address(size_ptr);
    if !aligned_pointer(size_ptr) || map.len() == 0 || size_address is None {
        (fail, bytes)
    } else if size_address->0 + word_width(bits_32) > bytes.len() {
        (fail, bytes)
    } else {
        let buffer_size = loaded_word(bytes, size_address->0 as int, bits_32);
        let b1 = stored_word(bytes, size_address->0 as int, map.len() as u64, bits_32);
        let last = if buffer_size == 0 {
            map_buffer_ptr as int
        } else {
            map_buffer_ptr + buffer_size - 1
        };
        let key_address = scheme.output_address(key_ptr);
        let descriptor_size_address = scheme.output_address(descriptor_size_ptr);
        let descriptor_version_address = scheme.output_address(descriptor_version_ptr);
        if buffer_size < map.len() * DESCRIPTOR_SIZE {
            (Err(Status::BufferTooSmall), b1)
        } else if last > u64::MAX || !scheme.spec_input_descriptor().spec_is_valid_range(
            map_buffer_ptr as int,
            last,
        ) {
            (fail, b1)
        } else if !aligned_pointer(map_buffer_ptr) || !aligned_pointer(key_ptr) || !aligned_pointer(
            descriptor_size_ptr,
        ) || !aligned_pointer(descriptor_version_ptr) {
            (fail, b1)
        } else if key_address is None || descriptor_size_address is None || descriptor_version_address is None {
            (fail, b1)
        } else {
            let written = descriptors_written(scheme, map, map_buffer_ptr, b1, map.len());
            if !written.0 {
                (fail, written.1)
            } else {
                trailer_written(
                    map.len(),
                    key,
                    bits_32,
                    size_address->0,
                    key_address->0,
                    descriptor_size_address->0,
                    descriptor_version_address->0,
                    written.1,
                )
            }
        }
    }
}

/// Writes descriptor `d` at `ptr` of the executable's address space, as
/// [`descriptor_step`] says.
fn write_descriptor<S: TranslationScheme>(scheme: &S, memory: &mut PhysicalBytes, d: MemoryDescriptor, ptr: u64) -> (ok:
    bool)
    requires
        scheme.valid(),
        ptr + 16 <= u64::MAX,
    ensures
        (ok, final(memory).bytes@) == descriptor_step(scheme, d, ptr, old(memory).bytes@),
{
    let s = scheme.translate(ptr);
    let c = scheme.translate(ptr + 8);
    let r = scheme.translate(ptr + 16);
    let (s, c, r) = match (s, c, r) {
        (Some((_, _, s)), Some((_, _, c)), Some((_, _, r))) => (s, c, r),
        _ => return false,
    };
    if !write_u64_at(memory, s, d.start) {
        return false;
    }
    if !write_u64_at(memory, c, d.count) {
        return false;
    }
    write_u32_at(memory, r, type_code(d.region_type))
}

/// Writes the descriptors of `map` one after another from `buffer`, stopping at the first
/// that fails, as [`descriptors_written`] says.
fn write_descriptors<S: TranslationScheme>(
    scheme: &S,
    memory: &mut PhysicalBytes,
    map: &[MemoryDescriptor],
    buffer: u64,
) -> (ok: bool)
    requires
        scheme.valid(),
        buffer + map@.len() * DESCRIPTOR_SIZE - 1 <= u64::MAX,
    ensures
        (ok, final(memory).bytes@) == descriptors_written(scheme, map@, buffer, old(memory).bytes@, map@.len()),
{
    let ghost start = memory.bytes@;
    let mut i: usize = 0;
    while i < map.len()
        invariant
            scheme.valid(),
            i <= map@.len(),
            start == old(memory).bytes@,
            buffer + map@.len() * DESCRIPTOR_SIZE - 1 <= u64::MAX,
            (true, memory.bytes@) == descriptors_written(scheme, map@, buffer, start, i as nat),
        decreases map.len() - i,
    {
        let ptr = buffer + (i as u64) * DESCRIPTOR_SIZE;
        if !write_descriptor(scheme, memory, map[i], ptr) {
            proof {
                lemma_written_stops(scheme, map@, buffer, start, (i + 1) as nat, map@.len());
            }
            return false;
        }
        i += 1;
    }
    true
}

/// Writes the map `map` with `key` into the buffer of the executable whose address space is
/// `scheme` and whose memory is `memory`, with the size word at `size_ptr` and the answers at
/// `key_ptr`, `descriptor_size_ptr` and `descriptor_version_ptr`; `bits_32` tells whether the
/// executable's size words are four bytes wide.
pub fn get_memory_map_func<S: TranslationScheme>(
    scheme: &S,
    memory: &mut PhysicalBytes,
    map: &[MemoryDescriptor],
    key: u64,
    bits_32: bool,
    size_ptr: u64,
    map_buffer_ptr: u64,
    key_ptr: u64,
    descriptor_size_ptr: u64,
    descriptor_version_ptr: u64,
) -> (result: Result<(), Status>)
    requires
        scheme.valid(),
        map@.len() * DESCRIPTOR_SIZE <= u64::MAX,
        bits_32 ==> map@.len() * DESCRIPTOR_SIZE <= u32::MAX,
    ensures
        (result, final(memory).bytes@) == memory_map_outcome(
            scheme,
            map@,
            key,
            bits_32,
            size_ptr,
            map_buffer_ptr,
            key_ptr,
            descriptor_size_ptr,
            descriptor_version_ptr,
            old(memory).bytes@,
        ),
{
    let fail = Err(Status::InvalidUsage);
    if size_ptr == 0 || size_ptr % 8 != 0 || map.len() == 0 {
        return fail;
    }
    let size_address = match scheme.translate(size_ptr) {
        Some((_, _, a)) => a,
        None => return fail,
    };
    let buffer_size = match read_word_at(memory, size_address, bits_32) {
        Some(v) => v,
        None => return fail,
    };
    let count = map.len() as u64;
    let written = write_word_at(memory, size_address, count, bits_32);
    assert(written);
    let total = count * DESCRIPTOR_SIZE;
    if buffer_size < total {
        return Err(Status::BufferTooSmall);
    }
    let last = if buffer_size == 0 {
        map_buffer_ptr
    } else {
        match map_buffer_ptr.checked_add(buffer_size - 1) {
            Some(last) => last,
            None => return fail,
        }
    };
    if !scheme.input_descriptor().is_valid_range(map_buffer_ptr, last) {
        return fail;
    }
    if map_buffer_ptr == 0 || map_buffer_ptr % 8 != 0 || key_ptr == 0 || key_ptr % 8 != 0 || descriptor_size_ptr
        == 0 || descriptor_size_ptr % 8 != 0 || descriptor_version_ptr == 0 || descriptor_version_ptr % 8 != 0 {
        return fail;
    }
    let key_address = match scheme.translate(key_ptr) {
        Some((_, _, a)) => a,
        None => return fail,
    };
    let descriptor_size_address = match scheme.translate(descriptor_size_ptr) {
        Some((_, _, a)) => a,
        None => return fail,
    };
    let descriptor_version_address = match scheme.translate(descriptor_version_ptr) {
        Some((_, _, a)) => a,
        None => return fail,
    };
    if !write_descriptors(scheme, memory, map, map_buffer_ptr) {
        return fail;
    }
    if !write_word_at(memory, size_address, total, bits_32) {
        return fail;
    }
    if !write_u64_at(memory, key_address, key) {
        return fail;
    }
    if !write_word_at(memory, descriptor_size_address, DESCRIPTOR_SIZE, bits_32) {
        return fail;
    }
    if !write_u64_at(memory, descriptor_version_address, DESCRIPTOR_VERSION) {
        return fail;
    }
    Ok(())
}

/// Once a descriptor fails, the later ones write nothing.
proof fn lemma_written_stops<S: TranslationScheme>(
    scheme: &S,
    map: Seq<MemoryDescriptor>,
    buffer: u64,
    bytes: Seq<u8>,
    n: nat,
    m: nat,
)
    requires
        n <= m,
        !descriptors_written(scheme, map, buffer, bytes, n).0,
    ensures
        descriptors_written(scheme, map, buffer, bytes, m) == descriptors_written(scheme, map, buffer, bytes, n),
    decreases m - n,
{
    if n < m {
        lemma_written_stops(scheme, map, buffer, bytes, n, (m - 1) as nat);
    }
}

} // verus!
