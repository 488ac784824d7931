//! Computation of ELF relocations for `x86_32` and `x86_64` and their byte encoding.
use vstd::prelude::*;

use crate::elf::{lemma_byte_powers, lemma_value_bounds, read_uint, uint_at, Machine, MediumError, ParsedElf, ProgramHeader, SEGMENT_DYNAMIC};
use crate::layout::Layout;
use crate::paging::TranslationScheme;
use crate::physical_memory::{memory_byte, memory_written, PhysicalBytes};

verus! {

/// The `R_386_RELATIVE` and `R_X86_64_RELATIVE` relocation type.
pub const RELATIVE: u32 = 8;

/// Information required to properly handle a relocation entry.
#[derive(Clone, Copy, Debug, PartialEq, Eq, Structural)]
pub struct RelocationInfo {
    /// The type of relocation to perform.
    pub relocation_type: u32,
    /// The value stored for use in a relocation.
    pub addend: i64,
    /// The slide of the relocated executable.
    pub slide: u64,
}

/// The size and value of a resolved relocation.
#[derive(Clone, Copy, Debug, PartialEq, Eq, Structural)]
pub enum FinalizedRelocation {
    /// Write the given 16 bits at the address.
    Bits16(u16),
    /// Write the given 32 bits at the address.
    Bits32(u32),
    /// Write the given 64 bits at the address.
    Bits64(u64),
}

/// Various errors that can occur when computing a relocation.
#[derive(Clone, Copy, Debug, PartialEq, Eq, Structural)]
pub enum RelocationError {
    /// An error occurred while converting values.
    ConversionError,
    /// The relocation type is not supported.
    UnsupportedRelocationType {
        /// The relocation type that is not supported.
        relocation_type: u32,
    },
    /// Relocations are not supported for this [`Machine`].
    UnsupportedMachine {
        /// The [`Machine`] for which relocation are not supported.
        machine: Machine,
    },
}

/// The relocation that [`relocate`] computes for `machine` and `info`.
pub open spec fn relocation_result(machine: Machine, info: RelocationInfo) -> Result<FinalizedRelocation, RelocationError> {
    if machine == Machine::spec_intel_386() {
        if info.relocation_type == RELATIVE {
            if info.slide > u32::MAX || info.addend < i32::MIN || info.addend > i32::MAX {
                Err(RelocationError::ConversionError)
            } else {
                Ok(FinalizedRelocation::Bits32(((info.slide + info.addend) % 0x1_0000_0000) as u32))
            }
        } else {
            Err(RelocationError::UnsupportedRelocationType { relocation_type: info.relocation_type })
        }
    } else if machine == Machine::spec_x86_64() {
        if info.relocation_type == RELATIVE {
            Ok(FinalizedRelocation::Bits64(((info.slide + info.addend) % 0x1_0000_0000_0000_0000) as u64))
        } else {
            Err(RelocationError::UnsupportedRelocationType { relocation_type: info.relocation_type })
        }
    } else {
        Err(RelocationError::UnsupportedMachine { machine })
    }
}

/// A relative relocation for `x86_64` gives the 64-bit value congruent to slide plus addend
/// modulo 2^64, whatever the addend's sign; one for `x86_32` gives the 32-bit value congruent
/// to it modulo 2^32 where the slide and the addend fit in 32 bits, and a conversion error
/// otherwise.
pub open spec fn relative_relocation_adds(
    machine: Machine,
    info: RelocationInfo,
    result: Result<FinalizedRelocation, RelocationError>,
) -> bool {
    &&& machine.0 == Machine::X86_64 && info.relocation_type == RELATIVE ==> {
        &&& result matches Ok(FinalizedRelocation::Bits64(v))
        &&& (v - (info.slide + info.addend)) % 0x1_0000_0000_0000_0000int == 0
    }
    &&& machine.0 == Machine::INTEL_386 && info.relocation_type == RELATIVE ==> if info.slide <= u32::MAX && i32::MIN
        <= info.addend <= i32::MAX {
        &&& result matches Ok(FinalizedRelocation::Bits32(v))
        &&& (v - (info.slide + info.addend)) % 0x1_0000_0000int == 0
    } else {
        result == Err::<FinalizedRelocation, RelocationError>(RelocationError::ConversionError)
    }
}

/// Only relative relocations, and only for `x86_32` and `x86_64`, are computed: any other
/// machine is refused as unsupported, and any other relocation type for these machines too.
pub open spec fn other_relocations_refused(
    machine: Machine,
    info: RelocationInfo,
    result: Result<FinalizedRelocation, RelocationError>,
) -> bool {
    &&& machine.0 != Machine::X86_64 && machine.0 != Machine::INTEL_386 ==> result == Err::<
        FinalizedRelocation,
        RelocationError,
    >(RelocationError::UnsupportedMachine { machine })
    &&& (machine.0 == Machine::X86_64 || machine.0 == Machine::INTEL_386) && info.relocation_type != RELATIVE ==> result
        == Err::<FinalizedRelocation, RelocationError>(
        RelocationError::UnsupportedRelocationType { relocation_type: info.relocation_type },
    )
}

/// Relative relocations add the slide to the addend, modulo the width of the value written;
/// every other relocation, and every other machine, is refused.
pub proof fn law_relative_relocation_adds(machine: Machine, info: RelocationInfo)
    ensures
        relative_relocation_adds(machine, info, relocation_result(machine, info)),
        other_relocations_refused(machine, info, relocation_result(machine, info)),
{
    let m: int = 0x1_0000_0000_0000_0000;
    let x: int = info.slide + info.addend;
    assert(((x % m) - x) % m == 0) by {
        vstd::arithmetic::div_mod::lemma_fundamental_div_mod(x, m);
        vstd::arithmetic::div_mod::lemma_mod_multiples_basic(-(x / m), m);
    }
    let n: int = 0x1_0000_0000;
    assert(((x % n) - x) % n == 0) by {
        vstd::arithmetic::div_mod::lemma_fundamental_div_mod(x, n);
        vstd::arithmetic::div_mod::lemma_mod_multiples_basic(-(x / n), n);
    }
}

/// Handles the ELF relocation types on `x86_32` and `x86_64`.
///
/// A relative relocation adds the addend to the slide, wrapping around the width of the
/// written value.
pub fn relocate(machine: Machine, info: &RelocationInfo) -> (result: Result<FinalizedRelocation, RelocationError>)
    ensures
        result == relocation_result(machine, *info),
        relative_relocation_adds(machine, *info, result),
        other_relocations_refused(machine, *info, result),
{
    proof {
        law_relative_relocation_adds(machine, *info);
    }
    if machine.0 == Machine::INTEL_386 {
        if info.relocation_type == RELATIVE {
            if info.slide > u32::MAX as u64 {
                return Err(RelocationError::ConversionError);
            }
            if info.addend < i32::MIN as i64 || info.addend > i32::MAX as i64 {
                return Err(RelocationError::ConversionError);
            }
            let slide = info.slide as u32;
            let addend = info.addend as i32;
            let value = slide.wrapping_add_signed(addend);
            Ok(FinalizedRelocation::Bits32(value))
        } else {
            Err(RelocationError::UnsupportedRelocationType { relocation_type: info.relocation_type })
        }
    } else if machine.0 == Machine::X86_64 {
        if info.relocation_type == RELATIVE {
            Ok(FinalizedRelocation::Bits64(info.slide.wrapping_add_signed(info.addend)))
        } else {
            Err(RelocationError::UnsupportedRelocationType { relocation_type: info.relocation_type })
        }
    } else {
        Err(RelocationError::UnsupportedMachine { machine })
    }
}

/// Byte `i` (counting from the least significant) of `value`.
pub open spec fn byte_of(value: int, i: int) -> u8 {
    ((value / vstd::arithmetic::power::pow(256, i as nat)) % 256) as u8
}

impl FinalizedRelocation {
    /// The number of bytes that the relocation writes.
    pub open spec fn spec_size(self) -> int {
        match self {
            FinalizedRelocation::Bits16(_) => 2,
            FinalizedRelocation::Bits32(_) => 4,
            FinalizedRelocation::Bits64(_) => 8,
        }
    }

    /// The value that the relocation writes.
    pub open spec fn spec_value(self) -> int {
        match self {
            FinalizedRelocation::Bits16(v) => v as int,
            FinalizedRelocation::Bits32(v) => v as int,
            FinalizedRelocation::Bits64(v) => v as int,
        }
    }

    /// Returns the bytes to write for this relocation, least significant byte first when
    /// `big_endian` is `false`, most significant byte first otherwise.
    pub fn to_bytes(self, big_endian: bool) -> (bytes: Vec<u8>)
        ensures
            bytes@.len() == self.spec_size(),
            forall|i: int| 0 <= i < bytes@.len() ==> #[trigger] bytes@[i] == if big_endian {
                byte_of(self.spec_value(), self.spec_size() - 1 - i)
            } else {
                byte_of(self.spec_value(), i)
            },
    {
        let (value, size): (u64, usize) = match self {
            FinalizedRelocation::Bits16(v) => (v as u64, 2),
            FinalizedRelocation::Bits32(v) => (v as u64, 4),
            FinalizedRelocation::Bits64(v) => (v, 8),
        };
        let mut little: Vec<u8> = Vec::new();
        let mut rest = value;
        proof {
            vstd::arithmetic::power::lemma_pow0(256);
        }
        let mut i: usize = 0;
        while i < size
            invariant
                i <= size,
                size == self.spec_size(),
                value == self.spec_value(),
                little@.len() == i,
                rest == (value as int) / vstd::arithmetic::power::pow(256, i as nat),
                forall|k: int| 0 <= k < i ==> #[trigger] little@[k] == byte_of(value as int, k),
            decreases size - i,
        {
            proof {
                vstd::arithmetic::power::lemma_pow_positive(256, i as nat);
                vstd::arithmetic::power::lemma_pow1(256);
                vstd::arithmetic::power::lemma_pow_adds(256, i as nat, 1);
                vstd::arithmetic::div_mod::lemma_div_denominator(value as int, vstd::arithmetic::power::pow(256, i as nat), 256);
            }
            little.push((rest % 256) as u8);
            rest = rest / 256;
            i += 1;
        }
        if !big_endian {
            return little;
        }
        let mut big: Vec<u8> = Vec::new();
        let mut j: usize = 0;
        while j < size
            invariant
                j <= size,
                size == little@.len(),
                big@.len() == j,
                forall|k: int| 0 <= k < j ==> #[trigger] big@[k] == little@[size - 1 - k],
            decreases size - j,
        {
            big.push(little[size - 1 - j]);
            j += 1;
        }
        big
    }
}


/// The tag that ends a dynamic table.
pub const DT_NULL: u64 = 0;
/// The tag of the address of the `RELA` relocation table.
pub const DT_RELA: u64 = 7;
/// The tag of the size, in bytes, of the `RELA` relocation table.
pub const DT_RELASZ: u64 = 8;
/// The tag of the size, in bytes, of a `RELA` relocation entry.
pub const DT_RELAENT: u64 = 9;
/// The tag of the address of the `REL` relocation table.
pub const DT_REL: u64 = 17;
/// The tag of the size, in bytes, of the `REL` relocation table.
pub const DT_RELSZ: u64 = 18;
/// The tag of the size, in bytes, of a `REL` relocation entry.
pub const DT_RELENT: u64 = 19;

/// The relocation table descriptors that a dynamic table holds; a later entry with the same
/// tag replaces an earlier one.
#[derive(Clone, Copy, Debug, PartialEq, Eq)]
pub struct DynamicInfo {
    /// The address of the `REL` table.
    pub rel_table_offset: Option<u64>,
    /// The size of the `REL` table.
    pub rel_table_size: Option<u64>,
    /// The size of a `REL` entry.
    pub rel_entry_size: Option<u64>,
    /// The address of the `RELA` table.
    pub rela_table_offset: Option<u64>,
    /// The size of the `RELA` table.
    pub rela_table_size: Option<u64>,
    /// The size of a `RELA` entry.
    pub rela_entry_size: Option<u64>,
}

/// A [`DynamicInfo`] with no descriptor.
pub open spec fn empty_dynamic_info() -> DynamicInfo {
    DynamicInfo {
        rel_table_offset: None,
        rel_table_size: None,
        rel_entry_size: None,
        rela_table_offset: None,
        rela_table_size: None,
        rela_entry_size: None,
    }
}

/// The size of a dynamic table entry.
pub open spec fn dynamic_entry_size(class_64: bool) -> nat {
    if class_64 { 16 } else { 8 }
}

/// The size of each of the two fields of a dynamic table entry.
pub open spec fn dynamic_field_size(class_64: bool) -> nat {
    if class_64 { 8 } else { 4 }
}

/// The tag of dynamic table entry `j`.
pub open spec fn dynamic_tag(data: Seq<u8>, class_64: bool, be: bool, j: int) -> nat {
    uint_at(data, j * dynamic_entry_size(class_64), dynamic_field_size(class_64), be)
}

/// The value of dynamic table entry `j`.
pub open spec fn dynamic_value(data: Seq<u8>, class_64: bool, be: bool, j: int) -> nat {
    uint_at(data, j * dynamic_entry_size(class_64) + dynamic_field_size(class_64), dynamic_field_size(class_64), be)
}

/// `info` once an entry with `tag` and `value` is read.
pub open spec fn dynamic_update(info: DynamicInfo, tag: nat, value: u64) -> DynamicInfo {
    if tag == DT_REL {
        DynamicInfo { rel_table_offset: Some(value), ..info }
    } else if tag == DT_RELSZ {
        DynamicInfo { rel_table_size: Some(value), ..info }
    } else if tag == DT_RELENT {
        DynamicInfo { rel_entry_size: Some(value), ..info }
    } else if tag == DT_RELA {
        DynamicInfo { rela_table_offset: Some(value), ..info }
    } else if tag == DT_RELASZ {
        DynamicInfo { rela_table_size: Some(value), ..info }
    } else if tag == DT_RELAENT {
        DynamicInfo { rela_entry_size: Some(value), ..info }
    } else {
        info
    }
}

/// The descriptors read from the first `k` entries, and whether a `DT_NULL` entry ended the
/// table among them.
pub open spec fn dynamic_scan(data: Seq<u8>, class_64: bool, be: bool, k: nat) -> (DynamicInfo, bool)
    decreases k,
{
    if k == 0 {
        (empty_dynamic_info(), false)
    } else {
        let (info, ended) = dynamic_scan(data, class_64, be, (k - 1) as nat);
        if ended {
            (info, true)
        } else if dynamic_tag(data, class_64, be, k - 1) == DT_NULL {
            (info, true)
        } else {
            (
                dynamic_update(
                    info,
                    dynamic_tag(data, class_64, be, k - 1),
                    dynamic_value(data, class_64, be, k - 1) as u64,
                ),
                false,
            )
        }
    }
}

/// The descriptors that the dynamic table `data` holds, read up to its end or its first
/// `DT_NULL` entry.
pub open spec fn dynamic_info(data: Seq<u8>, class_64: bool, be: bool) -> DynamicInfo {
    dynamic_scan(data, class_64, be, data.len() / dynamic_entry_size(class_64)).0
}

/// Once the table has ended, further entries change nothing.
proof fn lemma_dynamic_scan_ended(data: Seq<u8>, class_64: bool, be: bool, j: nat, k: nat)
    requires
        j <= k,
        dynamic_scan(data, class_64, be, j).1,
    ensures
        dynamic_scan(data, class_64, be, k) == dynamic_scan(data, class_64, be, j),
    decreases k - j,
{
    if j < k {
        lemma_dynamic_scan_ended(data, class_64, be, j, (k - 1) as nat);
    }
}

/// Reads the relocation table descriptors of the dynamic table `data`.
pub fn scan_dynamic(data: &[u8], class_64: bool, big_endian: bool) -> (info: DynamicInfo)
    ensures
        info == dynamic_info(data@, class_64, big_endian),
{
    let entry_size: usize = if class_64 { 16 } else { 8 };
    let field_size: usize = if class_64 { 8 } else { 4 };
    let len = data.len();
    let count = len / entry_size;
    proof {
        vstd::arithmetic::div_mod::lemma_fundamental_div_mod(data@.len() as int, entry_size as int);
        vstd::arithmetic::div_mod::lemma_mod_pos_bound(data@.len() as int, entry_size as int);
    }
    let mut info = DynamicInfo {
        rel_table_offset: None,
        rel_table_size: None,
        rel_entry_size: None,
        rela_table_offset: None,
        rela_table_size: None,
        rela_entry_size: None,
    };
    let mut j: usize = 0;
    let mut ended = false;
    while j < count && !ended
        invariant
            entry_size == dynamic_entry_size(class_64),
            field_size == dynamic_field_size(class_64),
            count == data@.len() / (entry_size as nat),
            count * entry_size <= data@.len(),
            len == data@.len(),
            j <= count,
            dynamic_scan(data@, class_64, big_endian, j as nat) == (info, ended),
        decreases count - j,
    {
        assert((j + 1) * entry_size <= count * entry_size) by (nonlinear_arith)
            requires j < count, entry_size > 0;
        assert(j * entry_size + entry_size == (j + 1) * entry_size) by (nonlinear_arith);
        assert(j * entry_size + entry_size <= data@.len());
        let base = j * entry_size;
        let tag = read_uint(data, base, field_size, big_endian);
        let value = read_uint(data, base + field_size, field_size, big_endian);
        if tag == DT_NULL {
            ended = true;
        } else if tag == DT_REL {
            info.rel_table_offset = Some(value);
        } else if tag == DT_RELSZ {
            info.rel_table_size = Some(value);
        } else if tag == DT_RELENT {
            info.rel_entry_size = Some(value);
        } else if tag == DT_RELA {
            info.rela_table_offset = Some(value);
        } else if tag == DT_RELASZ {
            info.rela_table_size = Some(value);
        } else if tag == DT_RELAENT {
            info.rela_entry_size = Some(value);
        }
        j += 1;
    }
    proof {
        if ended {
            lemma_dynamic_scan_ended(data@, class_64, big_endian, j as nat, count as nat);
        }
    }
    info
}


/// The number of bytes of a `RELA` entry that the loader reads.
pub open spec fn expected_rela_size(class_64: bool) -> u64 {
    if class_64 { 24 } else { 12 }
}

/// The two's complement value of the 64-bit pattern `v`.
pub open spec fn signed_64(v: nat) -> int {
    if v < 0x8000_0000_0000_0000 { v as int } else { v - 0x1_0000_0000_0000_0000 }
}

/// The two's complement value of the 32-bit pattern `v`.
pub open spec fn signed_32(v: nat) -> int {
    if v < 0x8000_0000 { v as int } else { v - 0x1_0000_0000 }
}

/// The offset of the location that the `RELA` entry `b` relocates.
pub open spec fn rela_offset(b: Seq<u8>, class_64: bool, be: bool) -> nat {
    if class_64 { uint_at(b, 0, 8, be) } else { uint_at(b, 0, 4, be) }
}

/// The relocation type of the `RELA` entry `b`: the low 32 bits of its info field in a 64-bit
/// file, the low 8 bits in a 32-bit file.
pub open spec fn rela_type(b: Seq<u8>, class_64: bool, be: bool) -> u32 {
    if class_64 {
        (uint_at(b, 8, 8, be) % 0x1_0000_0000) as u32
    } else {
        (uint_at(b, 4, 4, be) % 0x100) as u32
    }
}

/// The signed addend of the `RELA` entry `b`.
pub open spec fn rela_addend(b: Seq<u8>, class_64: bool, be: bool) -> i64 {
    (if class_64 { signed_64(uint_at(b, 16, 8, be)) } else { signed_32(uint_at(b, 8, 4, be)) }) as i64
}

/// Reads the offset, the relocation type and the addend of the `RELA` entry at the start of
/// `bytes`.
fn parse_rela(bytes: &[u8], class_64: bool, be: bool) -> (fields: (u64, u32, i64))
    requires
        bytes@.len() >= expected_rela_size(class_64),
    ensures
        fields == (rela_offset(bytes@, class_64, be) as u64, rela_type(bytes@, class_64, be), rela_addend(
            bytes@,
            class_64,
            be,
        )),
{
    proof {
        lemma_byte_powers();
        lemma_value_bounds(bytes@, 0, 4);
        lemma_value_bounds(bytes@, 4, 4);
        lemma_value_bounds(bytes@, 8, 4);
    }
    if class_64 {
        let offset = read_uint(bytes, 0, 8, be);
        let info = read_uint(bytes, 8, 8, be);
        let addend = read_uint(bytes, 16, 8, be);
        let signed = if addend < 0x8000_0000_0000_0000 {
            addend as i64
        } else {
            i64::MIN + ((addend - 0x8000_0000_0000_0000) as i64)
        };
        (offset, (info % 0x1_0000_0000) as u32, signed)
    } else {
        let offset = read_uint(bytes, 0, 4, be);
        let info = read_uint(bytes, 4, 4, be);
        let addend = read_uint(bytes, 8, 4, be);
        let signed = if addend < 0x8000_0000 {
            addend as i64
        } else {
            (addend as i64) - 0x1_0000_0000
        };
        (offset, (info % 0x100) as u32, signed)
    }
}

/// The bytes that the finalized relocation `f` writes in the given byte order.
pub open spec fn finalized_bytes(f: FinalizedRelocation, be: bool) -> Seq<u8> {
    Seq::new(
        f.spec_size() as nat,
        |i: int|
            if be {
                byte_of(f.spec_value(), f.spec_size() - 1 - i)
            } else {
                byte_of(f.spec_value(), i)
            },
    )
}

/// The `n` bytes read through `scheme` from `memory` at input address `address`, or `None` if
/// one of their addresses overflows or is not mapped.
pub open spec fn read_virtual<S: TranslationScheme>(scheme: &S, memory: Seq<u8>, address: u64, n: nat) -> Option<Seq<u8>>
    decreases n,
{
    if n == 0 {
        Some(Seq::empty())
    } else {
        match read_virtual(scheme, memory, address, (n - 1) as nat) {
            None => None,
            Some(prefix) => if address + (n - 1) > u64::MAX {
                None
            } else {
                match scheme.output_address((address + (n - 1)) as u64) {
                    None => None,
                    Some(output) => Some(prefix.push(memory_byte(memory, output))),
                }
            },
        }
    }
}

/// A successful read of `n` bytes gives `n` bytes.
proof fn lemma_read_virtual_len<S: TranslationScheme>(scheme: &S, memory: Seq<u8>, address: u64, n: nat)
    requires
        read_virtual(scheme, memory, address, n) is Some,
    ensures
        read_virtual(scheme, memory, address, n)->0.len() == n,
    decreases n,
{
    if n > 0 {
        lemma_read_virtual_len(scheme, memory, address, (n - 1) as nat);
    }
}

/// A failed read of a prefix fails for every longer read.
proof fn lemma_read_virtual_fails<S: TranslationScheme>(scheme: &S, memory: Seq<u8>, address: u64, j: nat, k: nat)
    requires
        j <= k,
        read_virtual(scheme, memory, address, j) is None,
    ensures
        read_virtual(scheme, memory, address, k) is None,
    decreases k - j,
{
    if j < k {
        lemma_read_virtual_fails(scheme, memory, address, j, (k - 1) as nat);
    }
}

/// Whether the first `k` bytes of `bytes` could all be written through `scheme` at input
/// address `address`, and the memory after the writes: the bytes are written in order and the
/// writing stops at the first address that overflows or is not mapped.
pub open spec fn write_virtual<S: TranslationScheme>(
    scheme: &S,
    memory: Seq<u8>,
    address: u64,
    bytes: Seq<u8>,
    k: nat,
) -> (bool, Seq<u8>)
    decreases k,
{
    if k == 0 {
        (true, memory)
    } else {
        let (ok, written) = write_virtual(scheme, memory, address, bytes, (k - 1) as nat);
        if !ok || address + (k - 1) > u64::MAX {
            (false, written)
        } else {
            match scheme.output_address((address + (k - 1)) as u64) {
                None => (false, written),
                Some(output) => (true, memory_written(written, output, bytes[k - 1])),
            }
        }
    }
}

/// Once a write has failed, further bytes change nothing.
proof fn lemma_write_virtual_stops<S: TranslationScheme>(
    scheme: &S,
    memory: Seq<u8>,
    address: u64,
    bytes: Seq<u8>,
    j: nat,
    k: nat,
)
    requires
        j <= k,
        !write_virtual(scheme, memory, address, bytes, j).0,
    ensures
        write_virtual(scheme, memory, address, bytes, k) == write_virtual(scheme, memory, address, bytes, j),
    decreases k - j,
{
    if j < k {
        lemma_write_virtual_stops(scheme, memory, address, bytes, j, (k - 1) as nat);
    }
}

/// Reads `count` bytes through `scheme` from `memory` at `virtual_address`.
fn read_bytes_from<S: TranslationScheme>(scheme: &S, memory: &PhysicalBytes, virtual_address: u64, count: u64) -> (bytes: Option<Vec<u8>>)
    requires
        scheme.valid(),
    ensures
        match read_virtual(scheme, memory.bytes@, virtual_address, count as nat) {
            Some(read) => bytes matches Some(b) && b@ == read,
            None => bytes is None,
        },
{
    let mut bytes: Vec<u8> = Vec::new();
    let mut index: u64 = 0;
    while index < count
        invariant
            scheme.valid(),
            index <= count,
            read_virtual(scheme, memory.bytes@, virtual_address, index as nat) == Some(bytes@),
        decreases count - index,
    {
        let address = match virtual_address.checked_add(index) {
            Some(address) => address,
            None => {
                proof {
                    lemma_read_virtual_fails(scheme, memory.bytes@, virtual_address, (index + 1) as nat, count as nat);
                }
                return None;
            },
        };
        match scheme.translate(address) {
            Some((_, _, physical_address)) => {
                bytes.push(memory.read_u8(physical_address));
            },
            None => {
                proof {
                    lemma_read_virtual_fails(scheme, memory.bytes@, virtual_address, (index + 1) as nat, count as nat);
                }
                return None;
            },
        }
        index += 1;
    }
    Some(bytes)
}

/// Writes `bytes` through `scheme` into `memory` at `virtual_address`, in order, and returns
/// `false` at the first address that overflows or is not mapped.
fn write_bytes_into<S: TranslationScheme>(scheme: &S, memory: &mut PhysicalBytes, virtual_address: u64, bytes: &[u8]) -> (ok: bool)
    requires
        scheme.valid(),
    ensures
        (ok, final(memory).bytes@) == write_virtual(scheme, old(memory).bytes@, virtual_address, bytes@, bytes@.len()),
{
    let mut index: usize = 0;
    while index < bytes.len()
        invariant
            scheme.valid(),
            index <= bytes@.len(),
            write_virtual(scheme, old(memory).bytes@, virtual_address, bytes@, index as nat) == (true, memory.bytes@),
        decreases bytes@.len() - index,
    {
        let address = match virtual_address.checked_add(index as u64) {
            Some(address) => address,
            None => {
                proof {
                    lemma_write_virtual_stops(scheme, old(memory).bytes@, virtual_address, bytes@, (index + 1) as nat, bytes@.len());
                }
                return false;
            },
        };
        match scheme.translate(address) {
            Some((_, _, physical_address)) => {
                memory.write_u8(physical_address, bytes[index]);
            },
            None => {
                proof {
                    lemma_write_virtual_stops(scheme, old(memory).bytes@, virtual_address, bytes@, (index + 1) as nat, bytes@.len());
                }
                return false;
            },
        }
        index += 1;
    }
    true
}


/// Various errors that can occur while handling relocations.
#[derive(Clone, Copy, Debug, PartialEq, Eq, Structural)]
pub enum ApplyRelocationsError {
    /// An error occurred while accessing the underlying medium.
    MediumError(MediumError),
    /// The relocation table offset for a `REL` table could not be located while other `REL`
    /// descriptor values could be located.
    MissingRelTableOffset,
    /// The relocation table size for a `REL` table could not be located while other `REL`
    /// descriptor values could be located.
    MissingRelTableSize,
    /// The relocation table entry size for a `REL` table could not be located while other `REL`
    /// descriptor values could be located.
    MissingRelEntrySize,
    /// The relocation table entry size is larger than an entry buffer.
    InvalidRelEntrySize,
    /// The relocation table offset for a `RELA` table could not be located while other `RELA`
    /// descriptor values could be located.
    MissingRelaTableOffset,
    /// The relocation table size for a `RELA` table could not be located while other `RELA`
    /// descriptor values could be located.
    MissingRelaTableSize,
    /// The relocation table entry size for a `RELA` table could not be located while other `RELA`
    /// descriptor values could be located.
    MissingRelaEntrySize,
    /// The relocation table entry size for a `RELA` table is too small.
    InvalidRelaEntrySize,
    /// The location of the relocation entry is not within the loaded ELF file.
    OutOfBoundsRelocationEntry,
    /// An error occurred when computing the relocation.
    RelocationError(RelocationError),
    /// The location of the relocation is not within the loaded ELF file.
    OutOfBoundsRelocation,
}

/// The largest `RELA` entry that the loader reads.
pub const MAX_RELA_ENTRY_SIZE: u64 = 128;

/// The result of applying the `RELA` entry with number `index` of the table at input address
/// `table`, and the memory afterwards.
pub open spec fn entry_outcome<S: TranslationScheme>(
    scheme: &S,
    machine: Machine,
    class_64: bool,
    be: bool,
    slide: u64,
    table: u64,
    entry_size: u64,
    index: nat,
    memory: Seq<u8>,
) -> (Result<(), ApplyRelocationsError>, Seq<u8>) {
    if entry_size > MAX_RELA_ENTRY_SIZE {
        (Err(ApplyRelocationsError::InvalidRelEntrySize), memory)
    } else if table + index * entry_size > u64::MAX {
        (Err(ApplyRelocationsError::OutOfBoundsRelocationEntry), memory)
    } else {
        match read_virtual(scheme, memory, (table + index * entry_size) as u64, expected_rela_size(class_64) as nat) {
            None => (Err(ApplyRelocationsError::OutOfBoundsRelocationEntry), memory),
            Some(entry) => {
                let info = RelocationInfo {
                    relocation_type: rela_type(entry, class_64, be),
                    addend: rela_addend(entry, class_64, be),
                    slide,
                };
                match relocation_result(machine, info) {
                    Err(error) => (Err(ApplyRelocationsError::RelocationError(error)), memory),
                    Ok(finalized) => if slide + rela_offset(entry, class_64, be) > u64::MAX {
                        (Err(ApplyRelocationsError::OutOfBoundsRelocation), memory)
                    } else {
                        let bytes = finalized_bytes(finalized, be);
                        let (ok, written) = write_virtual(
                            scheme,
                            memory,
                            (slide + rela_offset(entry, class_64, be)) as u64,
                            bytes,
                            bytes.len(),
                        );
                        if ok {
                            (Ok(()), written)
                        } else {
                            (Err(ApplyRelocationsError::OutOfBoundsRelocation), written)
                        }
                    },
                }
            },
        }
    }
}

/// The result of applying the first `k` entries of a `RELA` table in order, stopping at the
/// first error, and the memory afterwards.
pub open spec fn entries_outcome<S: TranslationScheme>(
    scheme: &S,
    machine: Machine,
    class_64: bool,
    be: bool,
    slide: u64,
    table: u64,
    entry_size: u64,
    k: nat,
    memory: Seq<u8>,
) -> (Result<(), ApplyRelocationsError>, Seq<u8>)
    decreases k,
{
    if k == 0 {
        (Ok(()), memory)
    } else {
        let (result, written) = entries_outcome(scheme, machine, class_64, be, slide, table, entry_size, (k - 1) as nat, memory);
        if result is Err {
            (result, written)
        } else {
            entry_outcome(scheme, machine, class_64, be, slide, table, entry_size, (k - 1) as nat, written)
        }
    }
}

/// Once an entry has failed, further entries change nothing.
proof fn lemma_entries_stop<S: TranslationScheme>(
    scheme: &S,
    machine: Machine,
    class_64: bool,
    be: bool,
    slide: u64,
    table: u64,
    entry_size: u64,
    j: nat,
    k: nat,
    memory: Seq<u8>,
)
    requires
        j <= k,
        entries_outcome(scheme, machine, class_64, be, slide, table, entry_size, j, memory).0 is Err,
    ensures
        entries_outcome(scheme, machine, class_64, be, slide, table, entry_size, k, memory)
            == entries_outcome(scheme, machine, class_64, be, slide, table, entry_size, j, memory),
    decreases k - j,
{
    if j < k {
        lemma_entries_stop(scheme, machine, class_64, be, slide, table, entry_size, j, (k - 1) as nat, memory);
    }
}

/// The result of applying the `RELA` table that `info` describes, and the memory afterwards.
pub open spec fn rela_outcome<S: TranslationScheme>(
    scheme: &S,
    machine: Machine,
    class_64: bool,
    be: bool,
    slide: u64,
    info: DynamicInfo,
    memory: Seq<u8>,
) -> (Result<(), ApplyRelocationsError>, Seq<u8>) {
    if info.rela_table_offset is None && info.rela_table_size is None && info.rela_entry_size is None {
        (Ok(()), memory)
    } else if info.rela_table_offset is None {
        (Err(ApplyRelocationsError::MissingRelaTableOffset), memory)
    } else if info.rela_table_size is None {
        (Err(ApplyRelocationsError::MissingRelaTableSize), memory)
    } else if info.rela_entry_size is None {
        (Err(ApplyRelocationsError::MissingRelaEntrySize), memory)
    } else {
        let offset = info.rela_table_offset->0;
        let size = info.rela_table_size->0;
        let entry_size = info.rela_entry_size->0;
        if entry_size < expected_rela_size(class_64) {
            (Err(ApplyRelocationsError::InvalidRelaEntrySize), memory)
        } else if slide + offset > u64::MAX {
            (Err(ApplyRelocationsError::OutOfBoundsRelocationEntry), memory)
        } else {
            entries_outcome(
                scheme,
                machine,
                class_64,
                be,
                slide,
                (slide + offset) as u64,
                entry_size,
                (size / entry_size) as nat,
                memory,
            )
        }
    }
}

/// The dynamic table holds a `REL` descriptor, whose handling is not implemented.
pub open spec fn has_rel(info: DynamicInfo) -> bool {
    info.rel_table_offset is Some || info.rel_table_size is Some || info.rel_entry_size is Some
}

/// The result of processing program header `h`, and the memory afterwards; `None` when its
/// dynamic table holds a `REL` descriptor.
pub open spec fn header_outcome<S: TranslationScheme>(
    scheme: &S,
    elf: &ParsedElf,
    blob: Seq<u8>,
    slide: u64,
    h: ProgramHeader,
    memory: Seq<u8>,
) -> Option<(Result<(), ApplyRelocationsError>, Seq<u8>)> {
    if h.segment_type != SEGMENT_DYNAMIC {
        Some((Ok(()), memory))
    } else if h.offset + h.file_size > blob.len() {
        Some((Err(ApplyRelocationsError::MediumError(MediumError::OutOfBounds)), memory))
    } else {
        let info = dynamic_info(blob.subrange(h.offset as int, h.offset + h.file_size), elf.class_64, elf.big_endian);
        if has_rel(info) {
            None
        } else {
            Some(rela_outcome(scheme, elf.machine, elf.class_64, elf.big_endian, slide, info, memory))
        }
    }
}

/// The result of processing the first `n` program headers in order, stopping at the first
/// error, and the memory afterwards; `None` when a `REL` table is reached.
pub open spec fn relocations_outcome<S: TranslationScheme>(
    scheme: &S,
    elf: &ParsedElf,
    blob: Seq<u8>,
    slide: u64,
    n: nat,
    memory: Seq<u8>,
) -> Option<(Result<(), ApplyRelocationsError>, Seq<u8>)>
    decreases n,
{
    if n == 0 {
        Some((Ok(()), memory))
    } else {
        match relocations_outcome(scheme, elf, blob, slide, (n - 1) as nat, memory) {
            None => None,
            Some((result, written)) => if result is Err {
                Some((result, written))
            } else {
                header_outcome(scheme, elf, blob, slide, elf.program_headers@[n - 1], written)
            },
        }
    }
}

/// Once a header has failed, further headers change nothing.
proof fn lemma_relocations_stop<S: TranslationScheme>(
    scheme: &S,
    elf: &ParsedElf,
    blob: Seq<u8>,
    slide: u64,
    j: nat,
    k: nat,
    memory: Seq<u8>,
)
    requires
        j <= k,
        relocations_outcome(scheme, elf, blob, slide, j, memory) matches Some((result, _)) && result is Err,
    ensures
        relocations_outcome(scheme, elf, blob, slide, k, memory) == relocations_outcome(scheme, elf, blob, slide, j, memory),
    decreases k - j,
{
    if j < k {
        lemma_relocations_stop(scheme, elf, blob, slide, j, (k - 1) as nat, memory);
    }
}

/// Applies the `RELA` entry with number `index` of the table at `table`.
fn apply_rela_entry<S: TranslationScheme>(
    scheme: &S,
    machine: Machine,
    class_64: bool,
    be: bool,
    slide: u64,
    table: u64,
    entry_size: u64,
    index: u64,
    memory: &mut PhysicalBytes,
) -> (result: Result<(), ApplyRelocationsError>)
    requires
        scheme.valid(),
    ensures
        (result, final(memory).bytes@) == entry_outcome(
            scheme, machine, class_64, be, slide, table, entry_size, index as nat, old(memory).bytes@),
{
    if entry_size > MAX_RELA_ENTRY_SIZE {
        return Err(ApplyRelocationsError::InvalidRelEntrySize);
    }
    let entry_offset = match index.checked_mul(entry_size) {
        Some(offset) => offset,
        None => return Err(ApplyRelocationsError::OutOfBoundsRelocationEntry),
    };
    let entry_address = match table.checked_add(entry_offset) {
        Some(address) => address,
        None => return Err(ApplyRelocationsError::OutOfBoundsRelocationEntry),
    };
    let expected: u64 = if class_64 { 24 } else { 12 };
    let entry = match read_bytes_from(scheme, memory, entry_address, expected) {
        Some(entry) => entry,
        None => return Err(ApplyRelocationsError::OutOfBoundsRelocationEntry),
    };
    proof {
        lemma_read_virtual_len(scheme, old(memory).bytes@, entry_address, expected as nat);
    }
    assert(expected == expected_rela_size(class_64));
    assert(entry_address == table + index * entry_size);
    assert(read_virtual(scheme, old(memory).bytes@, entry_address, expected as nat) == Some(entry@));
    let (offset, relocation_type, addend) = parse_rela(entry.as_slice(), class_64, be);
    let info = RelocationInfo { relocation_type, addend, slide };
    let finalized = match relocate(machine, &info) {
        Ok(finalized) => finalized,
        Err(error) => return Err(ApplyRelocationsError::RelocationError(error)),
    };
    let bytes = finalized.to_bytes(be);
    assert(bytes@ =~= finalized_bytes(finalized, be));
    let target = match slide.checked_add(offset) {
        Some(target) => target,
        None => return Err(ApplyRelocationsError::OutOfBoundsRelocation),
    };
    proof {
        lemma_byte_powers();
        lemma_value_bounds(entry@, 0, 8);
        lemma_value_bounds(entry@, 0, 4);
    }
    assert(relocation_result(machine, info) == Ok::<FinalizedRelocation, RelocationError>(finalized));
    assert(target == slide + rela_offset(entry@, class_64, be));
    let ghost before = memory.bytes@;
    let written = write_bytes_into(scheme, memory, target, bytes.as_slice());
    assert((written, memory.bytes@) == write_virtual(scheme, before, target, finalized_bytes(finalized, be),
        finalized_bytes(finalized, be).len()));
    assert(before == old(memory).bytes@);
    if written {
        Ok(())
    } else {
        Err(ApplyRelocationsError::OutOfBoundsRelocation)
    }
}

/// Applies the `RELA` table that `info` describes.
fn apply_rela_table<S: TranslationScheme>(
    scheme: &S,
    machine: Machine,
    class_64: bool,
    be: bool,
    slide: u64,
    info: DynamicInfo,
    memory: &mut PhysicalBytes,
) -> (result: Result<(), ApplyRelocationsError>)
    requires
        scheme.valid(),
    ensures
        (result, final(memory).bytes@) == rela_outcome(scheme, machine, class_64, be, slide, info, old(memory).bytes@),
{
    if info.rela_table_offset.is_none() && info.rela_table_size.is_none() && info.rela_entry_size.is_none() {
        return Ok(());
    }
    let table_offset = match info.rela_table_offset {
        Some(offset) => offset,
        None => return Err(ApplyRelocationsError::MissingRelaTableOffset),
    };
    let table_size = match info.rela_table_size {
        Some(size) => size,
        None => return Err(ApplyRelocationsError::MissingRelaTableSize),
    };
    let entry_size = match info.rela_entry_size {
        Some(size) => size,
        None => return Err(ApplyRelocationsError::MissingRelaEntrySize),
    };
    let expected: u64 = if class_64 { 24 } else { 12 };
    if entry_size < expected {
        return Err(ApplyRelocationsError::InvalidRelaEntrySize);
    }
    let count = table_size / entry_size;
    let table = match slide.checked_add(table_offset) {
        Some(table) => table,
        None => return Err(ApplyRelocationsError::OutOfBoundsRelocationEntry),
    };
    let mut index: u64 = 0;
    while index < count
        invariant
            scheme.valid(),
            index <= count,
            info.rela_table_offset == Some(table_offset),
            info.rela_table_size == Some(table_size),
            info.rela_entry_size == Some(entry_size),
            entry_size >= expected_rela_size(class_64),
            count == table_size / entry_size,
            table == slide + table_offset,
            entries_outcome(scheme, machine, class_64, be, slide, table, entry_size, index as nat, old(memory).bytes@)
                == (Ok::<(), ApplyRelocationsError>(()), memory.bytes@),
        decreases count - index,
    {
        let result = apply_rela_entry(scheme, machine, class_64, be, slide, table, entry_size, index, memory);
        assert(entries_outcome(scheme, machine, class_64, be, slide, table, entry_size, (index + 1) as nat, old(memory).bytes@)
            == (result, memory.bytes@));
        if result.is_err() {
            proof {
                lemma_entries_stop(scheme, machine, class_64, be, slide, table, entry_size, (index + 1) as nat, count as nat, old(memory).bytes@);
            }
            return result;
        }
        index += 1;
    }
    Ok(())
}

/// Applies the relocations of the loaded executable: for each dynamic segment of `elf`, whose
/// bytes lie in `blob`, the entries of its `RELA` table are read through `scheme` from
/// `memory`, resolved for `layout.slide` and written back through `scheme` in the file's byte
/// order.
///
/// Where an address computation overflows, the entry or the relocation is reported out of
/// bounds.
#[verifier::rlimit(30)]
#[verifier::spinoff_prover]
pub fn apply_relocations<S: TranslationScheme>(
    elf: &ParsedElf,
    blob: &[u8],
    layout: &Layout,
    scheme: &S,
    memory: &mut PhysicalBytes,
) -> (result: Result<(), ApplyRelocationsError>)
    requires
        scheme.valid(),
        relocations_outcome(scheme, elf, blob@, layout.slide, elf.program_headers@.len(), old(memory).bytes@) is Some,
    ensures
        relocations_outcome(scheme, elf, blob@, layout.slide, elf.program_headers@.len(), old(memory).bytes@)
            == Some((result, final(memory).bytes@)),
{
    let blob_len = blob.len();
    assert(blob@.len() == blob_len);
    let mut index: usize = 0;
    while index < elf.program_headers.len()
        invariant
            blob@.len() == blob_len,
            scheme.valid(),
            index <= elf.program_headers@.len(),
            relocations_outcome(scheme, elf, blob@, layout.slide, elf.program_headers@.len(), old(memory).bytes@) is Some,
            relocations_outcome(scheme, elf, blob@, layout.slide, index as nat, old(memory).bytes@)
                == Some((Ok::<(), ApplyRelocationsError>(()), memory.bytes@)),
        decreases elf.program_headers@.len() - index,
    {
        let header = elf.program_headers[index];
        if header.segment_type == SEGMENT_DYNAMIC {
            let end = match header.offset.checked_add(header.file_size) {
                Some(end) => end,
                None => {
                    proof {
                        assert(relocations_outcome(scheme, elf, blob@, layout.slide, (index + 1) as nat, old(memory).bytes@)
                            == Some((Err::<(), ApplyRelocationsError>(ApplyRelocationsError::MediumError(MediumError::OutOfBounds)), memory.bytes@)));
                        lemma_relocations_stop(scheme, elf, blob@, layout.slide, (index + 1) as nat,
                            elf.program_headers@.len(), old(memory).bytes@);
                    }
                    return Err(ApplyRelocationsError::MediumError(MediumError::OutOfBounds));
                },
            };
            if end > blob.len() as u64 {
                proof {
                    assert(relocations_outcome(scheme, elf, blob@, layout.slide, (index + 1) as nat, old(memory).bytes@)
                        == Some((Err::<(), ApplyRelocationsError>(ApplyRelocationsError::MediumError(MediumError::OutOfBounds)), memory.bytes@)));
                    lemma_relocations_stop(scheme, elf, blob@, layout.slide, (index + 1) as nat,
                        elf.program_headers@.len(), old(memory).bytes@);
                }
                return Err(ApplyRelocationsError::MediumError(MediumError::OutOfBounds));
            }
            let data = slice_range(blob, header.offset as usize, end as usize);
            let info = scan_dynamic(data, elf.class_64, elf.big_endian);
            proof {
                if has_rel(info) {
                    lemma_relocations_none(scheme, elf, blob@, layout.slide, (index + 1) as nat,
                        elf.program_headers@.len(), old(memory).bytes@);
                }
            }
            let result = apply_rela_table(scheme, elf.machine, elf.class_64, elf.big_endian, layout.slide, info, memory);
            if result.is_err() {
                proof {
                    lemma_relocations_stop(scheme, elf, blob@, layout.slide, (index + 1) as nat,
                        elf.program_headers@.len(), old(memory).bytes@);
                }
                return result;
            }
        }
        index += 1;
    }
    Ok(())
}

/// Once a `REL` table has been reached, the outcome stays undefined.
proof fn lemma_relocations_none<S: TranslationScheme>(
    scheme: &S,
    elf: &ParsedElf,
    blob: Seq<u8>,
    slide: u64,
    j: nat,
    k: nat,
    memory: Seq<u8>,
)
    requires
        j <= k,
        relocations_outcome(scheme, elf, blob, slide, j, memory) is None,
    ensures
        relocations_outcome(scheme, elf, blob, slide, k, memory) is None,
    decreases k - j,
{
    if j < k {
        lemma_relocations_none(scheme, elf, blob, slide, j, (k - 1) as nat, memory);
    }
}

/// Returns the bytes of `bytes` from `start` up to `end`.
pub(crate) fn slice_range(bytes: &[u8], start: usize, end: usize) -> (range: &[u8])
    requires
        start <= end <= bytes@.len(),
    ensures
        range@ == bytes@.subrange(start as int, end as int),
{
    let (front, _) = bytes.split_at(end);
    let (_, range) = front.split_at(start);
    range
}


/// A dynamic segment of `elf`, within `blob`, holds a `REL` descriptor.
pub open spec fn uses_rel_table(elf: &ParsedElf, blob: Seq<u8>) -> bool {
    exists|i: int|
        0 <= i < elf.program_headers@.len() && #[trigger] elf.program_headers@[i].segment_type == SEGMENT_DYNAMIC
            && elf.program_headers@[i].offset + elf.program_headers@[i].file_size <= blob.len() && has_rel(
            dynamic_info(
                blob.subrange(
                    elf.program_headers@[i].offset as int,
                    elf.program_headers@[i].offset + elf.program_headers@[i].file_size,
                ),
                elf.class_64,
                elf.big_endian,
            ),
        )
}

/// Without `REL` descriptors, applying the relocations always has an outcome.
pub proof fn lemma_outcome_without_rel<S: TranslationScheme>(
    scheme: &S,
    elf: &ParsedElf,
    blob: Seq<u8>,
    slide: u64,
    n: nat,
    memory: Seq<u8>,
)
    requires
        n <= elf.program_headers@.len(),
        !uses_rel_table(elf, blob),
    ensures
        relocations_outcome(scheme, elf, blob, slide, n, memory) is Some,
    decreases n,
{
    if n > 0 {
        lemma_outcome_without_rel(scheme, elf, blob, slide, (n - 1) as nat, memory);
        let h = elf.program_headers@[n - 1];
        assert(h.segment_type == SEGMENT_DYNAMIC && h.offset + h.file_size <= blob.len() ==> !has_rel(
            dynamic_info(blob.subrange(h.offset as int, h.offset + h.file_size), elf.class_64, elf.big_endian),
        ));
    }
}

/// Returns `true` if a dynamic segment of `elf`, within `blob`, holds a `REL` descriptor, whose
/// handling is not implemented.
pub fn has_rel_table(elf: &ParsedElf, blob: &[u8]) -> (result: bool)
    ensures
        result == uses_rel_table(elf, blob@),
{
    let blob_len = blob.len();
    let mut index: usize = 0;
    while index < elf.program_headers.len()
        invariant
            blob@.len() == blob_len,
            index <= elf.program_headers@.len(),
            forall|i: int|
                0 <= i < index ==> !(#[trigger] elf.program_headers@[i].segment_type == SEGMENT_DYNAMIC
                    && elf.program_headers@[i].offset + elf.program_headers@[i].file_size <= blob@.len()
                    && has_rel(
                    dynamic_info(
                        blob@.subrange(
                            elf.program_headers@[i].offset as int,
                            elf.program_headers@[i].offset + elf.program_headers@[i].file_size,
                        ),
                        elf.class_64,
                        elf.big_endian,
                    ),
                )),
        decreases elf.program_headers@.len() - index,
    {
        let header = elf.program_headers[index];
        if header.segment_type == SEGMENT_DYNAMIC {
            if let Some(end) = header.offset.checked_add(header.file_size) {
                if end <= blob_len as u64 {
                    let data = slice_range(blob, header.offset as usize, end as usize);
                    let info = scan_dynamic(data, elf.class_64, elf.big_endian);
                    if info.rel_table_offset.is_some() || info.rel_table_size.is_some() || info.rel_entry_size.is_some() {
                        return true;
                    }
                }
            }
        }
        index += 1;
    }
    false
}

} // verus!
