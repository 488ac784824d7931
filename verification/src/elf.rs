//! ELF identification values used by the loader.
use vstd::prelude::*;

verus! {

/// The machine architecture that an ELF file targets.
#[derive(Clone, Copy, Debug, PartialEq, Eq, Structural)]
pub struct Machine(pub u16);

impl Machine {
    /// Intel 80386.
    pub const INTEL_386: u16 = 3;
    /// AMD x86-64.
    pub const X86_64: u16 = 62;
    /// ARM 64-bit.
    pub const AARCH64: u16 = 183;

    /// Intel 80386.
    pub open spec fn spec_intel_386() -> Machine {
        Machine(3)
    }

    /// AMD x86-64.
    pub open spec fn spec_x86_64() -> Machine {
        Machine(62)
    }

    /// ARM 64-bit.
    pub open spec fn spec_aarch64() -> Machine {
        Machine(183)
    }
}

} // verus!
verus! {

/// The value of the `n` bytes at `offset`, least significant byte first.
pub open spec fn le_value(bytes: Seq<u8>, offset: int, n: nat) -> nat
    decreases n,
{
    if n == 0 {
        0
    } else {
        bytes[offset] as nat + 256 * le_value(bytes, offset + 1, (n - 1) as nat)
    }
}

/// The value of the `n` bytes at `offset`, most significant byte first.
pub open spec fn be_value(bytes: Seq<u8>, offset: int, n: nat) -> nat
    decreases n,
{
    if n == 0 {
        0
    } else {
        be_value(bytes, offset, (n - 1) as nat) * 256 + bytes[offset + n - 1] as nat
    }
}

/// The value of the `n` bytes at `offset` in the given byte order.
pub open spec fn uint_at(bytes: Seq<u8>, offset: int, n: nat, big_endian: bool) -> nat {
    if big_endian {
        be_value(bytes, offset, n)
    } else {
        le_value(bytes, offset, n)
    }
}

/// `256^n`.
pub open spec fn byte_power(n: nat) -> nat
    decreases n,
{
    if n == 0 {
        1
    } else {
        256 * byte_power((n - 1) as nat)
    }
}

/// `n` bytes hold a value below `256^n`.
pub proof fn lemma_value_bounds(bytes: Seq<u8>, offset: int, n: nat)
    ensures
        le_value(bytes, offset, n) < byte_power(n),
        be_value(bytes, offset, n) < byte_power(n),
    decreases n,
{
    if n > 0 {
        lemma_value_bounds(bytes, offset + 1, (n - 1) as nat);
        lemma_value_bounds(bytes, offset, (n - 1) as nat);
        let b = bytes[offset + n - 1] as nat;
        let v = be_value(bytes, offset, (n - 1) as nat);
        assert(v * 256 + b < byte_power(n)) by (nonlinear_arith)
            requires
                v < byte_power((n - 1) as nat),
                b < 256,
                byte_power(n) == 256 * byte_power((n - 1) as nat),
        ;
    }
}

/// `256^n` for the widths that the reader handles.
pub proof fn lemma_byte_powers()
    ensures
        byte_power(0) == 1,
        byte_power(1) == 0x100,
        byte_power(2) == 0x1_0000,
        byte_power(3) == 0x100_0000,
        byte_power(4) == 0x1_0000_0000,
        byte_power(5) == 0x100_0000_0000,
        byte_power(6) == 0x1_0000_0000_0000,
        byte_power(7) == 0x100_0000_0000_0000,
        byte_power(8) == 0x1_0000_0000_0000_0000,
{
    reveal_with_fuel(byte_power, 9);
}

/// Reads the unsigned integer of `size` bytes at `offset` in the given byte order.
pub fn read_uint(bytes: &[u8], offset: usize, size: usize, big_endian: bool) -> (value: u64)
    requires
        size <= 8,
        offset + size <= bytes.len(),
    ensures
        value == uint_at(bytes@, offset as int, size as nat, big_endian),
{
    proof {
        lemma_byte_powers();
    }
    if big_endian {
        let mut value: u64 = 0;
        let mut i: usize = 0;
        while i < size
            invariant
                i <= size <= 8,
                offset + size <= bytes.len(),
                value == be_value(bytes@, offset as int, i as nat),
                byte_power(8) == 0x1_0000_0000_0000_0000,
            decreases size - i,
        {
            proof {
                lemma_value_bounds(bytes@, offset as int, (i + 1) as nat);
                lemma_byte_power_monotonic((i + 1) as nat, 8);
            }
            value = value * 256 + bytes[offset + i] as u64;
            i += 1;
        }
        value
    } else {
        let mut value: u64 = 0;
        let mut k: usize = size;
        while k > 0
            invariant
                k <= size <= 8,
                offset + size <= bytes.len(),
                value == le_value(bytes@, (offset + k) as int, (size - k) as nat),
                byte_power(8) == 0x1_0000_0000_0000_0000,
            decreases k,
        {
            k -= 1;
            proof {
                lemma_value_bounds(bytes@, (offset + k) as int, (size - k) as nat);
                lemma_byte_power_monotonic((size - k) as nat, 8);
            }
            value = bytes[offset + k] as u64 + 256 * value;
        }
        value
    }
}

/// `256^a <= 256^b` when `a <= b`.
proof fn lemma_byte_power_monotonic(a: nat, b: nat)
    requires
        a <= b,
    ensures
        byte_power(a) <= byte_power(b),
    decreases b - a,
{
    if a < b {
        lemma_byte_power_monotonic(a, (b - 1) as nat);
    }
}

} // verus!
verus! {

/// The type of an ELF file.
#[derive(Clone, Copy, Debug, PartialEq, Eq, Structural)]
pub struct ElfType(pub u16);

impl ElfType {
    /// A relocatable file.
    pub const RELOCATABLE: u16 = 1;
    /// An executable file.
    pub const EXECUTABLE: u16 = 2;
    /// A shared object, loadable at any address.
    pub const SHARED: u16 = 3;
}

/// The segment type of a loadable segment.
pub const SEGMENT_LOAD: u32 = 1;
/// The segment type of the dynamic linking information.
pub const SEGMENT_DYNAMIC: u32 = 2;
/// The segment flag that makes a segment executable.
pub const SEGMENT_EXECUTE: u32 = 1;
/// The segment flag that makes a segment writable.
pub const SEGMENT_WRITE: u32 = 2;

/// One entry of the program header table.
#[derive(Clone, Copy, Debug, PartialEq, Eq, Structural)]
pub struct ProgramHeader {
    /// The kind of segment.
    pub segment_type: u32,
    /// The segment's permission flags.
    pub flags: u32,
    /// The offset of the segment's bytes in the file.
    pub offset: u64,
    /// The virtual address of the segment.
    pub virtual_address: u64,
    /// The physical address of the segment.
    pub physical_address: u64,
    /// The number of bytes of the segment in the file.
    pub file_size: u64,
    /// The number of bytes of the segment in memory.
    pub memory_size: u64,
    /// The alignment of the segment.
    pub alignment: u64,
}

/// Errors in the ELF header.
#[derive(Clone, Copy, Debug, PartialEq, Eq, Structural)]
pub enum ElfHeaderError {
    /// The file does not start with the ELF magic bytes.
    InvalidMagic,
    /// The class byte is neither 32-bit nor 64-bit.
    InvalidClass(u8),
    /// The data encoding byte is neither little nor big endian.
    InvalidEncoding(u8),
    /// The program header entries are smaller than a program header.
    InvalidProgramHeaderSize(u16),
}

/// Errors accessing the bytes of the file.
#[derive(Clone, Copy, Debug, PartialEq, Eq, Structural)]
pub enum MediumError {
    /// A structure lies past the end of the file.
    OutOfBounds,
}

/// Various errors that can occur when parsing an ELF file and extracting useful information.
#[derive(Clone, Copy, Debug, PartialEq, Eq, Structural)]
pub enum ParseElfError {
    /// An error occured when parsing the ELF header.
    ElfHeaderError(ElfHeaderError),
    /// An error occur when accessing the underlying bytes.
    MediumError(MediumError),
    /// The provided executable file does not contain a program header table and as such is not
    /// loadable.
    MissingProgramHeadersError,
}

/// Useful information extracted from an ELF file.
#[derive(Debug)]
pub struct ParsedElf {
    /// The machine that the file targets.
    pub machine: Machine,
    /// The type of the file.
    pub elf_type: ElfType,
    /// The entry point of the file.
    pub entry_point: u64,
    /// The file uses 64-bit structures.
    pub class_64: bool,
    /// The file stores values most significant byte first.
    pub big_endian: bool,
    /// The program header table.
    pub program_headers: Vec<ProgramHeader>,
}

/// The fields of the ELF header that the loader reads, with their offsets and sizes.
pub open spec fn header_size(class_64: bool) -> int {
    if class_64 { 64 } else { 52 }
}

/// The size of a program header.
pub open spec fn program_header_size(class_64: bool) -> int {
    if class_64 { 56 } else { 32 }
}

/// The program header table's file offset.
pub open spec fn spec_phoff(b: Seq<u8>, class_64: bool, be: bool) -> nat {
    if class_64 { uint_at(b, 32, 8, be) } else { uint_at(b, 28, 4, be) }
}

/// The size of one program header table entry.
pub open spec fn spec_phentsize(b: Seq<u8>, class_64: bool, be: bool) -> nat {
    if class_64 { uint_at(b, 54, 2, be) } else { uint_at(b, 42, 2, be) }
}

/// The number of program header table entries.
pub open spec fn spec_phnum(b: Seq<u8>, class_64: bool, be: bool) -> nat {
    if class_64 { uint_at(b, 56, 2, be) } else { uint_at(b, 44, 2, be) }
}

/// The program header stored at `base`.
pub open spec fn spec_program_header(b: Seq<u8>, class_64: bool, be: bool, base: int) -> ProgramHeader {
    if class_64 {
        ProgramHeader {
            segment_type: uint_at(b, base, 4, be) as u32,
            flags: uint_at(b, base + 4, 4, be) as u32,
            offset: uint_at(b, base + 8, 8, be) as u64,
            virtual_address: uint_at(b, base + 16, 8, be) as u64,
            physical_address: uint_at(b, base + 24, 8, be) as u64,
            file_size: uint_at(b, base + 32, 8, be) as u64,
            memory_size: uint_at(b, base + 40, 8, be) as u64,
            alignment: uint_at(b, base + 48, 8, be) as u64,
        }
    } else {
        ProgramHeader {
            segment_type: uint_at(b, base, 4, be) as u32,
            offset: uint_at(b, base + 4, 4, be) as u64,
            virtual_address: uint_at(b, base + 8, 4, be) as u64,
            physical_address: uint_at(b, base + 12, 4, be) as u64,
            file_size: uint_at(b, base + 16, 4, be) as u64,
            memory_size: uint_at(b, base + 20, 4, be) as u64,
            flags: uint_at(b, base + 24, 4, be) as u32,
            alignment: uint_at(b, base + 28, 4, be) as u64,
        }
    }
}

/// The error that [`parse`] reports for `b`, if any, in the order the checks are made: the
/// identification bytes, the class and encoding, the header's bounds, the presence of a program
/// header table, its entry size and its bounds.
pub open spec fn parse_error(b: Seq<u8>) -> Option<ParseElfError> {
    if b.len() < 16 {
        Some(ParseElfError::MediumError(MediumError::OutOfBounds))
    } else if b[0] != 0x7F || b[1] != 0x45 || b[2] != 0x4C || b[3] != 0x46 {
        Some(ParseElfError::ElfHeaderError(ElfHeaderError::InvalidMagic))
    } else if b[4] != 1 && b[4] != 2 {
        Some(ParseElfError::ElfHeaderError(ElfHeaderError::InvalidClass(b[4])))
    } else if b[5] != 1 && b[5] != 2 {
        Some(ParseElfError::ElfHeaderError(ElfHeaderError::InvalidEncoding(b[5])))
    } else {
        let class_64 = b[4] == 2;
        let be = b[5] == 2;
        if b.len() < header_size(class_64) {
            Some(ParseElfError::MediumError(MediumError::OutOfBounds))
        } else if spec_phoff(b, class_64, be) == 0 || spec_phnum(b, class_64, be) == 0 {
            Some(ParseElfError::MissingProgramHeadersError)
        } else if spec_phentsize(b, class_64, be) < program_header_size(class_64) {
            Some(
                ParseElfError::ElfHeaderError(
                    ElfHeaderError::InvalidProgramHeaderSize(spec_phentsize(b, class_64, be) as u16),
                ),
            )
        } else if spec_phoff(b, class_64, be) + (spec_phnum(b, class_64, be) - 1) * spec_phentsize(
            b,
            class_64,
            be,
        ) + program_header_size(class_64) > b.len() {
            Some(ParseElfError::MediumError(MediumError::OutOfBounds))
        } else {
            None
        }
    }
}

/// Parses the provided `blob` as an ELF file and extracts the loader's information.
pub fn parse(blob: &[u8]) -> (result: Result<ParsedElf, ParseElfError>)
    ensures
        match parse_error(blob@) {
            Some(error) => result == Err::<ParsedElf, ParseElfError>(error),
            None => result matches Ok(parsed) && {
                let class_64 = blob@[4] == 2;
                let be = blob@[5] == 2;
                &&& parsed.class_64 == class_64
                &&& parsed.big_endian == be
                &&& parsed.elf_type.0 == uint_at(blob@, 16, 2, be)
                &&& parsed.machine.0 == uint_at(blob@, 18, 2, be)
                &&& parsed.entry_point == if class_64 {
                    uint_at(blob@, 24, 8, be)
                } else {
                    uint_at(blob@, 24, 4, be)
                }
                &&& parsed.program_headers@.len() == spec_phnum(blob@, class_64, be)
                &&& forall|i: int| 0 <= i < parsed.program_headers@.len() ==> #[trigger] parsed.program_headers@[i]
                    == spec_program_header(
                    blob@,
                    class_64,
                    be,
                    spec_phoff(blob@, class_64, be) + i * spec_phentsize(blob@, class_64, be),
                )
            },
        },
{
    proof {
        lemma_byte_powers();
    }
    if blob.len() < 16 {
        return Err(ParseElfError::MediumError(MediumError::OutOfBounds));
    }
    if blob[0] != 0x7F || blob[1] != 0x45 || blob[2] != 0x4C || blob[3] != 0x46 {
        return Err(ParseElfError::ElfHeaderError(ElfHeaderError::InvalidMagic));
    }
    if blob[4] != 1 && blob[4] != 2 {
        return Err(ParseElfError::ElfHeaderError(ElfHeaderError::InvalidClass(blob[4])));
    }
    if blob[5] != 1 && blob[5] != 2 {
        return Err(ParseElfError::ElfHeaderError(ElfHeaderError::InvalidEncoding(blob[5])));
    }
    let class_64 = blob[4] == 2;
    let be = blob[5] == 2;
    let header_bytes: usize = if class_64 { 64 } else { 52 };
    if blob.len() < header_bytes {
        return Err(ParseElfError::MediumError(MediumError::OutOfBounds));
    }
    let elf_type = read_uint(blob, 16, 2, be);
    let machine = read_uint(blob, 18, 2, be);
    proof {
        lemma_value_bounds(blob@, 16, 2);
        lemma_value_bounds(blob@, 18, 2);
        lemma_value_bounds(blob@, 42, 2);
        lemma_value_bounds(blob@, 44, 2);
        lemma_value_bounds(blob@, 54, 2);
        lemma_value_bounds(blob@, 56, 2);
    }
    let entry_point = if class_64 {
        read_uint(blob, 24, 8, be)
    } else {
        read_uint(blob, 24, 4, be)
    };
    let phoff = if class_64 {
        read_uint(blob, 32, 8, be)
    } else {
        read_uint(blob, 28, 4, be)
    };
    let phentsize = if class_64 {
        read_uint(blob, 54, 2, be)
    } else {
        read_uint(blob, 42, 2, be)
    };
    let phnum = if class_64 {
        read_uint(blob, 56, 2, be)
    } else {
        read_uint(blob, 44, 2, be)
    };
    if phoff == 0 || phnum == 0 {
        return Err(ParseElfError::MissingProgramHeadersError);
    }
    let entry_size: u64 = if class_64 { 56 } else { 32 };
    if phentsize < entry_size {
        return Err(ParseElfError::ElfHeaderError(ElfHeaderError::InvalidProgramHeaderSize(phentsize as u16)));
    }
    assert((phnum - 1) * phentsize <= 0xFFFF * 0xFFFF) by (nonlinear_arith)
        requires
            phnum <= 0xFFFF,
            phentsize <= 0xFFFF,
            phnum >= 1,
    ;
    let table_end = match phoff.checked_add((phnum - 1) * phentsize + entry_size) {
        Some(end) => end,
        None => return Err(ParseElfError::MediumError(MediumError::OutOfBounds)),
    };
    if table_end > blob.len() as u64 {
        return Err(ParseElfError::MediumError(MediumError::OutOfBounds));
    }
    let mut program_headers: Vec<ProgramHeader> = Vec::new();
    let mut i: u64 = 0;
    while i < phnum
        invariant
            i <= phnum,
            phnum >= 1,
            phoff + (phnum - 1) * phentsize + entry_size <= blob.len(),
            entry_size == program_header_size(class_64),
            phentsize >= entry_size,
            program_headers@.len() == i,
            byte_power(4) == 0x1_0000_0000,
            byte_power(8) == 0x1_0000_0000_0000_0000,
            forall|k: int| 0 <= k < i ==> #[trigger] program_headers@[k] == spec_program_header(
                blob@,
                class_64,
                be,
                phoff + k * phentsize,
            ),
        decreases phnum - i,
    {
        assert(i * phentsize <= (phnum - 1) * phentsize) by (nonlinear_arith)
            requires
                i <= phnum - 1,
        ;
        let base = (phoff + i * phentsize) as usize;
        let header = read_program_header(blob, base, class_64, be);
        program_headers.push(header);
        i += 1;
    }
    Ok(
        ParsedElf {
            machine: Machine(machine as u16),
            elf_type: ElfType(elf_type as u16),
            entry_point,
            class_64,
            big_endian: be,
            program_headers,
        },
    )
}

/// Reads the program header at `base`.
fn read_program_header(blob: &[u8], base: usize, class_64: bool, be: bool) -> (header: ProgramHeader)
    requires
        base + program_header_size(class_64) <= blob.len(),
    ensures
        header == spec_program_header(blob@, class_64, be, base as int),
{
    proof {
        lemma_byte_powers();
        lemma_value_bounds(blob@, base as int, 4);
        lemma_value_bounds(blob@, base + 4, 4);
        lemma_value_bounds(blob@, base + 24, 4);
    }
    if class_64 {
        ProgramHeader {
            segment_type: read_uint(blob, base, 4, be) as u32,
            flags: read_uint(blob, base + 4, 4, be) as u32,
            offset: read_uint(blob, base + 8, 8, be),
            virtual_address: read_uint(blob, base + 16, 8, be),
            physical_address: read_uint(blob, base + 24, 8, be),
            file_size: read_uint(blob, base + 32, 8, be),
            memory_size: read_uint(blob, base + 40, 8, be),
            alignment: read_uint(blob, base + 48, 8, be),
        }
    } else {
        ProgramHeader {
            segment_type: read_uint(blob, base, 4, be) as u32,
            offset: read_uint(blob, base + 4, 4, be),
            virtual_address: read_uint(blob, base + 8, 4, be),
            physical_address: read_uint(blob, base + 12, 4, be),
            file_size: read_uint(blob, base + 16, 4, be),
            memory_size: read_uint(blob, base + 20, 4, be),
            flags: read_uint(blob, base + 24, 4, be) as u32,
            alignment: read_uint(blob, base + 28, 4, be),
        }
    }
}

} // verus!
