use lib::address_space::{ProtectionFlags, PROTECTION_READ, PROTECTION_WRITE};
use lib::bits_32::Bits32AddressSpace;
use lib::descriptor::AddressSpaceDescriptor;
use lib::elf::{parse, read_uint, ElfHeaderError, ElfType, Machine, MediumError, ParseElfError, SEGMENT_LOAD};
use lib::layout::{checked_next_multiple_of, compute_layout, ComputeLayoutError, Layout};
use lib::physical_memory::{FrameAllocator, PhysicalBytes, PhysicalMemory32};
use lib::relocation::{
    apply_relocations, has_rel_table, relocate, scan_dynamic, ApplyRelocationsError, FinalizedRelocation,
    RelocationError, RelocationInfo, RELATIVE,
};

fn put(blob: &mut Vec<u8>, offset: usize, value: u64, size: usize) {
    for i in 0..size {
        blob[offset + i] = (value >> (8 * i)) as u8;
    }
}

/// A little-endian 32-bit shared object for `i386` with one dynamic segment whose table
/// describes a `RELA` table of `rela_count` entries at offset `0x100`.
fn elf32_with_dynamic(tags: &[(u32, u32)]) -> Vec<u8> {
    let dynamic_offset = 84usize;
    let mut blob = vec![0u8; dynamic_offset + 8 * tags.len()];
    blob[0..4].copy_from_slice(&[0x7F, b'E', b'L', b'F']);
    blob[4] = 1;
    blob[5] = 1;
    put(&mut blob, 16, ElfType::SHARED as u64, 2);
    put(&mut blob, 18, Machine::INTEL_386 as u64, 2);
    put(&mut blob, 24, 0x1000, 4);
    put(&mut blob, 28, 52, 4);
    put(&mut blob, 42, 32, 2);
    put(&mut blob, 44, 1, 2);
    put(&mut blob, 52, 2, 4);
    put(&mut blob, 56, dynamic_offset as u64, 4);
    put(&mut blob, 68, 8 * tags.len() as u64, 4);
    put(&mut blob, 72, 8 * tags.len() as u64, 4);
    for (i, (tag, value)) in tags.iter().enumerate() {
        put(&mut blob, dynamic_offset + 8 * i, *tag as u64, 4);
        put(&mut blob, dynamic_offset + 8 * i + 4, *value as u64, 4);
    }
    blob
}

fn space_mapping(virtual_address: u64, physical_address: u64, pages: u64) -> Bits32AddressSpace {
    let memory = PhysicalMemory32::zeroed(0x4000 / 4);
    let allocator = FrameAllocator::new(0x1000, 0x4000).unwrap();
    let mut space = Bits32AddressSpace::new(false, false, false, false, memory, allocator).unwrap();
    let flags = ProtectionFlags(PROTECTION_READ | PROTECTION_WRITE);
    space.map(virtual_address, physical_address, pages, flags).unwrap();
    space
}

#[test]
fn read_uint_byte_orders() {
    let bytes = [0x12u8, 0x34, 0x56, 0x78];
    assert_eq!(read_uint(&bytes, 0, 4, false), 0x7856_3412);
    assert_eq!(read_uint(&bytes, 0, 4, true), 0x1234_5678);
    assert_eq!(read_uint(&bytes, 1, 2, false), 0x5634);
    assert_eq!(read_uint(&bytes, 0, 0, false), 0);
}

#[test]
fn parse_reads_header_and_program_headers() {
    let blob = elf32_with_dynamic(&[(0, 0)]);
    let parsed = parse(&blob).unwrap();
    assert_eq!(parsed.machine, Machine(Machine::INTEL_386));
    assert_eq!(parsed.elf_type, ElfType(ElfType::SHARED));
    assert_eq!(parsed.entry_point, 0x1000);
    assert!(!parsed.class_64);
    assert!(!parsed.big_endian);
    assert_eq!(parsed.program_headers.len(), 1);
    assert_eq!(parsed.program_headers[0].segment_type, 2);
    assert_eq!(parsed.program_headers[0].offset, 84);
    assert_eq!(parsed.program_headers[0].file_size, 8);
}

#[test]
fn parse_errors() {
    assert_eq!(parse(&[0u8; 4]).unwrap_err(), ParseElfError::MediumError(MediumError::OutOfBounds));
    let mut blob = elf32_with_dynamic(&[(0, 0)]);
    blob[0] = 0;
    assert_eq!(parse(&blob).unwrap_err(), ParseElfError::ElfHeaderError(ElfHeaderError::InvalidMagic));
    let mut blob = elf32_with_dynamic(&[(0, 0)]);
    blob[4] = 3;
    assert_eq!(parse(&blob).unwrap_err(), ParseElfError::ElfHeaderError(ElfHeaderError::InvalidClass(3)));
    let mut blob = elf32_with_dynamic(&[(0, 0)]);
    blob[5] = 7;
    assert_eq!(parse(&blob).unwrap_err(), ParseElfError::ElfHeaderError(ElfHeaderError::InvalidEncoding(7)));
    let mut blob = elf32_with_dynamic(&[(0, 0)]);
    put(&mut blob, 44, 0, 2);
    assert_eq!(parse(&blob).unwrap_err(), ParseElfError::MissingProgramHeadersError);
    let mut blob = elf32_with_dynamic(&[(0, 0)]);
    put(&mut blob, 42, 16, 2);
    assert_eq!(
        parse(&blob).unwrap_err(),
        ParseElfError::ElfHeaderError(ElfHeaderError::InvalidProgramHeaderSize(16))
    );
    let mut blob = elf32_with_dynamic(&[(0, 0)]);
    put(&mut blob, 44, 3, 2);
    assert_eq!(parse(&blob).unwrap_err(), ParseElfError::MediumError(MediumError::OutOfBounds));
}

fn with_loads(segments: &[(u64, u64)], elf_type: u16) -> Vec<u8> {
    let mut blob = vec![0u8; 52 + 32 * segments.len()];
    blob[0..4].copy_from_slice(&[0x7F, b'E', b'L', b'F']);
    blob[4] = 1;
    blob[5] = 1;
    put(&mut blob, 16, elf_type as u64, 2);
    put(&mut blob, 18, Machine::INTEL_386 as u64, 2);
    put(&mut blob, 28, 52, 4);
    put(&mut blob, 42, 32, 2);
    put(&mut blob, 44, segments.len() as u64, 2);
    for (i, (address, size)) in segments.iter().enumerate() {
        let base = 52 + 32 * i;
        put(&mut blob, base, SEGMENT_LOAD as u64, 4);
        put(&mut blob, base + 8, *address, 4);
        put(&mut blob, base + 20, *size, 4);
        put(&mut blob, base + 28, 0x1000, 4);
    }
    blob
}

#[test]
fn layout_of_executable_and_shared_object() {
    let descriptor = AddressSpaceDescriptor::new(32, false);
    let exe = parse(&with_loads(&[(0x1000, 0x800), (0x3000, 0x1800)], ElfType::EXECUTABLE)).unwrap();
    assert_eq!(compute_layout(&exe, 4096, descriptor), Ok(Layout { slide: 0, byte_span: 0x4000 }));
    let so = parse(&with_loads(&[(0x0, 0x2000)], ElfType::SHARED)).unwrap();
    assert_eq!(
        compute_layout(&so, 4096, descriptor),
        Ok(Layout { slide: 0xFFFF_D000, byte_span: 0x2000 })
    );
    let rel = parse(&with_loads(&[(0x0, 0x2000)], ElfType::RELOCATABLE)).unwrap();
    assert_eq!(
        compute_layout(&rel, 4096, descriptor),
        Err(ComputeLayoutError::UnsupportedFileType(ElfType(ElfType::RELOCATABLE)))
    );
}

#[test]
fn layout_errors() {
    let descriptor = AddressSpaceDescriptor::new(32, false);
    let overlapping = parse(&with_loads(&[(0x1000, 0x800), (0x1900, 0x100)], ElfType::EXECUTABLE)).unwrap();
    assert_eq!(compute_layout(&overlapping, 4096, descriptor), Err(ComputeLayoutError::OverlappingSegments));
    let descending = parse(&with_loads(&[(0x5000, 0x800), (0x1000, 0x100)], ElfType::EXECUTABLE)).unwrap();
    assert_eq!(compute_layout(&descending, 4096, descriptor), Err(ComputeLayoutError::NonAscending));
    let reversed = parse(&with_loads(&[(0x2000, 0x1000), (0x0, 0x1000)], ElfType::EXECUTABLE)).unwrap();
    assert_eq!(compute_layout(&reversed, 4096, descriptor), Err(ComputeLayoutError::NonAscending));
    let small = AddressSpaceDescriptor::new(12, false);
    let so = parse(&with_loads(&[(0x0, 0x2000)], ElfType::SHARED)).unwrap();
    assert_eq!(compute_layout(&so, 4096, small), Err(ComputeLayoutError::TooLarge));
}

#[test]
fn next_multiple() {
    assert_eq!(checked_next_multiple_of(0x1001, 0x1000), Some(0x2000));
    assert_eq!(checked_next_multiple_of(0x2000, 0x1000), Some(0x2000));
    assert_eq!(checked_next_multiple_of(u64::MAX, 0x1000), None);
}

#[test]
fn relocate_relative() {
    let info = RelocationInfo { relocation_type: RELATIVE, addend: -0x10, slide: 0x40_0000 };
    assert_eq!(relocate(Machine(Machine::INTEL_386), &info), Ok(FinalizedRelocation::Bits32(0x3F_FFF0)));
    assert_eq!(relocate(Machine(Machine::X86_64), &info), Ok(FinalizedRelocation::Bits64(0x3F_FFF0)));
    let big = RelocationInfo { relocation_type: RELATIVE, addend: 0, slide: 0x1_0000_0000 };
    assert_eq!(relocate(Machine(Machine::INTEL_386), &big), Err(RelocationError::ConversionError));
    let other = RelocationInfo { relocation_type: 1, addend: 0, slide: 0 };
    assert_eq!(
        relocate(Machine(Machine::X86_64), &other),
        Err(RelocationError::UnsupportedRelocationType { relocation_type: 1 })
    );
    assert_eq!(
        relocate(Machine(Machine::AARCH64), &info),
        Err(RelocationError::UnsupportedMachine { machine: Machine(Machine::AARCH64) })
    );
}

#[test]
fn x86_64_relocate_is_checked() {
    let info = RelocationInfo { relocation_type: RELATIVE, addend: -1, slide: 0x1000 };
    assert_eq!(lib::x86_64::relocate(&info), Ok(FinalizedRelocation::Bits64(0xFFF)));
    let below_zero = RelocationInfo { relocation_type: RELATIVE, addend: -1, slide: 0 };
    assert_eq!(lib::x86_64::relocate(&below_zero), Err(()));
    let other = RelocationInfo { relocation_type: 2, addend: 0, slide: 0 };
    assert_eq!(lib::x86_64::relocate(&other), Err(()));
}

#[test]
fn finalized_bytes_in_both_orders() {
    assert_eq!(FinalizedRelocation::Bits32(0x1234_5678).to_bytes(false), vec![0x78, 0x56, 0x34, 0x12]);
    assert_eq!(FinalizedRelocation::Bits32(0x1234_5678).to_bytes(true), vec![0x12, 0x34, 0x56, 0x78]);
    assert_eq!(FinalizedRelocation::Bits16(0xABCD).to_bytes(false), vec![0xCD, 0xAB]);
    assert_eq!(FinalizedRelocation::Bits64(1).to_bytes(true), vec![0, 0, 0, 0, 0, 0, 0, 1]);
}

#[test]
fn dynamic_scan_stops_at_null() {
    let mut data = vec![0u8; 32];
    put(&mut data, 0, 7, 4);
    put(&mut data, 4, 0x100, 4);
    put(&mut data, 8, 0, 4);
    put(&mut data, 16, 8, 4);
    put(&mut data, 20, 12, 4);
    let info = scan_dynamic(&data, false, false);
    assert_eq!(info.rela_table_offset, Some(0x100));
    assert_eq!(info.rela_table_size, None);
    assert_eq!(info.rel_table_offset, None);
}

fn write_rela(memory: &mut PhysicalBytes, address: usize, offset: u32, info: u32, addend: i32) {
    memory.bytes[address..address + 4].copy_from_slice(&offset.to_le_bytes());
    memory.bytes[address + 4..address + 8].copy_from_slice(&info.to_le_bytes());
    memory.bytes[address + 8..address + 12].copy_from_slice(&addend.to_le_bytes());
}

#[test]
fn apply_relocations_writes_relative_values() {
    let blob = elf32_with_dynamic(&[(7, 0x100), (8, 24), (9, 12), (0, 0)]);
    let parsed = parse(&blob).unwrap();
    assert!(!has_rel_table(&parsed, &blob));
    let slide = 0x40_0000u64;
    let space = space_mapping(slide, 0x0, 1);
    let mut memory = PhysicalBytes::zeroed(0x1000);
    write_rela(&mut memory, 0x100, 0x200, 8, 0x10);
    write_rela(&mut memory, 0x10C, 0x208, 8, -4);
    let layout = Layout { slide, byte_span: 0x1000 };
    assert_eq!(apply_relocations(&parsed, &blob, &layout, &space, &mut memory), Ok(()));
    assert_eq!(&memory.bytes[0x200..0x204], &0x40_0010u32.to_le_bytes());
    assert_eq!(&memory.bytes[0x208..0x20C], &0x3F_FFFCu32.to_le_bytes());
}

#[test]
fn apply_relocations_errors() {
    let slide = 0x40_0000u64;
    let layout = Layout { slide, byte_span: 0x1000 };
    let space = space_mapping(slide, 0x0, 1);

    let blob = elf32_with_dynamic(&[(8, 24), (9, 12), (0, 0)]);
    let parsed = parse(&blob).unwrap();
    let mut memory = PhysicalBytes::zeroed(0x1000);
    assert_eq!(
        apply_relocations(&parsed, &blob, &layout, &space, &mut memory),
        Err(ApplyRelocationsError::MissingRelaTableOffset)
    );

    let blob = elf32_with_dynamic(&[(7, 0x100), (8, 24), (9, 4), (0, 0)]);
    let parsed = parse(&blob).unwrap();
    assert_eq!(
        apply_relocations(&parsed, &blob, &layout, &space, &mut memory),
        Err(ApplyRelocationsError::InvalidRelaEntrySize)
    );

    let blob = elf32_with_dynamic(&[(7, 0x2000), (8, 12), (9, 12), (0, 0)]);
    let parsed = parse(&blob).unwrap();
    assert_eq!(
        apply_relocations(&parsed, &blob, &layout, &space, &mut memory),
        Err(ApplyRelocationsError::OutOfBoundsRelocationEntry)
    );

    let blob = elf32_with_dynamic(&[(7, 0x100), (8, 12), (9, 12), (0, 0)]);
    let parsed = parse(&blob).unwrap();
    write_rela(&mut memory, 0x100, 0x200, 3, 0);
    assert_eq!(
        apply_relocations(&parsed, &blob, &layout, &space, &mut memory),
        Err(ApplyRelocationsError::RelocationError(RelocationError::UnsupportedRelocationType {
            relocation_type: 3
        }))
    );

    write_rela(&mut memory, 0x100, 0x3000, 8, 0);
    assert_eq!(
        apply_relocations(&parsed, &blob, &layout, &space, &mut memory),
        Err(ApplyRelocationsError::OutOfBoundsRelocation)
    );

    let blob = elf32_with_dynamic(&[(17, 0x100), (0, 0)]);
    let parsed = parse(&blob).unwrap();
    assert!(has_rel_table(&parsed, &blob));
}
