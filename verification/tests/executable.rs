use lib::elf::{ElfHeaderError, ElfType, Machine, ParseElfError, SEGMENT_LOAD};
use lib::executable::{load, LoadExecutableError};
use lib::physical_memory::{FrameAllocator, PhysicalBytes, PhysicalMemory64};
use lib::x86_paging::{PagingMode, X86CommonSchemeError, X86Features};

const FEATURES: X86Features = X86Features {
    max_paging_mode: PagingMode::Level4,
    cpuid: true,
    nx: true,
    pse: true,
    pse36: false,
    physical_bits: 46,
};

fn put(blob: &mut [u8], offset: usize, value: u64, size: usize) {
    for i in 0..size {
        blob[offset + i] = (value >> (8 * i)) as u8;
    }
}

/// A little-endian 64-bit executable for `machine` with one loadable segment at `address` that
/// holds the 16 bytes at file offset `0x80` and takes `0x1800` bytes in memory.
fn elf64(machine: u16, elf_type: u16, address: u64) -> Vec<u8> {
    let mut blob = vec![0u8; 0x90];
    blob[0..4].copy_from_slice(&[0x7F, b'E', b'L', b'F']);
    blob[4] = 2;
    blob[5] = 1;
    put(&mut blob, 16, elf_type as u64, 2);
    put(&mut blob, 18, machine as u64, 2);
    put(&mut blob, 24, address + 0x10, 8);
    put(&mut blob, 32, 64, 8);
    put(&mut blob, 54, 56, 2);
    put(&mut blob, 56, 1, 2);
    put(&mut blob, 64, SEGMENT_LOAD as u64, 4);
    put(&mut blob, 68, 5, 4);
    put(&mut blob, 72, 0x80, 8);
    put(&mut blob, 80, address, 8);
    put(&mut blob, 88, address, 8);
    put(&mut blob, 96, 0x10, 8);
    put(&mut blob, 104, 0x1800, 8);
    put(&mut blob, 112, 0x1000, 8);
    for i in 0..0x10 {
        blob[0x80 + i] = 0xA0 + i as u8;
    }
    blob
}

struct Memory {
    tables: PhysicalMemory64,
    table_frames: FrameAllocator,
    image_frames: FrameAllocator,
    image: PhysicalBytes,
}

fn memory() -> Memory {
    Memory {
        tables: PhysicalMemory64::zeroed(0x10000 / 8),
        table_frames: FrameAllocator::new(0x1000, 0x10000).unwrap(),
        image_frames: FrameAllocator::new(0x10_0000, 0x10_8000).unwrap(),
        image: PhysicalBytes::zeroed(0x10_8000),
    }
}

fn run(blob: &[u8], m: &mut Memory) -> Result<(u64, u64, u64, u64), LoadExecutableError> {
    load(
        blob,
        PagingMode::Level4,
        FEATURES,
        &mut m.tables,
        &mut m.table_frames,
        &mut m.image_frames,
        &mut m.image,
    )
    .map(|(scheme, _, entry, base, slide)| (scheme.cr3(), entry, base, slide))
}

#[test]
fn load_places_executable() {
    let blob = elf64(Machine::X86_64, ElfType::EXECUTABLE, 0x40_0000);
    let mut m = memory();
    let (scheme, machine, entry, base, slide) = load(
        &blob,
        PagingMode::Level4,
        FEATURES,
        &mut m.tables,
        &mut m.table_frames,
        &mut m.image_frames,
        &mut m.image,
    )
    .unwrap();
    assert_eq!(machine, Machine(Machine::X86_64));
    assert_eq!(entry, 0x40_0010);
    assert_eq!(slide, 0);
    assert_eq!(base, 0x10_0000);
    assert_eq!(scheme.cr3(), 0x1000);
    assert_eq!(m.image_frames.next, 0x10_2000);
    for i in 0..0x10 {
        assert_eq!(m.image.bytes[0x10_0000 + i], 0xA0 + i as u8);
    }
    assert_eq!(m.image.bytes[0x10_0010], 0);
    let translated = scheme.translate(&m.tables, 0x40_1004).unwrap();
    assert_eq!(translated.2, 0x10_1004);
    assert!(scheme.translate(&m.tables, 0x40_2000).is_none());
}

#[test]
fn load_slides_shared_object_to_the_top() {
    let blob = elf64(Machine::X86_64, ElfType::SHARED, 0);
    let mut m = memory();
    let (_, entry, base, slide) = run(&blob, &mut m).unwrap();
    assert_eq!(slide, 0xFFFF_FFFF_FFFF_D000);
    assert_eq!(entry, 0xFFFF_FFFF_FFFF_D010);
    assert_eq!(base, 0x10_0000);
    assert_eq!(m.image.bytes[0x10_0000], 0xA0);
}

#[test]
fn load_reports_each_step() {
    let mut m = memory();
    assert_eq!(
        run(&[0u8; 8], &mut m),
        Err(LoadExecutableError::ParseElfError(ParseElfError::MediumError(lib::elf::MediumError::OutOfBounds)))
    );
    let mut blob = elf64(Machine::X86_64, ElfType::EXECUTABLE, 0x40_0000);
    blob[0] = 0;
    assert_eq!(
        run(&blob, &mut m),
        Err(LoadExecutableError::ParseElfError(ParseElfError::ElfHeaderError(ElfHeaderError::InvalidMagic)))
    );
    let blob = elf64(Machine::INTEL_386, ElfType::EXECUTABLE, 0x40_0000);
    assert_eq!(
        run(&blob, &mut m),
        Err(LoadExecutableError::AddressSpaceError(X86CommonSchemeError::NotSupported))
    );
    assert_eq!(m.table_frames.next, 0x1000);
    let blob = elf64(Machine::X86_64, ElfType::RELOCATABLE, 0x40_0000);
    assert_eq!(
        run(&blob, &mut m),
        Err(LoadExecutableError::ComputeLayoutError(lib::layout::ComputeLayoutError::UnsupportedFileType(
            ElfType(ElfType::RELOCATABLE)
        )))
    );
}

#[test]
fn load_runs_out_of_memory() {
    let blob = elf64(Machine::X86_64, ElfType::EXECUTABLE, 0x40_0000);
    let mut m = memory();
    m.table_frames = FrameAllocator::new(0x1000, 0x1000).unwrap();
    assert_eq!(
        run(&blob, &mut m),
        Err(LoadExecutableError::AddressSpaceError(X86CommonSchemeError::OutOfMemory))
    );
    let mut m = memory();
    m.image_frames = FrameAllocator::new(0x10_0000, 0x10_1000).unwrap();
    assert_eq!(
        run(&blob, &mut m),
        Err(LoadExecutableError::MapSegmentsError(lib::mapping::MapSegmentsError::OutOfMemory))
    );
}

#[test]
fn load_needs_long_mode_for_x86_64() {
    let blob = elf64(Machine::X86_64, ElfType::EXECUTABLE, 0x40_0000);
    let mut m = memory();
    let result = load(&blob, PagingMode::Pae, FEATURES, &mut m.tables, &mut m.table_frames, &mut m.image_frames, &mut m.image);
    assert_eq!(result.err(), Some(LoadExecutableError::AddressSpaceError(X86CommonSchemeError::NotSupported)));
    assert_eq!(m.table_frames.next, 0x1000);
}
