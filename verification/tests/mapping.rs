use lib::elf::{ElfType, Machine, ParsedElf, ProgramHeader, SEGMENT_LOAD};
use lib::layout::Layout;
use lib::mapping::{map_segments, MapSegmentsError};
use lib::paging::{ChunkRange, MapError, MappingType, Permissions};
use lib::physical_memory::{FrameAllocator, PhysicalBytes, PhysicalMemory64};
use lib::x86_paging::{LongModeTranslationScheme, PagingMode, X86Features};

fn load(virtual_address: u64, memory_size: u64, offset: u64, file_size: u64, flags: u32) -> ProgramHeader {
    ProgramHeader {
        segment_type: SEGMENT_LOAD,
        flags,
        offset,
        virtual_address,
        physical_address: virtual_address,
        file_size,
        memory_size,
        alignment: 0x1000,
    }
}

fn executable() -> (ParsedElf, Vec<u8>) {
    let blob: Vec<u8> = (0..0x20u8).map(|i| i + 1).collect();
    let parsed = ParsedElf {
        machine: Machine(Machine::X86_64),
        elf_type: ElfType(ElfType::EXECUTABLE),
        entry_point: 0x40_0000,
        class_64: true,
        big_endian: false,
        program_headers: vec![
            load(0x40_0000, 0x1800, 0, 0x10, 1),
            ProgramHeader { segment_type: 4, ..load(0, 0, 0, 0, 0) },
            load(0x40_2000, 0x100, 0x10, 4, 2),
        ],
    };
    (parsed, blob)
}

struct Machine64 {
    scheme: LongModeTranslationScheme,
    tables: PhysicalMemory64,
    table_frames: FrameAllocator,
    image_frames: FrameAllocator,
    image: PhysicalBytes,
}

fn machine(image_end: u64) -> Machine64 {
    let features = X86Features {
        max_paging_mode: PagingMode::Level4,
        cpuid: true,
        nx: true,
        pse: true,
        pse36: false,
        physical_bits: 46,
    };
    let mut tables = PhysicalMemory64::zeroed(0x10000 / 8);
    let mut table_frames = FrameAllocator::new(0x1000, 0x10000).unwrap();
    let root = LongModeTranslationScheme::allocate_zeroed_table(&mut tables, &mut table_frames);
    let scheme = LongModeTranslationScheme::max_supported(features, root).unwrap();
    Machine64 {
        scheme,
        tables,
        table_frames,
        image_frames: FrameAllocator::new(0x10_0000, image_end).unwrap(),
        image: PhysicalBytes::zeroed(0x10_8000),
    }
}

#[test]
fn map_segments_maps_and_copies() {
    let (parsed, blob) = executable();
    let layout = Layout { slide: 0, byte_span: 0x3000 };
    let mut m = machine(0x10_8000);
    let result = map_segments(
        &parsed,
        &blob,
        &layout,
        &mut m.scheme,
        &mut m.tables,
        &mut m.table_frames,
        &mut m.image_frames,
        &mut m.image,
    );
    assert_eq!(result, Ok(0x10_0000));
    assert_eq!(m.image_frames.next, 0x10_3000);
    assert_eq!(
        m.scheme.translate(&m.tables, 0x40_0008),
        Some((Permissions::ReadExecute, MappingType::Normal, 0x10_0008))
    );
    assert_eq!(
        m.scheme.translate(&m.tables, 0x40_1FFF),
        Some((Permissions::ReadExecute, MappingType::Normal, 0x10_1FFF))
    );
    assert_eq!(
        m.scheme.translate(&m.tables, 0x40_2003),
        Some((Permissions::ReadWrite, MappingType::Normal, 0x10_2003))
    );
    assert_eq!(m.scheme.translate(&m.tables, 0x40_3000), None);
    assert_eq!(&m.image.bytes[0x10_0000..0x10_0010], &blob[0..0x10]);
    assert!(m.image.bytes[0x10_0010..0x10_1800].iter().all(|&b| b == 0));
    assert_eq!(&m.image.bytes[0x10_2000..0x10_2004], &blob[0x10..0x14]);
}

#[test]
fn map_segments_needs_image_frames() {
    let (parsed, blob) = executable();
    let layout = Layout { slide: 0, byte_span: 0x3000 };
    let mut m = machine(0x10_2000);
    let result = map_segments(
        &parsed,
        &blob,
        &layout,
        &mut m.scheme,
        &mut m.tables,
        &mut m.table_frames,
        &mut m.image_frames,
        &mut m.image,
    );
    assert_eq!(result, Err(MapSegmentsError::OutOfMemory));
    assert_eq!(m.image_frames.next, 0x10_0000);
}

#[test]
fn map_segments_refuses_mapped_pages() {
    let (parsed, blob) = executable();
    let layout = Layout { slide: 0, byte_span: 0x3000 };
    let mut m = machine(0x10_8000);
    assert_eq!(
        m.scheme.map_at(
            &mut m.tables,
            &mut m.table_frames,
            ChunkRange::new(0x401, 1),
            ChunkRange::new(0x900, 1),
            Permissions::Read,
            MappingType::Normal
        ),
        Ok(())
    );
    let result = map_segments(
        &parsed,
        &blob,
        &layout,
        &mut m.scheme,
        &mut m.tables,
        &mut m.table_frames,
        &mut m.image_frames,
        &mut m.image,
    );
    assert_eq!(result, Err(MapSegmentsError::MapError(MapError::FindFreeRegionError)));
}
