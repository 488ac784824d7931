use lib::elf::{ElfType, Machine, ParsedElf, ProgramHeader, SEGMENT_LOAD, SEGMENT_WRITE};
use lib::layout::Layout;
use lib::mapping::MapSegmentsError;
use lib::paging::{MapError, MappingType, Permissions};
use lib::pae_mapping::{map_segments_pae, place_pae};
use lib::physical_memory::{FrameAllocator, PhysicalBytes, PhysicalMemory64};
use lib::x86_paging::{PaeTranslationScheme, PagingMode, X86Features};

fn pae() -> (PaeTranslationScheme, PhysicalMemory64, FrameAllocator) {
    let features = X86Features { max_paging_mode: PagingMode::Pae, cpuid: true, nx: true, pse: true, pse36: false, physical_bits: 36 };
    let mut tables = PhysicalMemory64::zeroed(0x10000 / 8);
    let mut table_frames = FrameAllocator::new(0x1000, 0x10000).unwrap();
    let root = PaeTranslationScheme::allocate_zeroed_table(&mut tables, &mut table_frames);
    let scheme = PaeTranslationScheme::max_supported(features, root).unwrap();
    (scheme, tables, table_frames)
}

fn header(virtual_address: u64, offset: u64, file_size: u64, memory_size: u64, flags: u32) -> ProgramHeader {
    ProgramHeader { segment_type: SEGMENT_LOAD, flags, offset, virtual_address, physical_address: 0, file_size, memory_size, alignment: 0x1000 }
}

fn elf(headers: Vec<ProgramHeader>) -> ParsedElf {
    ParsedElf { machine: Machine(Machine::INTEL_386), elf_type: ElfType(ElfType::EXECUTABLE), entry_point: 0x40_0000, class_64: false, big_endian: false, program_headers: headers }
}

#[test]
fn pae_segments_are_copied_and_mapped() {
    let (mut scheme, mut tables, mut table_frames) = pae();
    let mut image_frames = FrameAllocator::new(0x2_0000, 0x3_0000).unwrap();
    let mut image = PhysicalBytes::zeroed(0x3_0000);
    let blob: Vec<u8> = (0..0x40u8).collect();
    let parsed = elf(vec![header(0x40_0010, 0x10, 0x8, 0x20, 0), header(0x40_1000, 0x20, 0x4, 0x1800, SEGMENT_WRITE)]);
    let layout = Layout { slide: 0, byte_span: 0x3000 };
    let base = map_segments_pae(&parsed, &blob, &layout, &mut scheme, &mut tables, &mut table_frames, &mut image_frames, &mut image);
    assert_eq!(base, Ok(0x2_0000));
    assert_eq!(image.read_u8(0x2_0010), 0x10);
    assert_eq!(image.read_u8(0x2_0017), 0x17);
    assert_eq!(image.read_u8(0x2_0018), 0);
    assert_eq!(image.read_u8(0x2_1000), 0x20);
    assert_eq!(image.read_u8(0x2_1003), 0x23);
    assert_eq!(scheme.translate(&tables, 0x40_0010), Some((Permissions::Read, MappingType::Normal, 0x2_0010)));
    assert_eq!(scheme.translate(&tables, 0x40_1004), Some((Permissions::ReadWrite, MappingType::Normal, 0x2_1004)));
    assert_eq!(scheme.translate(&tables, 0x40_2800), Some((Permissions::ReadWrite, MappingType::Normal, 0x2_2800)));
    assert_eq!(scheme.translate(&tables, 0x40_3000), None);
}

#[test]
fn pae_overlapping_segments_are_refused() {
    let (mut scheme, mut tables, mut table_frames) = pae();
    let mut image_frames = FrameAllocator::new(0x2_0000, 0x3_0000).unwrap();
    let mut image = PhysicalBytes::zeroed(0x3_0000);
    let blob: Vec<u8> = vec![0; 0x40];
    let parsed = elf(vec![header(0x40_0000, 0, 0, 0x10, 0), header(0x40_0800, 0, 0, 0x10, 0)]);
    let layout = Layout { slide: 0, byte_span: 0x2000 };
    let result = map_segments_pae(&parsed, &blob, &layout, &mut scheme, &mut tables, &mut table_frames, &mut image_frames, &mut image);
    assert_eq!(result, Err(MapSegmentsError::MapError(MapError::FindFreeRegionError)));
    // Too many image frames.
    let (mut scheme, mut tables, mut table_frames) = pae();
    let mut image_frames = FrameAllocator::new(0x2_0000, 0x2_1000).unwrap();
    let layout = Layout { slide: 0, byte_span: 0x2000 };
    let result = map_segments_pae(&parsed, &blob, &layout, &mut scheme, &mut tables, &mut table_frames, &mut image_frames, &mut image);
    assert_eq!(result, Err(MapSegmentsError::OutOfMemory));
}

#[test]
fn pae_executable_is_placed() {
    let (scheme, mut tables, mut table_frames) = pae();
    let mut image_frames = FrameAllocator::new(0x2_0000, 0x3_0000).unwrap();
    let mut image = PhysicalBytes::zeroed(0x3_0000);
    let blob: Vec<u8> = (0..0x40u8).collect();
    let parsed = elf(vec![header(0x40_0000, 0x10, 0x8, 0x20, 0), header(0x40_1000, 0x20, 0x4, 0x1800, SEGMENT_WRITE)]);
    let placed = place_pae(&parsed, &blob, scheme, &mut tables, &mut table_frames, &mut image_frames, &mut image);
    let (scheme, entry, base, slide) = match placed {
        Ok(placed) => placed,
        Err(_) => panic!("placement failed"),
    };
    assert_eq!((entry, base, slide), (0x40_0000, 0x2_0000, 0));
    assert_eq!(scheme.translate(&tables, 0x40_1004), Some((Permissions::ReadWrite, MappingType::Normal, 0x2_1004)));
    assert_eq!(image.read_u8(0x2_0000), 0x10);
}
