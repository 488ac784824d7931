use lib::paging::{ChunkRange, MapError, MappingType, Permissions};
use lib::physical_memory::{FrameAllocator, PhysicalMemory32};
use lib::x86_paging::{Bits32TranslationScheme, PagingMode, X86Features};

fn features(pse: bool) -> X86Features {
    X86Features { max_paging_mode: PagingMode::Bits32, cpuid: true, nx: false, pse, pse36: pse, physical_bits: 36 }
}

/// A scheme rooted at 0x1000, with table frames from 0x2000 up to `end`.
fn setup(pse: bool, end: u64) -> (Bits32TranslationScheme, PhysicalMemory32, FrameAllocator) {
    let scheme = Bits32TranslationScheme::max_supported(features(pse), Some(0x1000)).unwrap();
    let memory = PhysicalMemory32::zeroed(0x10000 / 4);
    let allocator = FrameAllocator::new(0x2000, end).unwrap();
    (scheme, memory, allocator)
}

#[test]
fn bits_32_map_at_then_translate() {
    let (mut scheme, mut memory, mut allocator) = setup(false, 0x8000);
    let input = ChunkRange::new(0x400, 2);
    let output = ChunkRange::new(0x800, 2);
    assert_eq!(
        scheme.map_at(&mut memory, &mut allocator, input, output, Permissions::ReadWrite, MappingType::Normal),
        Ok(())
    );
    assert_eq!(
        scheme.translate(&memory, 0x40_0123),
        Some((Permissions::ReadWriteExecute, MappingType::Normal, 0x80_0123))
    );
    assert_eq!(
        scheme.translate(&memory, 0x40_1FFF),
        Some((Permissions::ReadWriteExecute, MappingType::Normal, 0x80_1FFF))
    );
    assert_eq!(scheme.translate(&memory, 0x40_2000), None);
    assert_eq!(scheme.translate(&memory, 0x1_0040_0000), None);
    assert_eq!(allocator.next, 0x3000);

    let input = ChunkRange::new(0x500, 1);
    let output = ChunkRange::new(0x900, 1);
    assert_eq!(
        scheme.map_at(&mut memory, &mut allocator, input, output, Permissions::Read, MappingType::Normal),
        Ok(())
    );
    assert_eq!(
        scheme.translate(&memory, 0x50_0010),
        Some((Permissions::ReadExecute, MappingType::Normal, 0x90_0010))
    );
}

#[test]
fn bits_32_translate_large_pages() {
    let (scheme, mut memory, _) = setup(true, 0x8000);
    // Directory entry 1 maps a writable 4 MiB page at 0x1_0080_0000 (bits 16:13 hold address
    // bits 35:32).
    memory.write_u32(0x1000 + 4, 0x80_0000 | (1 << 13) | 0x80 | 3);
    assert_eq!(
        scheme.translate(&memory, 0x40_1234),
        Some((Permissions::ReadWriteExecute, MappingType::Normal, 0x1_0080_1234))
    );
    let (scheme, mut memory, _) = setup(false, 0x8000);
    memory.write_u32(0x1000 + 4, 0x80_0000 | (1 << 13) | 0x80 | 3);
    assert_eq!(scheme.translate(&memory, 0x40_1234), None);
}

#[test]
fn bits_32_map_at_refusals() {
    let (mut scheme, mut memory, mut allocator) = setup(false, 0x8000);
    let read = Permissions::Read;
    let normal = MappingType::Normal;
    assert_eq!(
        scheme.map_at(&mut memory, &mut allocator, ChunkRange::new(0x400, 2), ChunkRange::new(0x800, 3), read, normal),
        Err(MapError::FindFreeRegionError)
    );
    assert_eq!(
        scheme.map_at(&mut memory, &mut allocator, ChunkRange::new(0xF_FFFF, 2), ChunkRange::new(0x800, 2), read, normal),
        Err(MapError::FindFreeRegionError)
    );
    assert_eq!(
        scheme.map_at(&mut memory, &mut allocator, ChunkRange::new(0x400, 1), ChunkRange::new(0x800, 1), read, normal),
        Ok(())
    );
    assert_eq!(
        scheme.map_at(&mut memory, &mut allocator, ChunkRange::new(0x400, 1), ChunkRange::new(0x900, 1), read, normal),
        Err(MapError::FindFreeRegionError)
    );
    let (mut scheme, mut memory, mut allocator) = setup(false, 0x2000);
    assert_eq!(
        scheme.map_at(&mut memory, &mut allocator, ChunkRange::new(0x400, 1), ChunkRange::new(0x800, 1), read, normal),
        Err(MapError::FrameAllocation)
    );
}

#[test]
fn bits_32_unmap_clears_pages() {
    let (mut scheme, mut memory, mut allocator) = setup(false, 0x8000);
    assert_eq!(
        scheme.map_at(
            &mut memory,
            &mut allocator,
            ChunkRange::new(0x400, 3),
            ChunkRange::new(0x800, 3),
            Permissions::ReadWrite,
            MappingType::Normal
        ),
        Ok(())
    );
    scheme.unmap(&mut memory, &allocator, ChunkRange::new(0x401, 1));
    assert!(scheme.translate(&memory, 0x40_0000).is_some());
    assert_eq!(scheme.translate(&memory, 0x40_1000), None);
    assert!(scheme.translate(&memory, 0x40_2000).is_some());
    // Pages whose directory entry is not present are skipped.
    scheme.unmap(&mut memory, &allocator, ChunkRange::new(0x1000, 4));
    assert!(scheme.translate(&memory, 0x40_2000).is_some());
}
