use lib::paging::{ChunkRange, MapError, MappingType, Permissions};
use lib::physical_memory::{FrameAllocator, PhysicalMemory64};
use lib::x86_paging::{LongModeTranslationScheme, PagingMode, X86Features};

fn features(mode: PagingMode, nx: bool) -> X86Features {
    X86Features { max_paging_mode: mode, cpuid: true, nx, pse: true, pse36: false, physical_bits: 46 }
}

/// A scheme rooted at 0x1000, with table frames from 0x2000 up to `end`.
fn setup(mode: PagingMode, nx: bool, end: u64) -> (LongModeTranslationScheme, PhysicalMemory64, FrameAllocator) {
    let scheme = LongModeTranslationScheme::max_supported(features(mode, nx), Some(0x1000)).unwrap();
    let memory = PhysicalMemory64::zeroed(0x10000 / 8);
    let allocator = FrameAllocator::new(0x2000, end).unwrap();
    (scheme, memory, allocator)
}

#[test]
fn long_mode_map_at_then_translate() {
    let (mut scheme, mut memory, mut allocator) = setup(PagingMode::Level4, true, 0x8000);
    let input = ChunkRange::new(0x400, 2);
    let output = ChunkRange::new(0x800, 2);
    let result = scheme.map_at(&mut memory, &mut allocator, input, output, Permissions::ReadWrite, MappingType::Normal);
    assert_eq!(result, Ok(()));
    assert_eq!(
        scheme.translate(&memory, 0x40_0123),
        Some((Permissions::ReadWrite, MappingType::Normal, 0x80_0123))
    );
    assert_eq!(
        scheme.translate(&memory, 0x40_1FFF),
        Some((Permissions::ReadWrite, MappingType::Normal, 0x80_1FFF))
    );
    assert_eq!(scheme.translate(&memory, 0x40_2000), None);
    // Three tables below the root were allocated.
    assert_eq!(allocator.next, 0x5000);
}

#[test]
fn long_mode_execute_disable_follows_nxe() {
    let (mut scheme, mut memory, mut allocator) = setup(PagingMode::Level5, true, 0x8000);
    assert!(scheme.la57());
    let input = ChunkRange::new(0x10, 1);
    let output = ChunkRange::new(0x20, 1);
    assert_eq!(
        scheme.map_at(&mut memory, &mut allocator, input, output, Permissions::ReadWriteExecute, MappingType::Normal),
        Ok(())
    );
    assert_eq!(
        scheme.translate(&memory, 0x10_008),
        Some((Permissions::ReadWriteExecute, MappingType::Normal, 0x20_008))
    );

    let (mut scheme, mut memory, mut allocator) = setup(PagingMode::Level4, false, 0x8000);
    assert_eq!(
        scheme.map_at(&mut memory, &mut allocator, input, output, Permissions::ReadExecute, MappingType::Normal),
        Ok(())
    );
    assert_eq!(scheme.translate(&memory, 0x10_008), Some((Permissions::ReadExecute, MappingType::Normal, 0x20_008)));
}

#[test]
fn long_mode_translate_large_pages() {
    let (scheme, mut memory, _) = setup(PagingMode::Level4, true, 0x8000);
    // PML4[0] -> PML3 at 0x2000; PML3[1] maps a 1 GiB page; PML3[2] -> PML2 at 0x3000, whose
    // entry 3 maps a read-only 2 MiB page; neither forbids execution.
    memory.write_u64(0x1000, 0x2000 | 3);
    memory.write_u64(0x2000 + 8, 0x4000_0000 | 0x80 | 3);
    memory.write_u64(0x2000 + 16, 0x3000 | 3);
    memory.write_u64(0x3000 + 24, 0x60_0000 | 0x80 | 1);
    assert_eq!(
        scheme.translate(&memory, 0x4000_1234),
        Some((Permissions::ReadWriteExecute, MappingType::Normal, 0x4000_1234))
    );
    assert_eq!(
        scheme.translate(&memory, 0x8060_0042),
        Some((Permissions::ReadExecute, MappingType::Normal, 0x60_0042))
    );
    assert_eq!(scheme.translate(&memory, 0x8040_0000), None);
    assert_eq!(scheme.translate(&memory, 0x0000_8000_0000_0000), None);
}

#[test]
fn long_mode_map_at_refusals() {
    let (mut scheme, mut memory, mut allocator) = setup(PagingMode::Level4, true, 0x8000);
    let permissions = Permissions::Read;
    let normal = MappingType::Normal;
    // Sizes differ.
    assert_eq!(
        scheme.map_at(&mut memory, &mut allocator, ChunkRange::new(0x400, 2), ChunkRange::new(0x800, 1), permissions, normal),
        Err(MapError::FindFreeRegionError)
    );
    // The input range crosses the non-canonical hole.
    assert_eq!(
        scheme.map_at(
            &mut memory,
            &mut allocator,
            ChunkRange::new(0x7_FFFF_FFFF, 2),
            ChunkRange::new(0x800, 2),
            permissions,
            normal
        ),
        Err(MapError::FindFreeRegionError)
    );
    // The output range leaves the 52-bit physical address space.
    assert_eq!(
        scheme.map_at(
            &mut memory,
            &mut allocator,
            ChunkRange::new(0x400, 2),
            ChunkRange::new(0xFF_FFFF_FFFF, 2),
            permissions,
            normal
        ),
        Err(MapError::FindFreeRegionError)
    );
    // A page that is already mapped.
    assert_eq!(
        scheme.map_at(&mut memory, &mut allocator, ChunkRange::new(0x400, 1), ChunkRange::new(0x800, 1), permissions, normal),
        Ok(())
    );
    assert_eq!(
        scheme.map_at(&mut memory, &mut allocator, ChunkRange::new(0x3FF, 2), ChunkRange::new(0x900, 2), permissions, normal),
        Err(MapError::FindFreeRegionError)
    );
    assert_eq!(scheme.translate(&memory, 0x3F_F000), None);
}

#[test]
fn long_mode_map_at_runs_out_of_frames() {
    let (mut scheme, mut memory, mut allocator) = setup(PagingMode::Level4, true, 0x4000);
    assert_eq!(
        scheme.map_at(
            &mut memory,
            &mut allocator,
            ChunkRange::new(0x400, 1),
            ChunkRange::new(0x800, 1),
            Permissions::Read,
            MappingType::Normal
        ),
        Err(MapError::FrameAllocation)
    );
}

#[test]
fn long_mode_unmap_clears_pages() {
    let (mut scheme, mut memory, mut allocator) = setup(PagingMode::Level4, true, 0x8000);
    let input = ChunkRange::new(0x400, 3);
    let output = ChunkRange::new(0x800, 3);
    assert_eq!(
        scheme.map_at(&mut memory, &mut allocator, input, output, Permissions::ReadWrite, MappingType::Normal),
        Ok(())
    );
    scheme.unmap(&mut memory, &allocator, ChunkRange::new(0x401, 1));
    assert!(scheme.translate(&memory, 0x40_0000).is_some());
    assert_eq!(scheme.translate(&memory, 0x40_1000), None);
    assert!(scheme.translate(&memory, 0x40_2000).is_some());
}

#[test]
fn long_mode_without_nxe_reports_executable() {
    let (mut scheme, mut memory, mut allocator) = setup(PagingMode::Level4, false, 0x8000);
    let input = ChunkRange::new(0x400, 1);
    let output = ChunkRange::new(0x800, 1);
    let result = scheme.map_at(&mut memory, &mut allocator, input, output, Permissions::ReadWriteExecute, MappingType::Normal);
    assert_eq!(result, Ok(()));
    assert_eq!(
        scheme.translate(&memory, 0x40_0000),
        Some((Permissions::ReadWriteExecute, MappingType::Normal, 0x80_0000))
    );
    let input = ChunkRange::new(0x401, 1);
    let output = ChunkRange::new(0x801, 1);
    let result = scheme.map_at(&mut memory, &mut allocator, input, output, Permissions::ReadWrite, MappingType::Normal);
    assert_eq!(result, Ok(()));
    assert_eq!(
        scheme.translate(&memory, 0x40_1000),
        Some((Permissions::ReadWriteExecute, MappingType::Normal, 0x80_1000))
    );
}
