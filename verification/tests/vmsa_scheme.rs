use lib::aarch64::{PhysicalAddressSpaceSize, VmsaV8Features, VmsaV8TranslationScheme};
use lib::paging::{ChunkRange, MapError, MappingType, Permissions};
use lib::physical_memory::{FrameAllocator, PhysicalMemory64};

/// A 4 KiB-granule scheme with roots at 0x1000 and 0x2000, table frames from 0x3000 up to `end`.
fn setup(end: u64) -> (VmsaV8TranslationScheme, PhysicalMemory64, FrameAllocator) {
    let features = VmsaV8Features {
        el1: true,
        granule_4_supported: true,
        granule_16_supported: false,
        granule_64_supported: false,
        physical_address_bits: PhysicalAddressSpaceSize::Bits48,
    };
    let scheme = VmsaV8TranslationScheme::max_supported(features, Some(0x1000), Some(0x2000)).unwrap();
    let memory = PhysicalMemory64::zeroed(0x10000 / 8);
    let allocator = FrameAllocator::new(0x3000, end).unwrap();
    (scheme, memory, allocator)
}

#[test]
fn vmsa_map_at_then_translate() {
    let (mut scheme, mut memory, mut allocator) = setup(0x10000);
    let input = ChunkRange::new(0x400, 2);
    let output = ChunkRange::new(0x800, 2);
    let result = scheme.map_at(&mut memory, &mut allocator, input, output, Permissions::ReadWrite, MappingType::Normal);
    assert_eq!(result, Ok(()));
    assert_eq!(scheme.translate(&memory, 0x40_0123), Some((Permissions::Read, MappingType::Normal, 0x80_0123)));
    assert_eq!(scheme.translate(&memory, 0x40_1FFF), Some((Permissions::Read, MappingType::Normal, 0x80_1FFF)));
    assert_eq!(scheme.translate(&memory, 0x40_2000), None);
    assert_eq!(scheme.translate(&memory, 0xFFFF_FFFF_FFFF_F000), None);
    // Three tables below the lower root were allocated.
    assert_eq!(allocator.next, 0x6000);
}

#[test]
fn vmsa_map_at_upper_region() {
    let (mut scheme, mut memory, mut allocator) = setup(0x10000);
    let input = ChunkRange::new(0xF_FFFF_FFFF_FFFF, 1);
    let output = ChunkRange::new(0x900, 1);
    let result = scheme.map_at(&mut memory, &mut allocator, input, output, Permissions::Read, MappingType::Normal);
    assert_eq!(result, Ok(()));
    assert_eq!(
        scheme.translate(&memory, 0xFFFF_FFFF_FFFF_F010),
        Some((Permissions::Read, MappingType::Normal, 0x90_0010))
    );
    assert_eq!(scheme.translate(&memory, 0x0000_FFFF_FFFF_F010), None);
}

#[test]
fn vmsa_map_at_refuses() {
    let (mut scheme, mut memory, mut allocator) = setup(0x10000);
    let input = ChunkRange::new(0x400, 1);
    let output = ChunkRange::new(0x800, 1);
    assert_eq!(scheme.map_at(&mut memory, &mut allocator, input, output, Permissions::Read, MappingType::Normal), Ok(()));
    // The page is mapped already.
    assert_eq!(
        scheme.map_at(&mut memory, &mut allocator, input, ChunkRange::new(0x900, 1), Permissions::Read, MappingType::Normal),
        Err(MapError::FindFreeRegionError)
    );
    // The sizes differ.
    assert_eq!(
        scheme.map_at(&mut memory, &mut allocator, ChunkRange::new(0x500, 1), ChunkRange::new(0x900, 2), Permissions::Read, MappingType::Normal),
        Err(MapError::FindFreeRegionError)
    );
    // Between the regions.
    assert_eq!(
        scheme.map_at(&mut memory, &mut allocator, ChunkRange::new(0x10_0000_0000, 1), ChunkRange::new(0x900, 1), Permissions::Read, MappingType::Normal),
        Err(MapError::FindFreeRegionError)
    );
    // Beyond the physical addresses.
    assert_eq!(
        scheme.map_at(&mut memory, &mut allocator, ChunkRange::new(0x500, 1), ChunkRange::new(0x10_0000_0000, 1), Permissions::Read, MappingType::Normal),
        Err(MapError::FindFreeRegionError)
    );
}

#[test]
fn vmsa_map_at_runs_out_of_tables() {
    let (mut scheme, mut memory, mut allocator) = setup(0x4000);
    let input = ChunkRange::new(0x400, 1);
    let output = ChunkRange::new(0x800, 1);
    let result = scheme.map_at(&mut memory, &mut allocator, input, output, Permissions::Read, MappingType::Normal);
    assert_eq!(result, Err(MapError::FrameAllocation));
    assert_eq!(scheme.translate(&memory, 0x40_0000), None);
}

#[test]
fn vmsa_unmap_then_translate() {
    let (mut scheme, mut memory, mut allocator) = setup(0x10000);
    let input = ChunkRange::new(0x400, 2);
    let output = ChunkRange::new(0x800, 2);
    assert_eq!(scheme.map_at(&mut memory, &mut allocator, input, output, Permissions::Read, MappingType::Normal), Ok(()));
    scheme.unmap(&mut memory, &allocator, ChunkRange::new(0x400, 1));
    assert_eq!(scheme.translate(&memory, 0x40_0010), None);
    assert_eq!(scheme.translate(&memory, 0x40_1010), Some((Permissions::Read, MappingType::Normal, 0x80_1010)));
    // Unmapping pages whose tables are missing changes nothing.
    scheme.unmap(&mut memory, &allocator, ChunkRange::new(0x8_0000, 4));
    assert_eq!(scheme.translate(&memory, 0x40_1010), Some((Permissions::Read, MappingType::Normal, 0x80_1010)));
    // The page can be mapped again.
    assert_eq!(
        scheme.map_at(&mut memory, &mut allocator, ChunkRange::new(0x400, 1), ChunkRange::new(0x900, 1), Permissions::Read, MappingType::Normal),
        Ok(())
    );
    assert_eq!(scheme.translate(&memory, 0x40_0010), Some((Permissions::Read, MappingType::Normal, 0x90_0010)));
}
