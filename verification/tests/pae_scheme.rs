use lib::pae::PaeTables;
use lib::paging::{ChunkRange, MapError, MappingType, Permissions, TranslationScheme};
use lib::physical_memory::{FrameAllocator, PhysicalMemory64};
use lib::x86_paging::{PaeTranslationScheme, PagingMode, X86Features};

fn features(nx: bool) -> X86Features {
    X86Features { max_paging_mode: PagingMode::Pae, cpuid: true, nx, pse: true, pse36: false, physical_bits: 36 }
}

/// A scheme whose pointer table is the first frame handed out from 0x1000 up to `end`.
fn setup(nx: bool, end: u64) -> (PaeTranslationScheme, PhysicalMemory64, FrameAllocator) {
    let mut memory = PhysicalMemory64::zeroed(0x10000 / 8);
    let mut allocator = FrameAllocator::new(0x1000, end).unwrap();
    let root = PaeTranslationScheme::allocate_zeroed_table(&mut memory, &mut allocator);
    assert_eq!(root, Some(0x1000));
    let scheme = PaeTranslationScheme::max_supported(features(nx), root).unwrap();
    (scheme, memory, allocator)
}

#[test]
fn pae_map_at_then_translate() {
    let (mut scheme, mut memory, mut allocator) = setup(true, 0x8000);
    let input = ChunkRange::new(0x400, 2);
    let output = ChunkRange::new(0x8_0000, 2);
    let result = scheme.map_at(&mut memory, &mut allocator, input, output, Permissions::ReadWrite, MappingType::Normal);
    assert_eq!(result, Ok(()));
    assert_eq!(
        scheme.translate(&memory, 0x40_0123),
        Some((Permissions::ReadWrite, MappingType::Normal, 0x8000_0123))
    );
    assert_eq!(
        scheme.translate(&memory, 0x40_1FFF),
        Some((Permissions::ReadWrite, MappingType::Normal, 0x8000_1FFF))
    );
    assert_eq!(scheme.translate(&memory, 0x40_2000), None);
    // A directory and a page table were allocated after the pointer table.
    assert_eq!(allocator.next, 0x4000);
    // The pointer table entry carries only the present bit and the address.
    assert_eq!(memory.read_u64(0x1000), 0x2000 | 1);
    assert_eq!(memory.read_u64(0x2000 + 2 * 8), 0x3000 | 3);

    let view = PaeTables { scheme: &scheme, memory: &memory };
    assert_eq!(view.translate(0x40_0008).map(|t| t.2), Some(0x8000_0008));
}

#[test]
fn pae_execution_bit_needs_nxe() {
    let (mut scheme, mut memory, mut allocator) = setup(true, 0x8000);
    assert!(scheme.nxe());
    let input = ChunkRange::new(0x10, 1);
    let output = ChunkRange::new(0x20, 1);
    assert_eq!(
        scheme.map_at(&mut memory, &mut allocator, input, output, Permissions::ReadExecute, MappingType::Normal),
        Ok(())
    );
    assert_eq!(scheme.translate(&memory, 0x10_008), Some((Permissions::ReadExecute, MappingType::Normal, 0x20_008)));
    let second = ChunkRange::new(0x11, 1);
    assert_eq!(
        scheme.map_at(&mut memory, &mut allocator, second, output, Permissions::Read, MappingType::Normal),
        Ok(())
    );
    assert_eq!(scheme.translate(&memory, 0x11_008), Some((Permissions::Read, MappingType::Normal, 0x20_008)));

    let (mut scheme, mut memory, mut allocator) = setup(false, 0x8000);
    assert!(!scheme.nxe());
    assert_eq!(
        scheme.map_at(&mut memory, &mut allocator, input, output, Permissions::ReadWriteExecute, MappingType::Normal),
        Ok(())
    );
    assert_eq!(scheme.translate(&memory, 0x10_008), Some((Permissions::ReadWriteExecute, MappingType::Normal, 0x20_008)));
}

#[test]
fn pae_map_at_refusals() {
    let (mut scheme, mut memory, mut allocator) = setup(true, 0x8000);
    let input = ChunkRange::new(0x400, 1);
    let output = ChunkRange::new(0x800, 1);
    assert_eq!(scheme.map_at(&mut memory, &mut allocator, input, output, Permissions::Read, MappingType::Normal), Ok(()));
    // Already mapped.
    assert_eq!(
        scheme.map_at(&mut memory, &mut allocator, input, output, Permissions::Read, MappingType::Normal),
        Err(MapError::FindFreeRegionError)
    );
    // Beyond 32 bits of input.
    assert_eq!(
        scheme.map_at(&mut memory, &mut allocator, ChunkRange::new(0xF_FFFF, 2), ChunkRange::new(0x800, 2), Permissions::Read, MappingType::Normal),
        Err(MapError::FindFreeRegionError)
    );
    // Beyond 36 bits of output.
    assert_eq!(
        scheme.map_at(&mut memory, &mut allocator, ChunkRange::new(0x500, 1), ChunkRange::new(0x1000_0000, 1), Permissions::Read, MappingType::Normal),
        Err(MapError::FindFreeRegionError)
    );
    // Sizes differ.
    assert_eq!(
        scheme.map_at(&mut memory, &mut allocator, ChunkRange::new(0x500, 2), ChunkRange::new(0x800, 1), Permissions::Read, MappingType::Normal),
        Err(MapError::FindFreeRegionError)
    );
}

#[test]
fn pae_map_at_runs_out_of_frames() {
    // Room for the pointer table and a directory only.
    let (mut scheme, mut memory, mut allocator) = setup(true, 0x3000);
    let input = ChunkRange::new(0x400, 1);
    let output = ChunkRange::new(0x800, 1);
    assert_eq!(
        scheme.map_at(&mut memory, &mut allocator, input, output, Permissions::Read, MappingType::Normal),
        Err(MapError::FrameAllocation)
    );
    assert_eq!(scheme.translate(&memory, 0x40_0000), None);
}

#[test]
fn pae_unmap_then_translate() {
    let (mut scheme, mut memory, mut allocator) = setup(true, 0x8000);
    let input = ChunkRange::new(0x400, 3);
    let output = ChunkRange::new(0x800, 3);
    assert_eq!(scheme.map_at(&mut memory, &mut allocator, input, output, Permissions::Read, MappingType::Normal), Ok(()));
    scheme.unmap(&mut memory, &allocator, ChunkRange::new(0x401, 1));
    assert_eq!(scheme.translate(&memory, 0x40_0000), Some((Permissions::Read, MappingType::Normal, 0x80_0000)));
    assert_eq!(scheme.translate(&memory, 0x40_1000), None);
    assert_eq!(scheme.translate(&memory, 0x40_2010), Some((Permissions::Read, MappingType::Normal, 0x80_2010)));
    // Unmapping pages that were never mapped changes nothing.
    scheme.unmap(&mut memory, &allocator, ChunkRange::new(0x8000, 4));
    assert_eq!(scheme.translate(&memory, 0x40_2010), Some((Permissions::Read, MappingType::Normal, 0x80_2010)));
}

#[test]
fn pae_translate_large_pages_and_reserved_bits() {
    let (scheme, mut memory, _) = setup(true, 0x8000);
    // Pointer table entry 1 -> directory at 0x2000, whose entry 3 maps a writable 2 MiB page and
    // whose entry 4 points to a table but sets a reserved bit.
    memory.write_u64(0x1000 + 8, 0x2000 | 1);
    memory.write_u64(0x2000 + 3 * 8, 0x60_0000 | 0x80 | 3);
    memory.write_u64(0x2000 + 4 * 8, 0x3000 | 3 | (1 << 52));
    memory.write_u64(0x3000, 0x9000 | 1);
    assert_eq!(
        scheme.translate(&memory, 0x4060_0042),
        Some((Permissions::ReadWriteExecute, MappingType::Normal, 0x60_0042))
    );
    assert_eq!(scheme.translate(&memory, 0x4080_0000), None);
    assert_eq!(scheme.translate(&memory, 0x1_0000_0000), None);
}
