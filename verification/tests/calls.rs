use lib::calls::{handle_call, record_allocation, Call, CallStep, FramePolicy, ALLOCATE_AT, deallocate_frames_func, map_func, unmap_func, write_func, Status, MAP_EXEC, MAP_MAY_OVERWRITE, MAP_WRITE};
use lib::frame_vec::{FrameRange, FrameVec};
use lib::pae::PaeTables;
use lib::paging::{ChunkRange, MappingType, Permissions};
use lib::physical_memory::{FrameAllocator, PhysicalBytes, PhysicalMemory64};
use lib::x86_paging::{PaeTranslationScheme, PagingMode, X86Features};

/// A PAE scheme that maps the page at 0x40_0000 to the frame at 0x5000 and the next page to
/// the frame at 0x3000.
fn scheme() -> (PaeTranslationScheme, PhysicalMemory64) {
    let features = X86Features { max_paging_mode: PagingMode::Pae, cpuid: true, nx: true, pse: true, pse36: false, physical_bits: 36 };
    let mut memory = PhysicalMemory64::zeroed(0x10000 / 8);
    let mut allocator = FrameAllocator::new(0x1000, 0x8000).unwrap();
    let root = PaeTranslationScheme::allocate_zeroed_table(&mut memory, &mut allocator);
    let mut scheme = PaeTranslationScheme::max_supported(features, root).unwrap();
    let first = scheme.map_at(&mut memory, &mut allocator, ChunkRange::new(0x400, 1), ChunkRange::new(0x5, 1), Permissions::Read, MappingType::Normal);
    assert_eq!(first, Ok(()));
    let second = scheme.map_at(&mut memory, &mut allocator, ChunkRange::new(0x401, 1), ChunkRange::new(0x3, 1), Permissions::Read, MappingType::Normal);
    assert_eq!(second, Ok(()));
    (scheme, memory)
}

#[test]
fn write_reads_the_message_across_pages() {
    let (scheme, tables) = scheme();
    let view = PaeTables { scheme: &scheme, memory: &tables };
    let mut memory = PhysicalBytes::zeroed(0x8000);
    memory.write_u8(0x5FFE, b'h');
    memory.write_u8(0x5FFF, b'e');
    memory.write_u8(0x3000, b'y');
    assert_eq!(write_func(&view, &memory, 0x40_0FFE, 3), Ok(vec![b'h', b'e', b'y']));
    assert_eq!(write_func(&view, &memory, 0, 3), Err(Status::InvalidUsage));
    // The third page is not mapped.
    assert_eq!(write_func(&view, &memory, 0x40_1FFF, 2), Err(Status::InvalidUsage));
    // Past the 32-bit address space.
    assert_eq!(write_func(&view, &memory, 0xFFFF_FFFF, 2), Err(Status::InvalidUsage));
    // Malformed and incomplete UTF-8 is refused; a whole two-byte scalar is not.
    memory.write_u8(0x5FF0, 0xFF);
    assert_eq!(write_func(&view, &memory, 0x40_0FF0, 1), Err(Status::InvalidUsage));
    memory.write_u8(0x5FF0, 0xC3);
    assert_eq!(write_func(&view, &memory, 0x40_0FF0, 1), Err(Status::InvalidUsage));
    memory.write_u8(0x5FF1, 0xA9);
    assert_eq!(write_func(&view, &memory, 0x40_0FF0, 2), Ok(vec![0xC3, 0xA9]));
}

#[test]
fn utf8_checks() {
    use_utf8();
}

fn use_utf8() {
    assert!(lib::utf8_check::is_valid_utf8("héllo ✓ 𝄞".as_bytes()));
    assert!(lib::utf8_check::is_valid_utf8(b""));
    assert!(!lib::utf8_check::is_valid_utf8(&[0xC0, 0x80]));
    assert!(!lib::utf8_check::is_valid_utf8(&[0xED, 0xA0, 0x80]));
    assert!(!lib::utf8_check::is_valid_utf8(&[0xF4, 0x90, 0x80, 0x80]));
    assert!(!lib::utf8_check::is_valid_utf8(&[0xE2, 0x9C]));
}

#[test]
fn deallocate_gives_back_held_frames() {
    let (scheme, tables) = scheme();
    let view = PaeTables { scheme: &scheme, memory: &tables };
    let mut allocations = FrameVec::new();
    allocations.add_region(FrameRange::new(0x10, 8));
    assert_eq!(deallocate_frames_func(&view, &mut allocations, 4096, 0x12000, 2), Ok(()));
    let held: Vec<(u64, u64)> = allocations.descriptors().iter().map(|r| (r.start, r.count)).collect();
    assert_eq!(held, vec![(0x10, 2), (0x14, 4)]);
    // Frames that are not held are refused.
    assert_eq!(deallocate_frames_func(&view, &mut allocations, 4096, 0x12000, 1), Err(Status::InvalidUsage));
    assert_eq!(deallocate_frames_func(&view, &mut allocations, 4096, 0x14000, u64::MAX), Err(Status::InvalidUsage));
    let held: Vec<(u64, u64)> = allocations.descriptors().iter().map(|r| (r.start, r.count)).collect();
    assert_eq!(held, vec![(0x10, 2), (0x14, 4)]);
}

fn long_mode() -> (lib::x86_paging::LongModeTranslationScheme, PhysicalMemory64, FrameAllocator) {
    let features = X86Features { max_paging_mode: PagingMode::Level4, cpuid: true, nx: true, pse: true, pse36: false, physical_bits: 46 };
    let mut memory = PhysicalMemory64::zeroed(0x10000 / 8);
    let mut allocator = FrameAllocator::new(0x1000, 0x10000).unwrap();
    let root = lib::x86_paging::LongModeTranslationScheme::allocate_zeroed_table(&mut memory, &mut allocator);
    let scheme = lib::x86_paging::LongModeTranslationScheme::max_supported(features, root).unwrap();
    (scheme, memory, allocator)
}

#[test]
fn map_func_maps_with_the_flags() {
    let (mut scheme, mut memory, mut allocator) = long_mode();
    assert_eq!(map_func(&mut scheme, &mut memory, &mut allocator, 4096, 0x80_0000, 0x40_0000, 2, MAP_WRITE), Ok(()));
    assert_eq!(scheme.translate(&memory, 0x40_1008), Some((Permissions::ReadWrite, MappingType::Normal, 0x80_1008)));
    assert_eq!(scheme.translate(&memory, 0x40_2000), None);
    // Mapped pages are refused unless overwriting is allowed.
    assert_eq!(map_func(&mut scheme, &mut memory, &mut allocator, 4096, 0x90_0000, 0x40_0000, 1, 0), Err(Status::Overlap));
    assert_eq!(
        map_func(&mut scheme, &mut memory, &mut allocator, 4096, 0x90_0000, 0x40_0000, 1, MAP_MAY_OVERWRITE | MAP_EXEC),
        Ok(())
    );
    assert_eq!(scheme.translate(&memory, 0x40_0008), Some((Permissions::ReadExecute, MappingType::Normal, 0x90_0008)));
    // Malformed calls.
    assert_eq!(map_func(&mut scheme, &mut memory, &mut allocator, 4096, 0x90_0000, 0x50_0000, 0, 0), Err(Status::InvalidUsage));
    assert_eq!(map_func(&mut scheme, &mut memory, &mut allocator, 4096, 0x90_0000, 0x50_0000, 1, 0x100), Err(Status::InvalidUsage));
    assert_eq!(
        map_func(&mut scheme, &mut memory, &mut allocator, 4096, 0x90_0000, 0x50_0000, u64::MAX, 0),
        Err(Status::InvalidUsage)
    );
    // Pages in the non-canonical hole.
    assert_eq!(
        map_func(&mut scheme, &mut memory, &mut allocator, 4096, 0x90_0000, 0x1000_0000_0000_0000, 1, 0),
        Err(Status::Overlap)
    );
}

#[test]
fn map_func_runs_out_of_tables() {
    let (mut scheme, mut memory, _) = long_mode();
    let mut empty = FrameAllocator::new(0x8000, 0x8000).unwrap();
    assert_eq!(map_func(&mut scheme, &mut memory, &mut empty, 4096, 0x80_0000, 0x40_0000, 1, 0), Err(Status::OutOfMemory));
}

#[test]
fn unmap_func_unmaps_pages() {
    let (mut scheme, mut memory, mut allocator) = long_mode();
    assert_eq!(map_func(&mut scheme, &mut memory, &mut allocator, 8192, 0x80_0000, 0x40_0000, 1, 0), Ok(()));
    // A page of 8 KiB frames covers two 4 KiB pages.
    assert_eq!(scheme.translate(&memory, 0x40_1000), Some((Permissions::Read, MappingType::Normal, 0x80_1000)));
    assert_eq!(unmap_func(&mut scheme, &mut memory, &allocator, 4096, 0x40_1000, 1), Ok(()));
    assert_eq!(scheme.translate(&memory, 0x40_1000), None);
    assert_eq!(scheme.translate(&memory, 0x40_0000), Some((Permissions::Read, MappingType::Normal, 0x80_0000)));
    assert_eq!(unmap_func(&mut scheme, &mut memory, &allocator, 4096, 0x40_0000, 0), Err(Status::InvalidUsage));
    assert_eq!(unmap_func(&mut scheme, &mut memory, &allocator, 4096, 0x1000_0000_0000_0000, 1), Err(Status::InvalidUsage));
}

#[test]
fn handle_call_dispatches() {
    let (mut scheme, mut tables, mut table_frames) = long_mode();
    let mut memory = PhysicalBytes::zeroed(0x10_0000);
    let mut allocations = FrameVec::new();
    // Map the executable's page at 0x40_0000 to the frame at 0x8_0000, writable.
    let step = handle_call(&mut scheme, &mut tables, &mut table_frames, &memory, &mut allocations, 4096,
        Call::MapPages { physical_address: 0x8_0000, virtual_address: 0x40_0000, count: 1, flags: MAP_WRITE });
    assert!(matches!(step, CallStep::Done(Status::Success)));
    // A message in that page.
    memory.write_u8(0x8_0010, b'o');
    memory.write_u8(0x8_0011, b'k');
    match handle_call(&mut scheme, &mut tables, &mut table_frames, &memory, &mut allocations, 4096, Call::Write { ptr: 0x40_0010, len: 2 }) {
        CallStep::Print(bytes) => assert_eq!(bytes, vec![b'o', b'k']),
        other => panic!("unexpected {:?}", other),
    }
    // An allocation at the address stored at 0x40_0020.
    assert!(lib::calls::write_u64_at(&mut memory, 0x8_0020, 0x20_0000));
    let step = handle_call(&mut scheme, &mut tables, &mut table_frames, &memory, &mut allocations, 4096,
        Call::AllocateFrames { count: 2, flags: ALLOCATE_AT, ptr: 0x40_0020 });
    match step {
        CallStep::Allocate { policy, frames, ptr_address } => {
            assert_eq!(policy, FramePolicy::At(0x20_0000));
            assert_eq!(frames, 2);
            assert_eq!(ptr_address, 0x8_0020);
            assert_eq!(record_allocation(&mut allocations, &mut memory, ptr_address, 4096, frames, Some(0x20_0000)), Ok(()));
        },
        other => panic!("unexpected {:?}", other),
    }
    assert_eq!(lib::calls::read_u64_at(&memory, 0x8_0020), Some(0x20_0000));
    assert!(allocations.contains_region(FrameRange::new(0x200, 2)));
    let step = handle_call(&mut scheme, &mut tables, &mut table_frames, &memory, &mut allocations, 4096,
        Call::DeallocateFrames { address: 0x20_0000, count: 2 });
    assert!(matches!(step, CallStep::Done(Status::Success)));
    assert!(allocations.descriptors().is_empty());
    let step = handle_call(&mut scheme, &mut tables, &mut table_frames, &memory, &mut allocations, 4096,
        Call::UnmapPages { virtual_address: 0x40_0000, count: 1 });
    assert!(matches!(step, CallStep::Done(Status::Success)));
    assert_eq!(scheme.translate(&tables, 0x40_0010), None);
    let step = handle_call(&mut scheme, &mut tables, &mut table_frames, &memory, &mut allocations, 4096,
        Call::AllocateFrames { count: 1, flags: ALLOCATE_AT, ptr: 0x40_0020 });
    assert!(matches!(step, CallStep::Done(Status::InvalidUsage)));
}
