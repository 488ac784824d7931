use lib::calls::Status;
use lib::memory_map::{get_memory_map_func, MemoryDescriptor, MemoryType, DESCRIPTOR_SIZE, DESCRIPTOR_VERSION};
use lib::pae::PaeTables;
use lib::paging::{ChunkRange, MappingType, Permissions};
use lib::physical_memory::{FrameAllocator, PhysicalBytes, PhysicalMemory64};
use lib::x86_paging::{PaeTranslationScheme, PagingMode, X86Features};

/// A PAE scheme that maps the page at 0x40_0000 to the frame at 0x5000.
fn scheme() -> (PaeTranslationScheme, PhysicalMemory64) {
    let features = X86Features { max_paging_mode: PagingMode::Pae, cpuid: true, nx: true, pse: true, pse36: false, physical_bits: 36 };
    let mut memory = PhysicalMemory64::zeroed(0x10000 / 8);
    let mut allocator = FrameAllocator::new(0x1000, 0x8000).unwrap();
    let root = PaeTranslationScheme::allocate_zeroed_table(&mut memory, &mut allocator);
    let mut scheme = PaeTranslationScheme::max_supported(features, root).unwrap();
    let mapped = scheme.map_at(&mut memory, &mut allocator, ChunkRange::new(0x400, 1), ChunkRange::new(0x5, 1), Permissions::ReadWrite, MappingType::Normal);
    assert_eq!(mapped, Ok(()));
    (scheme, memory)
}

fn read_u64(memory: &PhysicalBytes, address: u64) -> u64 {
    let mut value = 0u64;
    for i in 0..8 {
        value |= (memory.read_u8(address + i) as u64) << (8 * i);
    }
    value
}

fn read_u32(memory: &PhysicalBytes, address: u64) -> u32 {
    let mut value = 0u32;
    for i in 0..4 {
        value |= (memory.read_u8(address + i) as u32) << (8 * i);
    }
    value
}

fn write_u64(memory: &mut PhysicalBytes, address: u64, value: u64) {
    for i in 0..8 {
        memory.write_u8(address + i, (value >> (8 * i)) as u8);
    }
}

fn map() -> Vec<MemoryDescriptor> {
    vec![
        MemoryDescriptor { start: 0, count: 0x9F, region_type: MemoryType::Free },
        MemoryDescriptor { start: 0x10_0000, count: 0x100, region_type: MemoryType::AcpiReclaimable },
    ]
}

#[test]
fn memory_map_is_written_into_the_buffer() {
    let (scheme, tables) = scheme();
    let view = PaeTables { scheme: &scheme, memory: &tables };
    let mut memory = PhysicalBytes::zeroed(0x8000);
    // Size word at 0x40_0000, buffer at 0x40_0100, answers at 0x40_0008, 0x40_0010, 0x40_0018.
    write_u64(&mut memory, 0x5000, 0x100);
    let result = get_memory_map_func(&view, &mut memory, &map(), 0x77, false, 0x40_0000, 0x40_0100, 0x40_0008, 0x40_0010, 0x40_0018);
    assert_eq!(result, Ok(()));
    assert_eq!(read_u64(&memory, 0x5100), 0);
    assert_eq!(read_u64(&memory, 0x5108), 0x9F);
    assert_eq!(read_u32(&memory, 0x5110), 0);
    assert_eq!(read_u64(&memory, 0x5118), 0x10_0000);
    assert_eq!(read_u64(&memory, 0x5120), 0x100);
    assert_eq!(read_u32(&memory, 0x5128), 4);
    assert_eq!(read_u64(&memory, 0x5000), 2 * DESCRIPTOR_SIZE);
    assert_eq!(read_u64(&memory, 0x5008), 0x77);
    assert_eq!(read_u64(&memory, 0x5010), DESCRIPTOR_SIZE);
    assert_eq!(read_u64(&memory, 0x5018), DESCRIPTOR_VERSION);
}

#[test]
fn memory_map_with_four_byte_size_words() {
    let (scheme, tables) = scheme();
    let view = PaeTables { scheme: &scheme, memory: &tables };
    let mut memory = PhysicalBytes::zeroed(0x8000);
    write_u64(&mut memory, 0x5000, 0x100);
    let result = get_memory_map_func(&view, &mut memory, &map(), 0x77, true, 0x40_0000, 0x40_0100, 0x40_0008, 0x40_0010, 0x40_0018);
    assert_eq!(result, Ok(()));
    assert_eq!(read_u32(&memory, 0x5000), 48);
    assert_eq!(read_u32(&memory, 0x5010), 24);
}

#[test]
fn memory_map_too_small_buffer_gets_the_count() {
    let (scheme, tables) = scheme();
    let view = PaeTables { scheme: &scheme, memory: &tables };
    let mut memory = PhysicalBytes::zeroed(0x8000);
    write_u64(&mut memory, 0x5000, 0x20);
    let result = get_memory_map_func(&view, &mut memory, &map(), 0x77, false, 0x40_0000, 0x40_0100, 0x40_0008, 0x40_0010, 0x40_0018);
    assert_eq!(result, Err(Status::BufferTooSmall));
    assert_eq!(read_u64(&memory, 0x5000), 2);
    assert_eq!(read_u64(&memory, 0x5100), 0);
}

#[test]
fn memory_map_refuses_bad_pointers() {
    let (scheme, tables) = scheme();
    let view = PaeTables { scheme: &scheme, memory: &tables };
    let mut memory = PhysicalBytes::zeroed(0x8000);
    write_u64(&mut memory, 0x5000, 0x100);
    // A null or misaligned size pointer, or an empty map.
    assert_eq!(get_memory_map_func(&view, &mut memory, &map(), 0, false, 0, 0x40_0100, 0x40_0008, 0x40_0010, 0x40_0018), Err(Status::InvalidUsage));
    assert_eq!(get_memory_map_func(&view, &mut memory, &map(), 0, false, 0x40_0004, 0x40_0100, 0x40_0008, 0x40_0010, 0x40_0018), Err(Status::InvalidUsage));
    assert_eq!(get_memory_map_func(&view, &mut memory, &[], 0, false, 0x40_0000, 0x40_0100, 0x40_0008, 0x40_0010, 0x40_0018), Err(Status::InvalidUsage));
    // A misaligned buffer: the count was written back first.
    assert_eq!(get_memory_map_func(&view, &mut memory, &map(), 0, false, 0x40_0000, 0x40_0104, 0x40_0008, 0x40_0010, 0x40_0018), Err(Status::InvalidUsage));
    assert_eq!(read_u64(&memory, 0x5000), 2);
    // A buffer running into the unmapped page fails at the descriptor that reaches it.
    write_u64(&mut memory, 0x5000, 0x100);
    assert_eq!(get_memory_map_func(&view, &mut memory, &map(), 0, false, 0x40_0000, 0x40_0FF0, 0x40_0008, 0x40_0010, 0x40_0018), Err(Status::InvalidUsage));
    assert_eq!(read_u64(&memory, 0x5FF0), 0);
}
