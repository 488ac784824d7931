use lib::address_space::{MapError, ProtectionFlags, PROTECTION_EXEC, PROTECTION_READ, PROTECTION_WRITE};
use lib::long_mode::{OutOfMemory, X86_64AddressSpace};
use lib::physical_memory::{FrameAllocator, PhysicalMemory64};

fn space(la57: bool, tables: u64) -> X86_64AddressSpace {
    let end = 0x1000 + tables * 0x1000;
    let memory = PhysicalMemory64::zeroed(end as usize / 8);
    let allocator = FrameAllocator::new(0x1000, end).unwrap();
    X86_64AddressSpace::new(la57, true, memory, allocator).unwrap()
}

#[test]
fn new_space_needs_a_root_frame() {
    let memory = PhysicalMemory64::zeroed(0x400);
    let allocator = FrameAllocator::new(0x1000, 0x1800).unwrap();
    match X86_64AddressSpace::new(false, false, memory, allocator) {
        Err((OutOfMemory, unchanged)) => assert_eq!(unchanged.words, vec![0u64; 0x400]),
        Ok(_) => panic!("no frame was left for the root table"),
    }
    let s = space(false, 1);
    assert_eq!(s.cr3(), 0x1000);
    assert_eq!(s.page_size(), 4096);
    assert_eq!(s.max_virtual_address(), u64::MAX);
    assert_eq!(s.max_physical_address(), 0xF_FFFF_FFFF_FFFF);
    assert!(s.translate_virt(0).is_err());
    assert!(s.translate_virt(0x40_0000).is_err());
}

#[test]
fn map_then_translate_long_mode() {
    let mut s = space(false, 4);
    let flags = ProtectionFlags(PROTECTION_READ | PROTECTION_WRITE);
    assert_eq!(s.map(0x40_0000, 0x80_0000, 2, flags), Ok(()));
    assert_eq!(s.translate_virt(0x40_0123), Ok(0x80_0123));
    assert_eq!(s.translate_virt(0x40_1FFF), Ok(0x80_1FFF));
    assert!(s.translate_virt(0x40_2000).is_err());
    assert!(s.translate_virt(0x3F_F000).is_err());
    // The entry of the first page: present, writable, execute-disable, and its frame.
    let root = s.cr3();
    let memory = s.memory();
    let pml4 = memory.read_u64(root);
    assert_eq!(pml4 & 1, 1);
}

#[test]
fn map_in_five_levels() {
    let mut s = space(true, 5);
    let flags = ProtectionFlags(PROTECTION_READ | PROTECTION_EXEC);
    assert_eq!(s.map(0x0080_0000_0000_0000, 0x20_0000, 1, flags), Ok(()));
    assert_eq!(s.translate_virt(0x0080_0000_0000_0042), Ok(0x20_0042));
    assert!(s.translate_virt(0x0000_0000_0000_0042).is_err());
}

#[test]
fn map_reports_precheck_errors() {
    let mut s = space(false, 4);
    let flags = ProtectionFlags(PROTECTION_READ);
    assert_eq!(s.map(0x40_0001, 0x80_0000, 1, flags), Err(MapError::AlignmentError));
    assert_eq!(s.map(0x40_0000, 0x80_0800, 1, flags), Err(MapError::AlignmentError));
    assert_eq!(s.map(0x40_0000, 0x80_0000, u64::MAX, flags), Err(MapError::InvalidSize));
    assert_eq!(s.map(0x40_0000, 0xF_FFFF_FFFF_F000, 1, flags), Err(MapError::WrapAroundError));
    assert_eq!(s.map(0xFFFF_FFFF_FFFF_F000, 0x80_0000, 2, flags), Err(MapError::WrapAroundError));
    assert_eq!(s.map(0x0000_7FFF_FFFF_F000, 0x80_0000, 2, flags), Err(MapError::InvalidAddress));
    assert_eq!(s.map(0x0000_8000_0000_0000, 0x80_0000, 1, flags), Err(MapError::InvalidAddress));
    assert!(s.translate_virt(0x40_0000).is_err());
}

#[test]
fn map_runs_out_of_table_frames() {
    let mut s = space(false, 2);
    let flags = ProtectionFlags(PROTECTION_READ);
    assert_eq!(s.map(0x40_0000, 0x80_0000, 1, flags), Err(MapError::AllocationError));
}

#[test]
fn unmap_then_translate_long_mode() {
    let mut s = space(false, 4);
    let flags = ProtectionFlags(PROTECTION_READ | PROTECTION_WRITE);
    assert_eq!(s.map(0x40_0000, 0x80_0000, 3, flags), Ok(()));
    s.unmap(0x40_1000, 1);
    assert_eq!(s.translate_virt(0x40_0010), Ok(0x80_0010));
    assert!(s.translate_virt(0x40_1010).is_err());
    assert_eq!(s.translate_virt(0x40_2010), Ok(0x80_2010));
}

#[test]
fn unreadable_pages_are_not_present() {
    let mut s = space(false, 4);
    assert_eq!(s.map(0x40_0000, 0x80_0000, 1, ProtectionFlags(PROTECTION_WRITE)), Ok(()));
    assert!(s.translate_virt(0x40_0000).is_err());
}

#[test]
fn find_region_skips_mapped_pages_long_mode() {
    let mut s = space(false, 4);
    assert_eq!(s.find_region(2), Ok(0x1000));
    let flags = ProtectionFlags(PROTECTION_READ);
    assert_eq!(s.map(0x2000, 0x80_0000, 1, flags), Ok(()));
    assert_eq!(s.find_region(1), Ok(0x1000));
    assert_eq!(s.find_region(2), Ok(0x3000));
}
