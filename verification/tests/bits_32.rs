use lib::address_space::{MapError, ProtectionFlags, PROTECTION_EXEC, PROTECTION_READ, PROTECTION_WRITE};
use lib::bits_32::{Bits32AddressSpace, Bits32Error, TranslationDescriptor};
use lib::paging::{find_free_region, ChunkRange, MappingType, Permissions, SearchStrategy, TranslationScheme};
use lib::physical_memory::{FrameAllocator, PhysicalMemory32};

fn space(tables: u64) -> Bits32AddressSpace {
    let memory = PhysicalMemory32::zeroed((0x1000 + tables * 0x1000) as usize / 4);
    let allocator = FrameAllocator::new(0x1000, 0x1000 + tables * 0x1000).unwrap();
    Bits32AddressSpace::new(false, false, true, true, memory, allocator).unwrap()
}

#[test]
fn descriptor_bits() {
    let d = TranslationDescriptor::non_present()
        .set_present(true)
        .set_writable(true)
        .set_page_address(0x1234_5000);
    assert!(d.present());
    assert!(d.writable());
    assert_eq!(d.page_address(), 0x1234_5000);
    assert_eq!(d.to_bits(), 0x1234_5003);
    assert_eq!(TranslationDescriptor::from_bits(0x1234_5003).to_bits(), 0x1234_5003);
    assert!(!TranslationDescriptor::non_present().present());
}

#[test]
fn new_space_checks_features_and_memory() {
    let memory = PhysicalMemory32::zeroed(0x800);
    let allocator = FrameAllocator::new(0x1000, 0x2000).unwrap();
    assert!(matches!(
        Bits32AddressSpace::new(true, false, false, false, memory, allocator),
        Err(Bits32Error::NotActive)
    ));
    let memory = PhysicalMemory32::zeroed(0x800);
    let allocator = FrameAllocator::new(0x1000, 0x1800).unwrap();
    assert!(matches!(
        Bits32AddressSpace::new(false, false, false, false, memory, allocator),
        Err(Bits32Error::OutOfMemory)
    ));
    let s = space(2);
    assert_eq!(s.cr3(), 0x1000);
    assert_eq!(s.page_size(), 4096);
    assert_eq!(s.max_virtual_address(), 0xFFFF_FFFF);
    assert_eq!(s.max_physical_address(), 0xFFFF_FFFF);
}

#[test]
fn map_then_translate() {
    let mut s = space(4);
    let flags = ProtectionFlags(PROTECTION_READ | PROTECTION_WRITE);
    assert_eq!(s.map(0x40_0000, 0x80_0000, 2, flags), Ok(()));
    let (pa, f) = s.translate_virt(0x40_0123).unwrap();
    assert_eq!(pa, 0x80_0123);
    assert!(f.readable() && f.writable() && f.executable());
    assert_eq!(s.translate_virt(0x40_1FFF).unwrap().0, 0x80_1FFF);
    assert!(s.translate_virt(0x40_2000).is_err());
    assert!(s.translate_virt(0x1_0000_0000).is_err());
}

#[test]
fn map_read_only_is_not_writable() {
    let mut s = space(4);
    assert_eq!(s.map(0x1000, 0x5000, 1, ProtectionFlags(PROTECTION_READ | PROTECTION_EXEC)), Ok(()));
    let (_, f) = s.translate_virt(0x1000).unwrap();
    assert!(!f.writable());
}

#[test]
fn map_errors() {
    let mut s = space(4);
    let flags = ProtectionFlags(PROTECTION_READ);
    assert_eq!(s.map(0x1001, 0x5000, 1, flags), Err(MapError::AlignmentError));
    assert_eq!(s.map(0x1000, 0x5001, 1, flags), Err(MapError::AlignmentError));
    assert_eq!(s.map(0x1000, 0x5000, u64::MAX, flags), Err(MapError::InvalidSize));
    assert_eq!(s.map(0xFFFF_F000, 0x5000, 1, flags), Err(MapError::WrapAroundError));
    assert_eq!(s.map(0x1000, 0xFFFF_F000, 1, flags), Err(MapError::WrapAroundError));
    assert_eq!(s.map(0x1000, 0x5000, 1, flags), Ok(()));
    assert_eq!(s.map(0x0, 0x5000, 2, flags), Err(MapError::OverlapError));
}

#[test]
fn map_runs_out_of_tables() {
    let mut s = space(1);
    let flags = ProtectionFlags(PROTECTION_READ);
    assert_eq!(s.map(0x1000, 0x5000, 1, flags), Err(MapError::AllocationError));
}

#[test]
fn unmap_then_translate_fails() {
    let mut s = space(4);
    let flags = ProtectionFlags(PROTECTION_READ);
    assert_eq!(s.map(0x2000, 0x5000, 3, flags), Ok(()));
    s.unmap(0x3000, 1);
    assert!(s.translate_virt(0x2000).is_ok());
    assert!(s.translate_virt(0x3000).is_err());
    assert!(s.translate_virt(0x4000).is_ok());
}

#[test]
fn map_then_unmap_restores() {
    let mut s = space(4);
    let flags = ProtectionFlags(PROTECTION_READ);
    assert_eq!(s.map(0x2000, 0x5000, 2, flags), Ok(()));
    s.unmap(0x2000, 2);
    assert!(s.translate_virt(0x2000).is_err());
    assert!(s.translate_virt(0x3000).is_err());
    assert_eq!(s.map(0x2000, 0x9000, 2, flags), Ok(()));
    assert_eq!(s.translate_virt(0x3004).unwrap().0, 0xA004);
}

#[test]
fn find_region_skips_mapped_pages() {
    let mut s = space(4);
    assert_eq!(s.find_region(2), Ok(0x1000));
    assert_eq!(s.map(0x2000, 0x5000, 1, ProtectionFlags(PROTECTION_READ)), Ok(()));
    assert_eq!(s.find_region(2), Ok(0x3000));
    assert_eq!(s.find_region(1), Ok(0x1000));
    assert!(s.find_region(0x10_0000).is_err());
}

#[test]
fn scheme_translate_and_free_region_search() {
    let mut s = space(4);
    assert_eq!(s.map(0x0, 0x5000, 1, ProtectionFlags(PROTECTION_READ | PROTECTION_WRITE)), Ok(()));
    assert_eq!(
        TranslationScheme::translate(&s, 0x10),
        Some((Permissions::ReadWriteExecute, MappingType::Normal, 0x5010))
    );
    assert_eq!(TranslationScheme::translate(&s, 0x1000), None);
    let found = find_free_region(&s, SearchStrategy::BottomUp, ChunkRange::new(0, 2)).unwrap();
    assert_eq!((found.start, found.count), (1, 2));
    let found = find_free_region(&s, SearchStrategy::TopDown, ChunkRange::new(0, 2)).unwrap();
    assert_eq!((found.start, found.count), (0xF_FFFE, 2));
    assert!(find_free_region(&s, SearchStrategy::BottomUp, ChunkRange::new(0, 0)).is_none());
}
