use lib::aarch64::{
    tcr, Aarch64Scheme, Aarch64SchemeError, Granule, PhysicalAddressSpaceSize, VmsaV8Features,
    VmsaV8TranslationScheme,
};
use lib::context::{check_sizes, power_of_two, AllocationPolicy, Context, ContextImpl, OutOfMemory};
use lib::descriptor::AddressSpaceDescriptor;
use lib::elf::Machine;
use lib::graph::{clear_waiting, State};
use lib::idt::{Idt, IdtEntry};
use lib::x86_paging::{
    new_address_space, physical_bits, PagingMode, X86CommonScheme, X86CommonSchemeError, X86Features,
};

#[test]
fn descriptor_ranges() {
    let d = AddressSpaceDescriptor::new(48, true);
    assert_eq!(d.valid_ranges(), [(0, 0x7FFF_FFFF_FFFF), (0xFFFF_8000_0000_0000, u64::MAX)]);
    assert!(d.is_valid(0x7FFF_FFFF_FFFF));
    assert!(!d.is_valid(0x8000_0000_0000));
    assert!(d.is_valid(u64::MAX));
    assert!(d.is_valid_range(0x1000, 0x2000));
    assert!(!d.is_valid_range(0x7FFF_FFFF_F000, 0xFFFF_8000_0000_0000));
    assert!(!d.is_valid_range(0x2000, 0x1000));
    let flat = AddressSpaceDescriptor::new(32, false);
    assert_eq!(flat.valid_ranges(), [(0, 0xFFFF_FFFF), (1, 0)]);
    let full = AddressSpaceDescriptor::bit_range(64, 0);
    assert!(full.is_valid(u64::MAX));
}

#[test]
fn physical_bits_from_cpuid() {
    assert_eq!(physical_bits(false, 0, 0, 0, 0), 32);
    assert_eq!(physical_bits(true, 0x8000_0008, 1, 0, 0x3027), 39);
    assert_eq!(physical_bits(true, 0x8000_0001, 1, 1 << 6, 0), 36);
    assert_eq!(physical_bits(true, 0x8000_0001, 1, 0, 0), 32);
    assert_eq!(physical_bits(true, 0x8000_0001, 0, 1 << 6, 0), 32);
}

fn features(mode: PagingMode) -> X86Features {
    X86Features { max_paging_mode: mode, cpuid: true, nx: true, pse: true, pse36: false, physical_bits: 46 }
}

#[test]
fn x86_scheme_selection() {
    let x86_64 = Machine(Machine::X86_64);
    match new_address_space(x86_64, PagingMode::Level5, features(PagingMode::Level5), Some(0x5000)) {
        Ok(X86CommonScheme::LongMode(scheme)) => {
            assert!(scheme.la57());
            assert!(scheme.nxe());
            assert_eq!(scheme.cr3(), 0x5000);
            assert_eq!(scheme.chunk_size(), 4096);
        }
        _ => panic!("expected long mode"),
    }
    assert!(matches!(
        new_address_space(x86_64, PagingMode::Level4, features(PagingMode::Level4), None),
        Err(X86CommonSchemeError::OutOfMemory)
    ));
    assert!(matches!(
        new_address_space(x86_64, PagingMode::Pae, features(PagingMode::Pae), Some(0x5000)),
        Err(X86CommonSchemeError::NotSupported)
    ));
    let i386 = Machine(Machine::INTEL_386);
    match new_address_space(i386, PagingMode::Pae, features(PagingMode::Pae), Some(0x6000)) {
        Ok(scheme) => {
            assert!(scheme.pae());
            assert!(!scheme.long_mode());
            assert_eq!(scheme.cr3(), 0x6000);
        }
        Err(_) => panic!("expected PAE"),
    }
    match new_address_space(i386, PagingMode::Bits32, features(PagingMode::Bits32), Some(0x7000)) {
        Ok(scheme) => {
            assert!(scheme.pse());
            assert!(!scheme.pae());
        }
        Err(_) => panic!("expected 32-bit paging"),
    }
    assert!(matches!(
        new_address_space(Machine(Machine::AARCH64), PagingMode::Level4, features(PagingMode::Level4), Some(0)),
        Err(X86CommonSchemeError::NotSupported)
    ));
}

fn vmsa_features() -> VmsaV8Features {
    VmsaV8Features {
        el1: true,
        granule_4_supported: true,
        granule_16_supported: false,
        granule_64_supported: false,
        physical_address_bits: PhysicalAddressSpaceSize::Bits48,
    }
}

#[test]
fn vmsa_configuration_and_tcr() {
    let scheme = VmsaV8TranslationScheme::max_supported(vmsa_features(), Some(0x1000), Some(0x2000)).unwrap();
    assert_eq!(scheme.granule(), Granule::Page4KiB);
    assert_eq!(scheme.granule().size(), 4096);
    assert_eq!(scheme.t0sz(), 16);
    assert_eq!(scheme.t1sz(), 16);
    assert_eq!(scheme.ttbr0(), 0x1000);
    assert_eq!(scheme.ttbr1(), 0x2000);
    assert_eq!(scheme.chunk_size(), 4096);
    let expected = 16 | (1 << 8) | (1 << 10) | (3 << 12) | (16 << 16) | (1 << 24) | (1 << 26) | (3 << 28)
        | (2u64 << 30) | (5u64 << 32);
    assert_eq!(tcr(&scheme), expected);
    assert!(VmsaV8TranslationScheme::max_supported(vmsa_features(), None, Some(0x2000)).is_none());
}

#[test]
fn aarch64_scheme_selection() {
    let scheme = Aarch64Scheme::max_supported(Machine(Machine::AARCH64), vmsa_features(), Some(0x1000), Some(0x2000));
    assert!(scheme.is_ok());
    assert!(matches!(
        Aarch64Scheme::max_supported(Machine(Machine::X86_64), vmsa_features(), Some(0x1000), Some(0x2000)),
        Err(Aarch64SchemeError::NotSupported)
    ));
}

struct FixedPlatform {
    answer: Result<u64, OutOfMemory>,
    asked: u32,
}

impl ContextImpl for FixedPlatform {
    fn physical_bits(&self) -> u8 {
        32
    }

    fn frame_size(&self) -> u64 {
        4096
    }

    fn page_size(&self) -> usize {
        4096
    }

    fn allocate_frames(&mut self, _kind: AllocationPolicy, _count: u64) -> Result<u64, OutOfMemory> {
        self.asked += 1;
        self.answer
    }
}

#[test]
fn context_sizes_and_checks() {
    let context = Context::new(FixedPlatform { answer: Ok(0x1000), asked: 0 }).unwrap();
    assert_eq!(context.physical_bits(), 32);
    assert_eq!(context.physical_address_mask(), 0xFFFF_FFFF);
    assert!(context.is_valid_physical_address(0xFFFF_FFFF));
    assert!(!context.is_valid_physical_address(0x1_0000_0000));
    assert!(context.is_valid_physical_size(0xFFFF_FFFF));
    assert_eq!(context.frame_size(), 4096);
    assert_eq!(context.page_size(), 4096);
}

#[test]
fn context_allocation_policies() {
    let mut context = Context::new(FixedPlatform { answer: Ok(0x1000), asked: 0 }).unwrap();
    assert_eq!(context.allocate_frames(AllocationPolicy::Any, 2), Ok(0x1000));
    assert_eq!(context.allocate_frames(AllocationPolicy::At(0x1000), 1), Ok(0x1000));
    assert_eq!(context.allocate_frames(AllocationPolicy::At(0x2000), 1), Err(OutOfMemory));
    assert_eq!(context.allocate_frames(AllocationPolicy::Below(0x2000), 1), Ok(0x1000));
    assert_eq!(context.allocate_frames(AllocationPolicy::Below(0x1800), 1), Err(OutOfMemory));
    assert_eq!(context.allocate_frames(AllocationPolicy::Any, 0x10_0000), Err(OutOfMemory));
    let mut unaligned = Context::new(FixedPlatform { answer: Ok(0x1001), asked: 0 }).unwrap();
    assert_eq!(unaligned.allocate_frames(AllocationPolicy::Any, 1), Err(OutOfMemory));
}

#[test]
fn idt_entries() {
    let entry = IdtEntry::new(0x1234_5678_9ABC_DEF0, 0x8, 0x8E, 1);
    assert_eq!(entry.offset_low, 0xDEF0);
    assert_eq!(entry.offset_middle, 0x9ABC);
    assert_eq!(entry.offset_high, 0x1234_5678);
    assert_eq!(entry.selector, 0x8);
    assert_eq!(entry.attributes, 0x8E);
    assert_eq!(entry.ist, 1);
    let missing = IdtEntry::missing();
    assert_eq!(missing.offset_low, 0);
    assert_eq!(missing.attributes, 0);
    let mut idt = Idt::new();
    idt.set_handler(3, 0x1000, 0x8, 0x8E, 0);
}

#[test]
fn clear_waiting_resets_only_waiting_nodes() {
    let mut states = vec![State::WaitingForProcessing, State::Active, State::WaitingForProcessing, State::Failed];
    clear_waiting(&mut states);
    assert_eq!(states, vec![State::Enabled, State::Active, State::Enabled, State::Failed]);
}

#[test]
fn context_checks_reported_sizes() {
    assert!(power_of_two(1));
    assert!(power_of_two(4096));
    assert!(power_of_two(0x8000_0000_0000_0000));
    assert!(!power_of_two(0));
    assert!(!power_of_two(4097));
    assert!(check_sizes(32, 4096, 4096));
    assert!(check_sizes(64, 0x8000_0000_0000_0000, 4096));
    assert!(!check_sizes(0, 4096, 4096));
    assert!(!check_sizes(65, 4096, 4096));
    assert!(!check_sizes(32, 3000, 4096));
    assert!(!check_sizes(32, 4096, 3000));
    assert!(!check_sizes(12, 4096, 4096));
    assert!(check_sizes(13, 4096, 4096));
    let platform = FixedPlatform { answer: Ok(0x1000), asked: 0 };
    assert!(Context::from_sizes(platform, 32, 0x3000, 4096).is_none());
    let platform = FixedPlatform { answer: Ok(0x1000), asked: 0 };
    let context = Context::from_sizes(platform, 40, 0x2000, 0x4000).unwrap();
    assert_eq!(context.physical_bits(), 40);
    assert_eq!(context.frame_size(), 0x2000);
    assert_eq!(context.page_size(), 0x4000);
}

#[test]
fn context_refused_requests_and_answers() {
    let context = Context::new(FixedPlatform { answer: Ok(0x1000), asked: 0 }).unwrap();
    assert!(!context.refuses(AllocationPolicy::Any, 2));
    assert!(context.refuses(AllocationPolicy::Any, 0x10_0000));
    assert!(context.refuses(AllocationPolicy::At(0xFFFF_F000), 2));
    assert!(!context.refuses(AllocationPolicy::At(0xFFFF_F000), 1));
    assert!(context.refuses(AllocationPolicy::Below(0x1000), 1));
    assert_eq!(context.check_answer(AllocationPolicy::Any, 1, Ok(0x3000)), Ok(0x3000));
    assert_eq!(context.check_answer(AllocationPolicy::Any, 1, Ok(0x3001)), Err(OutOfMemory));
    assert_eq!(context.check_answer(AllocationPolicy::Any, 1, Err(OutOfMemory)), Err(OutOfMemory));
    assert_eq!(context.check_answer(AllocationPolicy::At(0x3000), 1, Ok(0x3000)), Ok(0x3000));
    assert_eq!(context.check_answer(AllocationPolicy::At(0x3000), 1, Ok(0x4000)), Err(OutOfMemory));
    assert_eq!(context.check_answer(AllocationPolicy::Below(0x4000), 1, Ok(0x3000)), Ok(0x3000));
    assert_eq!(context.check_answer(AllocationPolicy::Below(0x4000), 2, Ok(0x3000)), Err(OutOfMemory));
    assert_eq!(context.check_answer(AllocationPolicy::Any, 2, Ok(0xFFFF_F000)), Err(OutOfMemory));
}

#[test]
fn context_asks_the_platform_once() {
    let mut context = Context::new(FixedPlatform { answer: Ok(0x1000), asked: 0 }).unwrap();
    assert_eq!(context.allocate_frames(AllocationPolicy::Any, 0x10_0000), Err(OutOfMemory));
    assert_eq!(context.allocate_frames(AllocationPolicy::At(0x1000), 1), Ok(0x1000));
}

#[test]
fn switch_idt_points_each_vector_at_its_handler() {
    let idt = Idt::for_switch(0x10_0000, 0x20, 0xA000, 0xA100, 0xA200, 0xA300);
    let handler = |e: IdtEntry| (e.offset_low as u64) | ((e.offset_middle as u64) << 16) | ((e.offset_high as u64) << 32);
    assert_eq!(handler(idt.entry(0)), 0xA000);
    assert_eq!(handler(idt.entry(1)), 0xA100);
    assert_eq!(handler(idt.entry(2)), 0x10_0000 + 2 * 0x20);
    assert_eq!(handler(idt.entry(6)), 0xA200);
    assert_eq!(handler(idt.entry(14)), 0xA300);
    assert_eq!(handler(idt.entry(255)), 0x10_0000 + 255 * 0x20);
    assert_eq!((idt.entry(3).selector, idt.entry(3).attributes, idt.entry(3).ist), (8, 0x8F, 0));
}
