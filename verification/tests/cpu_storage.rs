use lib::cpu_storage::{base_cpu_storage, finalize_cpu_data, handle_stack_allocation, handle_storage_allocation, ArchCodeLayout, SwitchData, GDT_OFFSET};
use lib::elf::Machine;
use lib::x86_paging::{PagingMode, X86CommonScheme, X86Features};

fn scheme(max_paging_mode: PagingMode, machine: u16) -> X86CommonScheme {
    let features = X86Features { max_paging_mode, cpuid: true, nx: true, pse: true, pse36: false, physical_bits: 46 };
    match X86CommonScheme::max_supported(Machine(machine), features, Some(0x5000)) {
        Ok(scheme) => scheme,
        Err(_) => panic!("scheme"),
    }
}

#[test]
fn base_storage_for_long_mode() {
    let storage = base_cpu_storage(&scheme(PagingMode::Level4, Machine::X86_64), PagingMode::Level4, Some(1 << 29));
    assert_eq!((storage.executable.cs, storage.executable.ds, storage.executable.ss), (24, 32, 32));
    assert_eq!(storage.executable.cr0, 0x8001_0001);
    assert_eq!(storage.executable.cr3, 0x5000);
    assert_eq!(storage.executable.cr4, 0x30);
    assert_eq!(storage.executable.efer, 0x900);
    assert_eq!(storage.stub.efer, 0x100);
    assert_eq!(storage.change_efer, 1);
    assert_eq!(storage.gdt[3], 0x00AF_9B00_0000_FFFF);
    assert_eq!(storage.executable.rsp, 0);
}

#[test]
fn base_storage_for_pae_without_cpuid() {
    let storage = base_cpu_storage(&scheme(PagingMode::Pae, Machine::INTEL_386), PagingMode::Bits32, None);
    assert_eq!((storage.executable.cs, storage.executable.ds), (8, 16));
    assert_eq!(storage.executable.cr4, 0x30);
    assert_eq!(storage.executable.efer, 0x800);
    assert_eq!(storage.stub.efer, 0);
    assert_eq!(storage.change_efer, 0);
    // Neither the NX nor the LM flag.
    let storage = base_cpu_storage(&scheme(PagingMode::Pae, Machine::INTEL_386), PagingMode::Bits32, Some(1 << 19));
    assert_eq!(storage.change_efer, 0);
    let storage = base_cpu_storage(&scheme(PagingMode::Pae, Machine::INTEL_386), PagingMode::Bits32, Some(1 << 20));
    assert_eq!(storage.change_efer, 1);
}

#[test]
fn allocations_fill_in_the_storage() {
    let mut storage = base_cpu_storage(&scheme(PagingMode::Level4, Machine::X86_64), PagingMode::Level4, None);
    handle_stack_allocation(&mut storage, 0x7FFF_0000);
    assert_eq!(storage.executable.rsp, 0x7FFF_0000);
    assert_eq!(storage.stub.rsp, 0);
    handle_storage_allocation(&mut storage, 0x10_0000);
    assert_eq!(storage.executable.gdtr.size, 39);
    assert_eq!(storage.executable.gdtr.pointer, 0x10_0000 + GDT_OFFSET);
    let executable = ArchCodeLayout { enter_mode: 1, call_handler: 2, call: 3 };
    let stub = ArchCodeLayout { enter_mode: 4, call_handler: 5, call: 6 };
    finalize_cpu_data(&mut storage, executable, stub, 7);
    assert_eq!((storage.executable.enter_mode, storage.executable.call_handler, storage.executable.call), (1, 2, 3));
    assert_eq!((storage.stub.enter_mode, storage.stub.call_handler, storage.stub.call), (4, 7, 6));
    assert_eq!(storage.executable.rsp, 0x7FFF_0000);
}

#[test]
fn switch_data_hands_out_its_scheme() {
    let storage = base_cpu_storage(&scheme(PagingMode::Level4, Machine::X86_64), PagingMode::Level4, None);
    let mut data = SwitchData { scheme: scheme(PagingMode::Pae, Machine::INTEL_386), cpu_data: vec![storage] };
    assert!(matches!(data.scheme(), X86CommonScheme::Pae(_)));
    *data.scheme_mut() = scheme(PagingMode::Level4, Machine::X86_64);
    assert!(matches!(data.scheme(), X86CommonScheme::LongMode(_)));
    assert_eq!(data.cpu_data.len(), 1);
}
