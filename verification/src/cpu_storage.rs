//! The per-processor storage that the switching code reads and writes when it moves between the
//! stub's address space and the executable's on `x86_32` and `x86_64`.
use vstd::prelude::*;

use crate::x86_paging::{PagingMode, X86CommonScheme};

verus! {

/// Storage for a call that crosses address spaces.
#[derive(Clone, Copy, Debug)]
pub struct CallStorage {
    /// The number of the function called.
    pub func_id: u16,
    /// The number of arguments in use.
    pub arg_count: u8,
    /// The arguments.
    pub args: [u64; 6],
    /// The value returned.
    pub ret: u64,
}

/// A `GDTR` or `IDTR` value: the size of the table in bytes, less one, and its address.
#[derive(Clone, Copy, Debug, PartialEq, Eq, Structural)]
pub struct TablePointer {
    /// The size of the table, in bytes, less one.
    pub size: u16,
    /// The linear address of the table.
    pub pointer: u64,
}

/// What the switching code keeps of one side: the addresses of its switching routines and the
/// registers it restores.
#[derive(Clone, Copy, Debug)]
pub struct ModeStorage {
    /// The address of the routine that enters this side.
    pub enter_mode: u64,
    /// The address of the handler of calls into this side.
    pub call_handler: u64,
    /// The address of the routine that makes calls out of this side.
    pub call: u64,
    /// The stored `rax`.
    pub rax: u64,
    /// The stored `rbx`.
    pub rbx: u64,
    /// The stored `rcx`.
    pub rcx: u64,
    /// The stored `rdx`.
    pub rdx: u64,
    /// The stored `rsi`.
    pub rsi: u64,
    /// The stored `rdi`.
    pub rdi: u64,
    /// The stored `rsp`.
    pub rsp: u64,
    /// The stored `rbp`.
    pub rbp: u64,
    /// The stored `r8`.
    pub r8: u64,
    /// The stored `r9`.
    pub r9: u64,
    /// The stored `r10`.
    pub r10: u64,
    /// The stored `r11`.
    pub r11: u64,
    /// The stored `r12`.
    pub r12: u64,
    /// The stored `r13`.
    pub r13: u64,
    /// The stored `r14`.
    pub r14: u64,
    /// The stored `r15`.
    pub r15: u64,
    /// The stored `CS`.
    pub cs: u16,
    /// The stored `DS`.
    pub ds: u16,
    /// The stored `ES`.
    pub es: u16,
    /// The stored `FS`.
    pub fs: u16,
    /// The stored `GS`.
    pub gs: u16,
    /// The stored `SS`.
    pub ss: u16,
    /// `CR0`.
    pub cr0: u64,
    /// `CR3`.
    pub cr3: u64,
    /// `CR4`.
    pub cr4: u64,
    /// The `GDTR`.
    pub gdtr: TablePointer,
    /// The `IDTR`.
    pub idtr: TablePointer,
    /// The `IA32_EFER` MSR.
    pub efer: u64,
    /// Scratch space of the switching code.
    pub tmp_storage: [u64; 5],
}

/// The storage of one processor.
#[derive(Clone, Copy, Debug)]
pub struct CpuStorage {
    /// The call in flight.
    pub call: CallStorage,
    /// The stub's side.
    pub stub: ModeStorage,
    /// The executable's side.
    pub executable: ModeStorage,
    /// Non-zero where `IA32_EFER` is to be changed on a switch.
    pub change_efer: u8,
    /// The descriptor table used by the executable and the switching code.
    pub gdt: [u64; 5],
}

/// The addresses of the switching routines that were placed for one side.
#[derive(Clone, Copy, Debug, PartialEq, Eq, Structural)]
pub struct ArchCodeLayout {
    /// The routine that enters the side.
    pub enter_mode: u64,
    /// The handler of calls into the side.
    pub call_handler: u64,
    /// The routine that makes calls out of the side.
    pub call: u64,
}

/// Where the descriptor table lies in the storage as the switching code lays it out: after the
/// call storage (64 bytes), the two sides (264 bytes each) and the `EFER` flag, aligned to 8.
pub const GDT_OFFSET: u64 = 600;

/// The null, 32-bit code, 32-bit data, 64-bit code and 64-bit data segment descriptors.
pub open spec fn spec_gdt() -> [u64; 5] {
    [0x0000_0000_0000_0000, 0x00CF_9B00_0000_FFFF, 0x00CF_9300_0000_FFFF, 0x00AF_9B00_0000_FFFF, 0x00CF_9300_0000_FFFF]
}

/// `CR0` with paging, write protection and protected mode on.
pub open spec fn spec_cr0() -> u64 {
    0x8001_0001
}

/// `CR4` with `PSE` (bit 4), `PAE` (bit 5) and `LA57` (bit 12) as given.
pub open spec fn spec_cr4(pse: bool, pae: bool, la57: bool) -> u64 {
    ((if pse { 0x10u64 } else { 0 }) + (if pae { 0x20u64 } else { 0 }) + (if la57 { 0x1000u64 } else { 0 })) as u64
}

/// `IA32_EFER` with `NXE` (bit 11) and `LME` (bit 8) as given.
pub open spec fn spec_efer(nxe: bool, long_mode: bool) -> u64 {
    ((if nxe { 0x800u64 } else { 0 }) + (if long_mode { 0x100u64 } else { 0 })) as u64
}

/// Whether `IA32_EFER` may be changed: the `NX` (bit 20) or `LM` (bit 29) flag of the extended
/// feature word `edx`, where the processor has `CPUID`.
pub open spec fn spec_change_efer(extended_features_edx: Option<u32>) -> u8 {
    match extended_features_edx {
        Some(edx) => (((edx >> 20u32) | (edx >> 29u32)) & 1u32) as u8,
        None => 0,
    }
}

/// The stub runs in long mode under `mode`.
pub open spec fn long_mode_paging(mode: PagingMode) -> bool {
    mode == PagingMode::Level4 || mode == PagingMode::Level5
}

/// A side with every field zero.
pub open spec fn spec_zeroed_mode() -> ModeStorage {
    ModeStorage {
        enter_mode: 0,
        call_handler: 0,
        call: 0,
        rax: 0,
        rbx: 0,
        rcx: 0,
        rdx: 0,
        rsi: 0,
        rdi: 0,
        rsp: 0,
        rbp: 0,
        r8: 0,
        r9: 0,
        r10: 0,
        r11: 0,
        r12: 0,
        r13: 0,
        r14: 0,
        r15: 0,
        cs: 0,
        ds: 0,
        es: 0,
        fs: 0,
        gs: 0,
        ss: 0,
        cr0: 0,
        cr3: 0,
        cr4: 0,
        gdtr: TablePointer { size: 0, pointer: 0 },
        idtr: TablePointer { size: 0, pointer: 0 },
        efer: 0,
        tmp_storage: [0, 0, 0, 0, 0],
    }
}

/// Returns a side with every field zero.
pub fn zeroed_mode() -> (mode: ModeStorage)
    ensures
        mode == spec_zeroed_mode(),
{
    ModeStorage {
        enter_mode: 0,
        call_handler: 0,
        call: 0,
        rax: 0,
        rbx: 0,
        rcx: 0,
        rdx: 0,
        rsi: 0,
        rdi: 0,
        rsp: 0,
        rbp: 0,
        r8: 0,
        r9: 0,
        r10: 0,
        r11: 0,
        r12: 0,
        r13: 0,
        r14: 0,
        r15: 0,
        cs: 0,
        ds: 0,
        es: 0,
        fs: 0,
        gs: 0,
        ss: 0,
        cr0: 0,
        cr3: 0,
        cr4: 0,
        gdtr: TablePointer { size: 0, pointer: 0 },
        idtr: TablePointer { size: 0, pointer: 0 },
        efer: 0,
        tmp_storage: [0, 0, 0, 0, 0],
    }
}

/// The storage every processor starts from, for the executable whose paging is `scheme`,
/// with the stub paging under `stub_mode` and `extended_features_edx` read where the
/// processor has `CPUID`.
pub open spec fn spec_base_cpu_storage(
    scheme: &X86CommonScheme,
    stub_mode: PagingMode,
    extended_features_edx: Option<u32>,
) -> CpuStorage {
    let s = scheme.settings();
    let (code, data) = if s.long_mode {
        (24u16, 32u16)
    } else {
        (8u16, 16u16)
    };
    CpuStorage {
        call: CallStorage { func_id: 0, arg_count: 0, args: [0, 0, 0, 0, 0, 0], ret: 0 },
        stub: ModeStorage { efer: if long_mode_paging(stub_mode) { 0x100 } else { 0 }, ..spec_zeroed_mode() },
        executable: ModeStorage {
            cs: code,
            ds: data,
            es: data,
            fs: data,
            gs: data,
            ss: data,
            cr0: spec_cr0(),
            cr3: s.cr3,
            cr4: spec_cr4(s.pse, s.pae, s.la57),
            efer: spec_efer(s.nxe, s.long_mode),
            ..spec_zeroed_mode()
        },
        change_efer: spec_change_efer(extended_features_edx),
        gdt: spec_gdt(),
    }
}

/// Constructs the storage every processor starts from, for the executable whose paging is
/// `scheme`; `stub_mode` is how the stub itself pages and `extended_features_edx` the extended
/// feature word that `CPUID` reports, if the processor has `CPUID`.
pub fn base_cpu_storage(scheme: &X86CommonScheme, stub_mode: PagingMode, extended_features_edx: Option<u32>) -> (storage:
    CpuStorage)
    ensures
        storage == spec_base_cpu_storage(scheme, stub_mode, extended_features_edx),
{
    let (cr3, pse, pae, la57, long_mode, nxe) = match scheme {
        X86CommonScheme::Bits32(s) => (s.cr3(), s.pse(), false, false, false, false),
        X86CommonScheme::Pae(s) => (s.cr3(), true, true, false, false, s.nxe()),
        X86CommonScheme::LongMode(s) => (s.cr3(), true, true, s.la57(), true, s.nxe()),
    };
    let stub_long_mode = match stub_mode {
        PagingMode::Level4 | PagingMode::Level5 => true,
        _ => false,
    };
    let (code, data): (u16, u16) = if long_mode {
        (24, 32)
    } else {
        (8, 16)
    };
    let cr4 = (if pse { 0x10u64 } else { 0 }) + (if pae { 0x20u64 } else { 0 }) + (if la57 { 0x1000u64 } else { 0 });
    let efer = (if nxe { 0x800u64 } else { 0 }) + (if long_mode { 0x100u64 } else { 0 });
    let change_efer: u8 = match extended_features_edx {
        Some(edx) => (((edx >> 20u32) | (edx >> 29u32)) & 1u32) as u8,
        None => 0,
    };
    let mut stub = zeroed_mode();
    stub.efer = if stub_long_mode { 0x100 } else { 0 };
    let mut executable = zeroed_mode();
    executable.cs = code;
    executable.ds = data;
    executable.es = data;
    executable.fs = data;
    executable.gs = data;
    executable.ss = data;
    executable.cr0 = 0x8001_0001;
    executable.cr3 = cr3;
    executable.cr4 = cr4;
    executable.efer = efer;
    CpuStorage {
        call: CallStorage { func_id: 0, arg_count: 0, args: [0, 0, 0, 0, 0, 0], ret: 0 },
        stub,
        executable,
        change_efer,
        gdt: [
            0x0000_0000_0000_0000,
            0x00CF_9B00_0000_FFFF,
            0x00CF_9300_0000_FFFF,
            0x00AF_9B00_0000_FFFF,
            0x00CF_9300_0000_FFFF,
        ],
    }
}

/// Records the routines placed for both sides: the executable's three, and the stub's with
/// `stub_call_handler` as the handler of calls into the stub.
pub fn finalize_cpu_data(
    storage: &mut CpuStorage,
    executable_layout: ArchCodeLayout,
    stub_layout: ArchCodeLayout,
    stub_call_handler: u64,
)
    ensures
        *final(storage) == (CpuStorage {
            executable: ModeStorage {
                enter_mode: executable_layout.enter_mode,
                call_handler: executable_layout.call_handler,
                call: executable_layout.call,
                ..old(storage).executable
            },
            stub: ModeStorage {
                enter_mode: stub_layout.enter_mode,
                call_handler: stub_call_handler,
                call: stub_layout.call,
                ..old(storage).stub
            },
            ..*old(storage)
        }),
{
    storage.executable.enter_mode = executable_layout.enter_mode;
    storage.executable.call_handler = executable_layout.call_handler;
    storage.executable.call = executable_layout.call;
    storage.stub.enter_mode = stub_layout.enter_mode;
    storage.stub.call_handler = stub_call_handler;
    storage.stub.call = stub_layout.call;
}

/// Makes the executable's side start on the stack whose top is `stack_top`.
pub fn handle_stack_allocation(storage: &mut CpuStorage, stack_top: u64)
    ensures
        *final(storage) == (CpuStorage {
            executable: ModeStorage {
                rsp: stack_top,
                ..old(storage).executable
            },
            ..*old(storage)
        }),
{
    storage.executable.rsp = stack_top;
}

/// Points the executable's `GDTR` at the descriptor table of the storage placed at
/// `storage_base`.
pub fn handle_storage_allocation(storage: &mut CpuStorage, storage_base: u64)
    requires
        storage_base + GDT_OFFSET <= u64::MAX,
    ensures
        *final(storage) == (CpuStorage {
            executable: ModeStorage {
                gdtr: TablePointer { size: 39u16, pointer: (storage_base + GDT_OFFSET) as u64 },
                ..old(storage).executable
            },
            ..*old(storage)
        }),
{
    storage.executable.gdtr = TablePointer { size: 5 * 8 - 1, pointer: storage_base + GDT_OFFSET };
}

/// What the calls that cross address spaces need once switching is set up: the executable's
/// paging, and the storage of each processor.
pub struct SwitchData {
    /// The paging of the executable's address space.
    pub scheme: X86CommonScheme,
    /// The storage of each processor, by processor number.
    pub cpu_data: Vec<CpuStorage>,
}

impl SwitchData {
    /// Returns the paging of the executable's address space.
    pub fn scheme(&self) -> (scheme: &X86CommonScheme)
        ensures
            *scheme == self.scheme,
    {
        &self.scheme
    }

    /// Returns the paging of the executable's address space, to be changed.
    pub fn scheme_mut(&mut self) -> (scheme: &mut X86CommonScheme)
        ensures
            *scheme == old(self).scheme,
            final(self).scheme == *final(scheme),
            final(self).cpu_data@ == old(self).cpu_data@,
    {
        &mut self.scheme
    }
}

} // verus!
