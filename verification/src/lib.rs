//! Verified core of a boot stub that loads an executable into its own address space.
use vstd::prelude::*;

pub mod aarch64;
pub mod address_space;
pub mod bits_32;
pub mod calls;
pub mod command_line;
pub mod context;
pub mod cpu_storage;
pub mod conversion;
pub mod descriptor;
pub mod elf;
pub mod executable;
pub mod frame_vec;
pub mod graph;
pub mod idt;
pub mod initgraph;
pub mod layout;
pub mod long_mode;
pub mod memory_map;
pub mod mapping;
pub mod pae;
pub mod pae_mapping;
pub mod paging;
pub mod physical_memory;
pub mod relocation;
pub mod utf8_check;
pub mod vmsa;
pub mod vmsa_map;
pub mod vmsa_range;
pub mod vmsa_tables;
pub mod x86_64;
pub mod x86_paging;

verus! {

} // verus!
