//! Paging configurations for `i686` and `x86_64` and the choice among them.
use vstd::prelude::*;

use crate::descriptor::{low_mask, AddressSpaceDescriptor};
use vstd::arithmetic::power2::pow2;
use crate::elf::Machine;
use crate::long_mode::{
    address64, block64, end_level, entry_at, entry_target, frame_at, index_at, leaf_entry, leaf_value,
    lemma_frame_at_path, lemma_index_bound, lemma_leaf_value, lemma_mapped_after_page, lemma_offset_path, lemma_unmapped_after_page,
    lemma_path_step, lemma_unreached_below, path_no_xd, path_writable, physical_limit, present64,
    same_path, upper_entries_kept, upper_entries_persist, walk, writable64, xd64,
};
use crate::address_space::{ProtectionFlags, PROTECTION_EXEC, PROTECTION_WRITE};
use crate::bits_32::{lemma_page_in_region, Bits32AddressSpace};
use crate::long_mode::X86_64AddressSpace;
use crate::paging::{ChunkRange, MapError, MappingType, Permissions, TranslationScheme};
use crate::physical_memory::{FrameAllocator, PhysicalMemory32, PhysicalMemory64};
use crate::bits_32::{address32, block32, block_address32, present32, writable32, TranslationDescriptor};

verus! {

/// The paging modes of an x86 processor.
#[derive(Clone, Copy, Debug, PartialEq, Eq, Structural)]
pub enum PagingMode {
    /// Paging is disabled.
    Disabled,
    /// 32-bit paging.
    Bits32,
    /// PAE paging.
    Pae,
    /// 4-level paging.
    Level4,
    /// 5-level paging.
    Level5,
}

/// What the processor reports about its paging support.
#[derive(Clone, Copy, Debug, PartialEq, Eq, Structural)]
pub struct X86Features {
    /// The most capable paging mode that the processor supports.
    pub max_paging_mode: PagingMode,
    /// The `CPUID` instruction is available.
    pub cpuid: bool,
    /// `CPUID` leaf `0x8000_0001` reports the execute-disable bit (`EDX` bit 20).
    pub nx: bool,
    /// `CPUID` leaf `0x1` reports 4 MiB pages (`EDX` bit 3).
    pub pse: bool,
    /// `CPUID` leaf `0x1` reports 36-bit 4 MiB page addresses (`EDX` bit 17).
    pub pse36: bool,
    /// The number of physical address bits that the processor supports.
    pub physical_bits: u8,
}

/// The number of physical address bits from what `CPUID` reports: leaf `0x8000_0008` when
/// present, else 36 when leaf `0x1` reports PAE (`EDX` bit 6), else 32.
pub open spec fn spec_physical_bits(
    cpuid: bool,
    max_extended: u32,
    max_basic: u32,
    leaf_1_edx: u32,
    leaf_8000_0008_eax: u32,
) -> u8 {
    if !cpuid {
        32
    } else if max_extended < 0x8000_0008 {
        if max_basic < 1 {
            32
        } else if (leaf_1_edx >> 6u32) & 1 == 1 {
            36
        } else {
            32
        }
    } else {
        (leaf_8000_0008_eax & 0xFF) as u8
    }
}

/// Returns the number of physical address bits from the `CPUID` values that the processor
/// reports.
pub fn physical_bits(
    cpuid: bool,
    max_extended: u32,
    max_basic: u32,
    leaf_1_edx: u32,
    leaf_8000_0008_eax: u32,
) -> (bits: u8)
    ensures
        bits == spec_physical_bits(cpuid, max_extended, max_basic, leaf_1_edx, leaf_8000_0008_eax),
{
    if !cpuid {
        return 32;
    }
    if max_extended < 0x8000_0008 {
        if max_basic < 0x1 {
            return 32;
        }
        if ((leaf_1_edx >> 6u32) & 0b1) == 0b1 {
            return 36;
        } else {
            return 32;
        }
    }
    (leaf_8000_0008_eax & 0xFF) as u8
}

/// Implementation of 32-bit paging.
pub struct Bits32TranslationScheme {
    /// Physical address of the page directory.
    physical_address: u64,
    /// Whether 4 MiB pages (PSE) are enabled.
    pse: bool,
    /// Whether 4 MiB pages can access beyond 32-bits.
    pse36: bool,
    /// The maximum number of physical address bits supported.
    max_bits: u8,
}

/// Implementation of PAE paging.
pub struct PaeTranslationScheme {
    /// The physical address at which the page directory pointer table is located.
    physical_address: u64,
    /// If `true`, the `NXE` bit should be treated as being set.
    nxe: bool,
    /// The number of physical address bits.
    physical_bits: u8,
}

/// Implementation of long mode paging.
pub struct LongModeTranslationScheme {
    /// The physical address of the top of the page table.
    physical_address: u64,
    /// If `true`, the `LA57` bit should be treated as being set.
    la57: bool,
    /// If `true`, the `NXE` bit should be treated as being set.
    nxe: bool,
}

impl Bits32TranslationScheme {
    /// The root table's address.
    pub closed spec fn spec_cr3(&self) -> u64 {
        self.physical_address
    }

    /// Whether 4 MiB pages are enabled.
    pub closed spec fn spec_pse(&self) -> bool {
        self.pse
    }

    /// Whether 4 MiB pages reach beyond 32 bits.
    pub closed spec fn spec_pse36(&self) -> bool {
        self.pse36
    }

    /// The maximum number of physical address bits.
    pub closed spec fn spec_max_bits(&self) -> u8 {
        self.max_bits
    }

    /// Creates a new [`Bits32TranslationScheme`] with the maximum settings that `features`
    /// allow, rooted at the zeroed table `root_table` if one could be allocated.
    pub fn max_supported(features: X86Features, root_table: Option<u64>) -> (scheme: Option<Self>)
        ensures
            scheme is Some <==> features.max_paging_mode != PagingMode::Disabled && root_table is Some,
            scheme matches Some(s) ==> {
                &&& s.spec_cr3() == root_table.unwrap()
                &&& s.spec_pse() == (features.cpuid && features.pse)
                &&& s.spec_pse36() == (features.cpuid && features.pse36)
                &&& s.spec_max_bits() == if !features.cpuid {
                    32
                } else if features.physical_bits < 40 {
                    features.physical_bits
                } else {
                    40
                }
            },
    {
        if features.max_paging_mode == PagingMode::Disabled {
            return None;
        }
        let (pse, pse36, max_bits) = if features.cpuid {
            let max_bits = if features.physical_bits < 40 { features.physical_bits } else { 40 };
            (features.pse, features.pse36, max_bits)
        } else {
            (false, false, 32)
        };
        match root_table {
            Some(physical_address) => Some(Bits32TranslationScheme { physical_address, pse, pse36, max_bits }),
            None => None,
        }
    }

    /// Returns the required value of the `CR3` register in order to utilize this scheme.
    pub fn cr3(&self) -> (value: u64)
        ensures
            value == self.spec_cr3(),
    {
        self.physical_address
    }

    /// Returns `true` if the page tables should be evaluated as if the `PSE` bit is set.
    pub fn pse(&self) -> (result: bool)
        ensures
            result == self.spec_pse(),
    {
        self.pse
    }

    /// Describes the virtual addresses: 32 bits.
    pub fn input_descriptor(&self) -> (descriptor: AddressSpaceDescriptor)
        ensures
            descriptor == AddressSpaceDescriptor::spec_new(32, false),
            descriptor.wf(),
            descriptor.spec_lower_bits() == 32,
            descriptor.spec_upper_bits() == 0,
    {
        AddressSpaceDescriptor::new(32, false)
    }

    /// Describes the physical addresses: the maximum number of physical address bits.
    pub fn output_descriptor(&self) -> (descriptor: AddressSpaceDescriptor)
        requires
            self.spec_max_bits() <= 64,
        ensures
            descriptor == AddressSpaceDescriptor::spec_new(self.spec_max_bits(), false),
            descriptor.wf(),
            descriptor.spec_lower_bits() == self.spec_max_bits(),
            descriptor.spec_upper_bits() == 0,
    {
        AddressSpaceDescriptor::new(self.max_bits, false)
    }

    /// Returns the size, in bytes, of the smallest translation granule.
    pub fn chunk_size(&self) -> (size: u64)
        ensures
            size == 4096,
    {
        4096
    }
}

/// The table indices and the page offset of an address.
proof fn lemma_address_bits(address: u64)
    by (bit_vector)
    ensures
        (address >> 22u64) & 0x3FF <= 0x3FF,
        (address >> 12u64) & 0x3FF <= 0x3FF,
        address & 0xFFF == address % 4096,
{
}

/// The address fields of a long mode entry lie below 2^52, and its execute-disable bit.
proof fn lemma_entry_fields(e: u64)
    by (bit_vector)
    ensures
        e & 0x000F_FFFF_C000_0000 <= 0x000F_FFFF_C000_0000,
        e & 0x000F_FFFF_FFE0_0000 <= 0x000F_FFFF_FFE0_0000,
        e & 0x000F_FFFF_FFFF_F000 <= 0x000F_FFFF_FFFF_F000,
        (e & 0x8000_0000_0000_0000 == 0) == !(e & 0x8000_0000_0000_0000 == 0x8000_0000_0000_0000),
{
}

/// Every protection that [`protection_of`] gives is readable, and writable as asked.
pub proof fn lemma_protection_bits()
    by (bit_vector)
    ensures
        1u32 & 1 == 1 && 1u32 & 2 != 2,
        3u32 & 1 == 1 && 3u32 & 2 == 2,
        5u32 & 1 == 1 && 5u32 & 2 != 2,
        7u32 & 1 == 1 && 7u32 & 2 == 2,
        1u32 & 4 != 4 && 3u32 & 4 != 4 && 5u32 & 4 == 4 && 7u32 & 4 == 4,
{
}

impl Bits32TranslationScheme {
    /// What translating `address` with the tables held in `memory` gives: the permissions (every
    /// page is readable and executable, and writable where both levels allow it), the memory
    /// type and the physical address; a 4 MiB page where `PSE` is set and the directory entry
    /// maps one. `None` for an address beyond 32 bits or one that is not mapped.
    pub open spec fn spec_translate(&self, memory: PhysicalMemory32, address: u64) -> Option<(Permissions, MappingType, u64)> {
        let pde_address = self.spec_cr3() + ((address >> 22u64) & 0x3FF) * 4;
        if address > 0xFFFF_FFFF || pde_address > u64::MAX {
            None
        } else {
            let pde = memory.word(pde_address / 4);
            if !present32(pde) {
                None
            } else if self.spec_pse() && block32(pde) {
                Some(
                    (
                        Permissions::from_access_spec(writable32(pde), true),
                        MappingType::Normal,
                        (block_address32(pde) + address % 0x40_0000) as u64,
                    ),
                )
            } else {
                let pte = memory.word(address32(pde) / 4 + ((address >> 12u64) & 0x3FF));
                if !present32(pte) {
                    None
                } else {
                    Some(
                        (
                            Permissions::from_access_spec(writable32(pde) && writable32(pte), true),
                            MappingType::Normal,
                            (address32(pte) + address % 4096) as u64,
                        ),
                    )
                }
            }
        }
    }

    /// Translates `address` by walking the tables held in `memory`, returning the permissions,
    /// the memory type and the physical address of its mapping.
    pub fn translate(&self, memory: &PhysicalMemory32, address: u64) -> (result: Option<(Permissions, MappingType, u64)>)
        ensures
            result == self.spec_translate(*memory, address),
    {
        proof {
            AddressSpaceDescriptor::lemma_spec_new(32, false);
            vstd::arithmetic::power2::lemma2_to64();
        }
        if !self.input_descriptor().is_valid(address) {
            return None;
        }
        let pd_index = (address >> 22u64) & 0x3FF;
        let pt_index = (address >> 12u64) & 0x3FF;
        proof {
            lemma_address_bits(address);
        }
        let pde_address = match self.physical_address.checked_add(pd_index * 4) {
            Some(pde_address) => pde_address,
            None => return None,
        };
        let pde = TranslationDescriptor::from_bits(memory.read_u32(pde_address));
        if !pde.present() {
            return None;
        }
        let writable = pde.writable();
        if self.pse && pde.block() {
            let offset = address % (1024 * 4096);
            let bits = pde.0;
            assert(block_address32(bits) <= 0xF_FFC0_0000u64) by (bit_vector);
            return Some((Permissions::from_access(writable, true), MappingType::Normal, pde.block_address() + offset));
        }
        let table_address = pde.table_address() as u64;
        let bits = pde.0;
        assert(address32(bits) % 4096 == 0 && address32(bits) <= 0xFFFF_F000) by (bit_vector);
        let pte_address = table_address + pt_index * 4;
        assert(pte_address / 4 == table_address / 4 + pt_index);
        let pte = TranslationDescriptor::from_bits(memory.read_u32(pte_address));
        if !pte.present() {
            return None;
        }
        let writable = writable && pte.writable();
        let offset = address & 0xFFF;
        Some((Permissions::from_access(writable, true), MappingType::Normal, pte.page_address() as u64 + offset))
    }
}

impl Bits32TranslationScheme {
    /// Hands out the next frame of `allocator` as a table and zeroes it in `memory`.
    pub fn allocate_zeroed_table(memory: &mut PhysicalMemory32, allocator: &mut FrameAllocator) -> (table: Option<u64>)
        requires
            old(allocator).wf(),
            old(allocator).end <= old(memory).byte_len(),
        ensures
            final(allocator).wf(),
            final(allocator).end == old(allocator).end,
            final(memory).words@.len() == old(memory).words@.len(),
            match table {
                Some(t) => {
                    &&& old(allocator).can_allocate()
                    &&& t == old(allocator).next
                    &&& final(allocator).next == t + 4096
                    &&& forall|k: int| t / 4 <= k < t / 4 + 1024 ==> #[trigger] final(memory).word(k) == 0
                    &&& forall|k: int| !(t / 4 <= k < t / 4 + 1024) ==> #[trigger] final(memory).word(k) == old(memory).word(k)
                },
                None => !old(allocator).can_allocate() && *final(memory) == *old(memory) && *final(allocator)
                    == *old(allocator),
            },
    {
        if allocator.next > allocator.end || allocator.end - allocator.next < 4096 {
            return None;
        }
        let table = allocator.next;
        allocator.next = table + 4096;
        let mut i: u64 = 0;
        while i < 1024
            invariant
                i <= 1024,
                table == old(allocator).next,
                table % 4096 == 0,
                table + 4096 <= old(memory).byte_len(),
                memory.words@.len() == old(memory).words@.len(),
                forall|k: int| table / 4 <= k < table / 4 + i ==> #[trigger] memory.word(k) == 0,
                forall|k: int| !(table / 4 <= k < table / 4 + i) ==> #[trigger] memory.word(k) == old(memory).word(k),
            decreases 1024 - i,
        {
            let address = table + i * 4;
            assert(address / 4 == table / 4 + i);
            let ghost before = *memory;
            memory.write_u32(address, 0);
            assert forall|k: int| #[trigger] memory.word(k) == if k == table / 4 + i { 0 } else { before.word(k) } by {}
            i += 1;
        }
        Some(table)
    }
}

impl Bits32TranslationScheme {
    /// The tables of this scheme as held in `memory`, with frames from `allocator`.
    pub open spec fn tables(&self, memory: PhysicalMemory32, allocator: FrameAllocator) -> Bits32AddressSpace {
        Bits32AddressSpace::spec_from_parts(self.spec_cr3(), self.spec_pse(), self.spec_pse36(), memory, allocator)
    }

    /// [`Bits32TranslationScheme::map_at`] maps `input` to `output` with the tables in `memory`:
    /// both ranges are valid and of the same size and no page of `input` is mapped.
    pub open spec fn map_at_accepts(&self, memory: PhysicalMemory32, input: ChunkRange, output: ChunkRange) -> bool {
        &&& AddressSpaceDescriptor::spec_new(32, false).spec_is_valid_range(range_start(input), range_end(input))
        &&& AddressSpaceDescriptor::spec_new(self.spec_max_bits(), false).spec_is_valid_range(
            range_start(output),
            range_end(output),
        )
        &&& input.count == output.count
        &&& forall|k: int| 0 <= k < input.count ==> #[trigger] self.spec_translate(memory, ((input.start + k) * 4096) as u64) is None
    }

    /// Maps the frames of `output` to the pages of `input` with `permissions`, in the tables held
    /// in `memory`, allocating the missing tables from `allocator`. Table entries hold 32-bit
    /// page addresses.
    pub fn map_at(
        &mut self,
        memory: &mut PhysicalMemory32,
        allocator: &mut FrameAllocator,
        input: ChunkRange,
        output: ChunkRange,
        permissions: Permissions,
        mapping_type: MappingType,
    ) -> (result: Result<(), MapError>)
        requires
            old(self).tables(*old(memory), *old(allocator)).wf(),
            old(self).spec_max_bits() <= 64,
            range_fits(input),
            range_fits(output),
            old(self).map_at_accepts(*old(memory), input, output) ==> range_end(output) <= 0xFFFF_FFFF,
        ensures
            *final(self) == *old(self),
            final(self).tables(*final(memory), *final(allocator)).wf(),
            !old(self).map_at_accepts(*old(memory), input, output) ==> result == Err::<(), MapError>(
                MapError::FindFreeRegionError) && *final(memory) == *old(memory) && *final(allocator) == *old(allocator),
            old(self).map_at_accepts(*old(memory), input, output) ==> match result {
                Ok(()) => final(self).tables(*final(memory), *final(allocator)).shows_mapping(
                    &old(self).tables(*old(memory), *old(allocator)),
                    (input.start * 4096) as u64,
                    (output.start * 4096) as u64,
                    protection_of(permissions),
                    input.count as int,
                ),
                Err(error) => {
                    &&& error == MapError::FrameAllocation
                    &&& !final(allocator).can_allocate()
                    &&& exists|done: int| 0 <= done < input.count && #[trigger] final(self).tables(*final(memory), *final(allocator)).shows_mapping(
                        &old(self).tables(*old(memory), *old(allocator)),
                        (input.start * 4096) as u64,
                        (output.start * 4096) as u64,
                        protection_of(permissions),
                        done,
                    ) && !crate::bits_32::present32(final(self).tables(*final(memory), *final(allocator)).pde(
                        (((input.start + done) * 4096) / 0x40_0000) as int))
                },
            },
    {
        proof {
            let s = old(self).tables(*old(memory), *old(allocator));
            Bits32AddressSpace::lemma_from_parts(self.physical_address, self.pse, self.pse36, *old(memory), *old(allocator));
            s.lemma_wf_root();
            AddressSpaceDescriptor::lemma_spec_new(32, false);
            vstd::arithmetic::power2::lemma2_to64();
        }
        let input_start = input.start * 4096;
        let input_end = input_start + (input.count - 1) * 4096 + 4095;
        if !self.input_descriptor().is_valid_range(input_start, input_end) {
            return Err(MapError::FindFreeRegionError);
        }
        let output_start = output.start * 4096;
        let output_end = output_start + (output.count - 1) * 4096 + 4095;
        if !self.output_descriptor().is_valid_range(output_start, output_end) {
            return Err(MapError::FindFreeRegionError);
        }
        if input.count != output.count {
            return Err(MapError::FindFreeRegionError);
        }
        let mut k: u64 = 0;
        while k < input.count
            invariant
                *self == *old(self),
                *memory == *old(memory),
                *allocator == *old(allocator),
                self.tables(*memory, *allocator).wf(),
                self.spec_max_bits() <= 64,
                range_fits(input),
                input_start == input.start * 4096,
                k <= input.count,
                forall|i: int| 0 <= i < k ==> #[trigger] self.spec_translate(*memory, ((input.start + i) * 4096) as u64) is None,
            decreases input.count - k,
        {
            assert(input_start + k * 4096 == (input.start + k) * 4096);
            if self.translate(memory, input_start + k * 4096).is_some() {
                return Err(MapError::FindFreeRegionError);
            }
            k += 1;
        }
        assert(self.map_at_accepts(*old(memory), input, output));
        let protection = protection_flags(permissions);
        let mut tables_memory = PhysicalMemory32 { words: Vec::new() };
        core::mem::swap(&mut tables_memory, memory);
        let mut tables_allocator = FrameAllocator { next: 0, end: 0 };
        core::mem::swap(&mut tables_allocator, allocator);
        let mut space = Bits32AddressSpace::from_parts(self.physical_address, self.pse, self.pse36, tables_memory, tables_allocator);
        let ghost before = space;
        let result = space.map_unchecked(input_start, output_start, input.count, protection);
        let ghost after = space;
        let (final_memory, final_allocator) = space.into_parts();
        *memory = final_memory;
        *allocator = final_allocator;
        proof {
            Bits32AddressSpace::lemma_from_parts(self.physical_address, self.pse, self.pse36, *memory, *allocator);
            assert(before == old(self).tables(*old(memory), *old(allocator)));
            assert(after == self.tables(*memory, *allocator));
        }
        match result {
            Ok(()) => Ok(()),
            Err(_) => Err(MapError::FrameAllocation),
        }
    }

    /// Unmaps the pages of `input` from the tables held in `memory`, whose frames come from
    /// `allocator`.
    pub fn unmap(&mut self, memory: &mut PhysicalMemory32, allocator: &FrameAllocator, input: ChunkRange)
        requires
            old(self).tables(*old(memory), *allocator).wf(),
            range_fits(input),
            AddressSpaceDescriptor::spec_new(32, false).spec_is_valid_range(range_start(input), range_end(input)),
        ensures
            *final(self) == *old(self),
            final(self).tables(*final(memory), *allocator).wf(),
            forall|w: int| 0 <= w < 0x100000 ==> #[trigger] final(self).tables(*final(memory), *allocator).page_entry(w)
                == if input.start <= w < input.start + input.count {
                None
            } else {
                old(self).tables(*old(memory), *allocator).page_entry(w)
            },
    {
        proof {
            Bits32AddressSpace::lemma_from_parts(self.physical_address, self.pse, self.pse36, *old(memory), *allocator);
            AddressSpaceDescriptor::lemma_spec_new(32, false);
            vstd::arithmetic::power2::lemma2_to64();
        }
        let input_start = input.start * 4096;
        let mut tables_memory = PhysicalMemory32 { words: Vec::new() };
        core::mem::swap(&mut tables_memory, memory);
        let tables_allocator = FrameAllocator { next: allocator.next, end: allocator.end };
        let mut space = Bits32AddressSpace::from_parts(self.physical_address, self.pse, self.pse36, tables_memory, tables_allocator);
        space.unmap_present(input_start, input.count);
        let (final_memory, _) = space.into_parts();
        *memory = final_memory;
        proof {
            Bits32AddressSpace::lemma_from_parts(self.physical_address, self.pse, self.pse36, *memory, *allocator);
        }
    }
}

/// After [`Bits32TranslationScheme::map_at`] succeeds, every address of the input range
/// translates to the matching address of the output range, readable and executable, and
/// writable as requested.
pub proof fn law_bits_32_map_at_then_translate(
    scheme: &Bits32TranslationScheme,
    before: PhysicalMemory32,
    before_allocator: FrameAllocator,
    after: PhysicalMemory32,
    after_allocator: FrameAllocator,
    input: ChunkRange,
    output: ChunkRange,
    permissions: Permissions,
    address: u64,
)
    requires
        scheme.tables(before, before_allocator).wf(),
        scheme.tables(after, after_allocator).wf(),
        range_fits(input),
        range_fits(output),
        scheme.map_at_accepts(before, input, output),
        range_end(output) <= 0xFFFF_FFFF,
        scheme.tables(after, after_allocator).shows_mapping(
            &scheme.tables(before, before_allocator),
            (input.start * 4096) as u64,
            (output.start * 4096) as u64,
            protection_of(permissions),
            input.count as int,
        ),
        range_start(input) <= address <= range_end(input),
    ensures
        scheme.spec_translate(after, address) == Some(
            (
                Permissions::from_access_spec(permissions.spec_writable(), true),
                MappingType::Normal,
                (range_start(output) + (address - range_start(input))) as u64,
            ),
        ),
{
    let space = scheme.tables(after, after_allocator);
    let va = (input.start * 4096) as u64;
    let pa = (output.start * 4096) as u64;
    AddressSpaceDescriptor::lemma_spec_new(32, false);
    vstd::arithmetic::power2::lemma2_to64();
    assert(address <= 0xFFFF_FFFF);
    Bits32AddressSpace::lemma_from_parts(scheme.spec_cr3(), scheme.spec_pse(), scheme.spec_pse36(), after, after_allocator);
    space.lemma_walk(address);
    space.lemma_wf_root();
    lemma_page_in_region(va, input.count, address);
    let w = (address / 4096) as int;
    assert(0 <= w < 0x100000);
    let protection = protection_of(permissions);
    assert(protection.0 & 1 == 1 && (protection.0 & 2 == 2) == permissions.spec_writable()) by {
        lemma_protection_bits();
    }
    assert(space.page_entry(w) == scheme.tables(before, before_allocator).mapped_entry(va, pa, protection, input.count as int, w));
    assert(pa + (w - va / 4096) * 4096 < 0x1_0000_0000);
    let page = pa + (w - va / 4096) * 4096;
    assert(space.translation(address) == Some((page + address % 4096, permissions.spec_writable())));
    assert(page + address % 4096 == range_start(output) + (address - range_start(input)));
    let pde_address = scheme.spec_cr3() + ((address >> 22u64) & 0x3FF) * 4;
    lemma_address_bits(address);
    assert(pde_address <= u64::MAX);
}

/// After [`Bits32TranslationScheme::unmap`], no address of the unmapped range translates.
pub proof fn law_bits_32_unmap_then_translate(
    scheme: &Bits32TranslationScheme,
    before: PhysicalMemory32,
    after: PhysicalMemory32,
    allocator: FrameAllocator,
    input: ChunkRange,
    address: u64,
)
    requires
        scheme.tables(after, allocator).wf(),
        range_fits(input),
        AddressSpaceDescriptor::spec_new(32, false).spec_is_valid_range(range_start(input), range_end(input)),
        forall|w: int| 0 <= w < 0x100000 ==> #[trigger] scheme.tables(after, allocator).page_entry(w) == if input.start
            <= w < input.start + input.count {
            None
        } else {
            scheme.tables(before, allocator).page_entry(w)
        },
        range_start(input) <= address <= range_end(input),
    ensures
        scheme.spec_translate(after, address) is None,
{
    let space = scheme.tables(after, allocator);
    AddressSpaceDescriptor::lemma_spec_new(32, false);
    vstd::arithmetic::power2::lemma2_to64();
    assert(address <= 0xFFFF_FFFF);
    Bits32AddressSpace::lemma_from_parts(scheme.spec_cr3(), scheme.spec_pse(), scheme.spec_pse36(), after, allocator);
    space.lemma_walk(address);
    space.lemma_wf_root();
    let w = (address / 4096) as int;
    assert(input.start <= w < input.start + input.count) by (nonlinear_arith)
        requires
            input.start * 4096 <= address <= (input.start + input.count) * 4096 - 1,
            w == address / 4096,
    ;
    assert(space.page_entry(w) is None);
    assert(space.translation(address) is None);
    lemma_address_bits(address);
}

impl PaeTranslationScheme {
    /// The root table's address.
    pub closed spec fn spec_cr3(&self) -> u64 {
        self.physical_address
    }

    /// Whether the `NXE` bit is treated as set.
    pub closed spec fn spec_nxe(&self) -> bool {
        self.nxe
    }

    /// The number of physical address bits.
    pub closed spec fn spec_physical_bits(&self) -> u8 {
        self.physical_bits
    }

    /// Creates a new [`PaeTranslationScheme`] with the maximum settings that `features` allow,
    /// rooted at the zeroed table `root_table` if one could be allocated.
    pub fn max_supported(features: X86Features, root_table: Option<u64>) -> (scheme: Option<Self>)
        ensures
            scheme is Some <==> (features.max_paging_mode != PagingMode::Disabled
                && features.max_paging_mode != PagingMode::Bits32 && root_table is Some),
            scheme matches Some(s) ==> {
                &&& s.spec_cr3() == root_table.unwrap()
                &&& s.spec_nxe() == (features.cpuid && features.nx)
                &&& s.spec_physical_bits() == features.physical_bits
            },
    {
        match features.max_paging_mode {
            PagingMode::Disabled | PagingMode::Bits32 => return None,
            PagingMode::Pae | PagingMode::Level4 | PagingMode::Level5 => {},
        }
        let nxe = if features.cpuid { features.nx } else { false };
        match root_table {
            Some(physical_address) => Some(
                PaeTranslationScheme { physical_address, nxe, physical_bits: features.physical_bits },
            ),
            None => None,
        }
    }

    /// Returns the required value of the `CR3` register in order to utilize this scheme.
    pub fn cr3(&self) -> (value: u64)
        ensures
            value == self.spec_cr3(),
    {
        self.physical_address
    }

    /// Returns `true` if the page tables should be evaluated as if the `NXE` bit is set.
    pub fn nxe(&self) -> (result: bool)
        ensures
            result == self.spec_nxe(),
    {
        self.nxe
    }

    /// Describes the virtual addresses: 32 bits.
    pub fn input_descriptor(&self) -> (descriptor: AddressSpaceDescriptor)
        ensures
            descriptor == AddressSpaceDescriptor::spec_new(32, false),
            descriptor.wf(),
            descriptor.spec_lower_bits() == 32,
            descriptor.spec_upper_bits() == 0,
    {
        AddressSpaceDescriptor::new(32, false)
    }

    /// Describes the physical addresses: the processor's physical address bits.
    pub fn output_descriptor(&self) -> (descriptor: AddressSpaceDescriptor)
        requires
            self.spec_physical_bits() <= 64,
        ensures
            descriptor.wf(),
            descriptor.spec_lower_bits() == self.spec_physical_bits(),
            descriptor.spec_upper_bits() == 0,
    {
        AddressSpaceDescriptor::new(self.physical_bits, false)
    }

    /// Returns the size, in bytes, of the smallest translation granule.
    pub fn chunk_size(&self) -> (size: u64)
        ensures
            size == 4096,
    {
        4096
    }
}

impl LongModeTranslationScheme {
    /// The root table's address.
    pub closed spec fn spec_cr3(&self) -> u64 {
        self.physical_address
    }

    /// Whether the `LA57` bit is treated as set.
    pub closed spec fn spec_la57(&self) -> bool {
        self.la57
    }

    /// Whether the `NXE` bit is treated as set.
    pub closed spec fn spec_nxe(&self) -> bool {
        self.nxe
    }

    /// The scheme rooted at `physical_address` with the given settings.
    pub closed spec fn spec_with(physical_address: u64, la57: bool, nxe: bool) -> Self {
        LongModeTranslationScheme { physical_address, la57, nxe }
    }

    /// A scheme is determined by its root and settings.
    pub proof fn lemma_spec_with(&self, physical_address: u64, la57: bool, nxe: bool)
        ensures
            Self::spec_with(physical_address, la57, nxe).spec_cr3() == physical_address,
            Self::spec_with(physical_address, la57, nxe).spec_la57() == la57,
            Self::spec_with(physical_address, la57, nxe).spec_nxe() == nxe,
            (self.spec_cr3() == physical_address && self.spec_la57() == la57 && self.spec_nxe() == nxe) ==> *self
                == Self::spec_with(physical_address, la57, nxe),
    {
    }

    /// Creates a new [`LongModeTranslationScheme`] with the maximum settings that `features`
    /// allow, rooted at the zeroed table `root_table` if one could be allocated.
    pub fn max_supported(features: X86Features, root_table: Option<u64>) -> (scheme: Option<Self>)
        ensures
            scheme is Some <==> ((features.max_paging_mode == PagingMode::Level4
                || features.max_paging_mode == PagingMode::Level5) && root_table is Some),
            scheme matches Some(s) ==> {
                &&& s.spec_cr3() == root_table.unwrap()
                &&& s.spec_la57() == (features.max_paging_mode == PagingMode::Level5)
                &&& s.spec_nxe() == (features.cpuid && features.nx)
            },
    {
        let paging_mode = features.max_paging_mode;
        if paging_mode != PagingMode::Level4 && paging_mode != PagingMode::Level5 {
            return None;
        }
        let nxe = if features.cpuid { features.nx } else { false };
        match root_table {
            Some(physical_address) => Some(
                LongModeTranslationScheme {
                    physical_address,
                    la57: paging_mode == PagingMode::Level5,
                    nxe,
                },
            ),
            None => None,
        }
    }

    /// Returns the required value of the `CR3` register in order to utilize this scheme.
    pub fn cr3(&self) -> (value: u64)
        ensures
            value == self.spec_cr3(),
    {
        self.physical_address
    }

    /// Returns `true` if the page tables should be evaluated as if the `LA57` bit is set.
    pub fn la57(&self) -> (result: bool)
        ensures
            result == self.spec_la57(),
    {
        self.la57
    }

    /// Returns `true` if the page tables should be evaluated as if the `NXE` bit is set.
    pub fn nxe(&self) -> (result: bool)
        ensures
            result == self.spec_nxe(),
    {
        self.nxe
    }

    /// Describes the virtual addresses: 57 sign-extended bits with `LA57`, 48 otherwise.
    pub fn input_descriptor(&self) -> (descriptor: AddressSpaceDescriptor)
        ensures
            descriptor == AddressSpaceDescriptor::spec_new(if self.spec_la57() { 57u8 } else { 48u8 }, true),
            descriptor.wf(),
            descriptor.spec_lower_bits() == if self.spec_la57() { 56nat } else { 47nat },
            descriptor.spec_upper_bits() == if self.spec_la57() { 56nat } else { 47nat },
    {
        AddressSpaceDescriptor::new(if self.la57 { 57 } else { 48 }, true)
    }

    /// Describes the physical addresses: 52 bits.
    pub fn output_descriptor(&self) -> (descriptor: AddressSpaceDescriptor)
        ensures
            descriptor == AddressSpaceDescriptor::spec_new(52, false),
            descriptor.wf(),
            descriptor.spec_lower_bits() == 52,
            descriptor.spec_upper_bits() == 0,
    {
        AddressSpaceDescriptor::new(52, false)
    }

    /// Returns the size, in bytes, of the smallest translation granule.
    pub fn chunk_size(&self) -> (size: u64)
        ensures
            size == 4096,
    {
        4096
    }

    /// The number of table levels.
    pub open spec fn top(&self) -> nat {
        if self.spec_la57() {
            5
        } else {
            4
        }
    }

    /// `address` is a canonical virtual address.
    pub open spec fn canonical(&self, address: u64) -> bool {
        AddressSpaceDescriptor::spec_new(if self.spec_la57() { 57u8 } else { 48u8 }, true).spec_is_valid(address as int)
    }

    /// What translating `address` with the tables held in `memory` gives: the permissions, the
    /// memory type and the physical address, or `None` for an address that is not canonical or
    /// not mapped.
    pub open spec fn spec_translate(&self, memory: PhysicalMemory64, address: u64) -> Option<(Permissions, MappingType, u64)> {
        if !self.canonical(address) {
            None
        } else {
            match walk(memory, self.spec_cr3() as int, self.top(), self.spec_nxe(), address) {
                Some((writable, executable, physical_address)) => Some(
                    (Permissions::from_access_spec(writable, executable), MappingType::Normal, physical_address as u64),
                ),
                None => None,
            }
        }
    }

    /// Translates `address` by walking the tables held in `memory`, returning the permissions,
    /// the memory type and the physical address of its mapping.
    pub fn translate(&self, memory: &PhysicalMemory64, address: u64) -> (result: Option<(Permissions, MappingType, u64)>)
        requires
            self.spec_cr3() + 511 * 8 <= u64::MAX,
        ensures
            result == self.spec_translate(*memory, address),
    {
        let descriptor = self.input_descriptor();
        if !descriptor.is_valid(address) {
            return None;
        }
        let top: u64 = if self.la57 { 5 } else { 4 };
        let ghost root = self.physical_address as int;
        let ghost t = self.top();
        let ghost m = *memory;
        let nxe = self.nxe;
        let mut level: u64 = top;
        let mut frame: u64 = self.physical_address;
        let mut writable = true;
        let mut executable = true;
        loop
            invariant
                top == t,
                t == self.top(),
                root == self.physical_address,
                m == *memory,
                nxe == self.spec_nxe(),
                self.canonical(address),
                self.spec_cr3() + 511 * 8 <= u64::MAX,
                1 <= level <= top,
                level < top ==> frame <= 0x000F_FFFF_FFFF_F000,
                level == top ==> frame == self.physical_address,
                frame_at(m, root, t, address, level as nat) == Some(frame as int),
                level < 3 ==> entry_at(m, root, t, address, 3) is Some && !block64(entry_at(m, root, t, address, 3)->0),
                level < 2 ==> entry_at(m, root, t, address, 2) is Some && !block64(entry_at(m, root, t, address, 2)->0),
                writable == path_writable(m, root, t, address, (level + 1) as nat),
                executable == (level == top || (!nxe || path_no_xd(m, root, t, address, (level + 1) as nat))),
            decreases level,
        {
            proof {
                lemma_index_bound(address, level as nat);
            }
            let index = (address >> (12 + 9 * (level - 1))) & 0x1FF;
            assert(index == index_at(address, level as nat));
            let entry_address = frame + index * 8;
            assert(entry_address / 8 == frame / 8 + index);
            let e = memory.read_u64(entry_address);
            if e & 1 != 1 {
                proof {
                    assert(entry_at(m, root, t, address, level as nat) is None);
                    if level > 1 {
                        assert(((level - 1) as nat) + 1 == level as nat);
                        assert(frame_at(m, root, t, address, (level - 1) as nat) is None);
                        lemma_unreached_below(m, root, t, address, 1, (level - 1) as nat);
                        if level > 3 {
                            lemma_unreached_below(m, root, t, address, 3, (level - 1) as nat);
                        }
                        if level > 2 {
                            lemma_unreached_below(m, root, t, address, 2, (level - 1) as nat);
                        }
                    }
                    assert(end_level(m, root, t, address) == 1);
                }
                return None;
            }
            proof {
                assert(entry_at(m, root, t, address, level as nat) == Some(e));
                lemma_path_step(m, root, t, address, level as nat);
                assert((e & 2 == 2) == writable64(e));
                lemma_entry_fields(e);
            }
            writable = writable && e & 2 == 2;
            executable = executable && (!nxe || e & 0x8000_0000_0000_0000 == 0);
            if (level == 3 || level == 2) && e & 0x80 == 0x80 {
                let (mask, size): (u64, u64) = if level == 3 {
                    (0x000F_FFFF_C000_0000, 0x4000_0000)
                } else {
                    (0x000F_FFFF_FFE0_0000, 0x20_0000)
                };
                let offset = address % size;
                proof {
                    assert(block64(e));
                    assert(end_level(m, root, t, address) == level);
                }
                return Some((Permissions::from_access(writable, executable), MappingType::Normal, (e & mask) + offset));
            }
            if level == 1 {
                let offset = address & 0xFFF;
                proof {
                    lemma_address_bits(address);
                }
                proof {
                    assert(end_level(m, root, t, address) == 1);
                }
                return Some((Permissions::from_access(writable, executable), MappingType::Normal, (e & 0x000F_FFFF_FFFF_F000) + offset));
            }
            let next = e & 0x000F_FFFF_FFFF_F000;
            proof {
                assert(((level - 1) as nat) + 1 == level as nat);
                assert(frame_at(m, root, t, address, (level - 1) as nat) == Some(next as int));
                if level == 3 {
                    assert(!block64(e));
                }
                if level == 2 {
                    assert(!block64(e));
                }
            }
            frame = next;
            level = level - 1;
        }
    }
}


/// The protection flags of a page mapped with `permissions`: always readable.
pub open spec fn protection_of(permissions: Permissions) -> ProtectionFlags {
    match permissions {
        Permissions::Read => ProtectionFlags(1),
        Permissions::ReadWrite => ProtectionFlags(3),
        Permissions::ReadExecute => ProtectionFlags(5),
        Permissions::ReadWriteExecute => ProtectionFlags(7),
    }
}

/// Returns the protection flags of a page mapped with `permissions`.
fn protection_flags(permissions: Permissions) -> (flags: ProtectionFlags)
    ensures
        flags == protection_of(permissions),
{
    match permissions {
        Permissions::Read => ProtectionFlags(1),
        Permissions::ReadWrite => ProtectionFlags(3),
        Permissions::ReadExecute => ProtectionFlags(5),
        Permissions::ReadWriteExecute => ProtectionFlags(7),
    }
}

/// The first address of the chunk range `range` of 4 KiB chunks.
pub open spec fn range_start(range: ChunkRange) -> int {
    range.start * 4096
}

/// The last address of the chunk range `range` of 4 KiB chunks.
pub open spec fn range_end(range: ChunkRange) -> int {
    (range.start + range.count) * 4096 - 1
}

/// The chunk range holds at least one chunk and its addresses fit in 64 bits.
pub open spec fn range_fits(range: ChunkRange) -> bool {
    range.count > 0 && (range.start + range.count) * 4096 <= u64::MAX + 1
}

impl LongModeTranslationScheme {
    /// Hands out the next frame of `allocator` as a table and zeroes it in `memory`.
    pub fn allocate_zeroed_table(memory: &mut PhysicalMemory64, allocator: &mut FrameAllocator) -> (table: Option<u64>)
        requires
            old(allocator).wf(),
            old(allocator).end <= old(memory).byte_len(),
        ensures
            final(allocator).wf(),
            final(allocator).end == old(allocator).end,
            final(memory).words@.len() == old(memory).words@.len(),
            match table {
                Some(t) => {
                    &&& old(allocator).can_allocate()
                    &&& t == old(allocator).next
                    &&& final(allocator).next == t + 4096
                    &&& forall|k: int| t / 8 <= k < t / 8 + 512 ==> #[trigger] final(memory).word(k) == 0
                    &&& forall|k: int| !(t / 8 <= k < t / 8 + 512) ==> #[trigger] final(memory).word(k) == old(memory).word(k)
                },
                None => !old(allocator).can_allocate() && *final(memory) == *old(memory) && *final(allocator)
                    == *old(allocator),
            },
    {
        if allocator.next > allocator.end || allocator.end - allocator.next < 4096 {
            return None;
        }
        let table = allocator.next;
        allocator.next = table + 4096;
        let mut i: u64 = 0;
        while i < 512
            invariant
                i <= 512,
                table == old(allocator).next,
                table % 4096 == 0,
                table + 4096 <= old(memory).byte_len(),
                memory.words@.len() == old(memory).words@.len(),
                forall|k: int| table / 8 <= k < table / 8 + i ==> #[trigger] memory.word(k) == 0,
                forall|k: int| !(table / 8 <= k < table / 8 + i) ==> #[trigger] memory.word(k) == old(memory).word(k),
            decreases 512 - i,
        {
            let address = table + i * 8;
            assert(address / 8 == table / 8 + i);
            let ghost before = *memory;
            memory.write_u64(address, 0);
            assert forall|k: int| #[trigger] memory.word(k) == if k == table / 8 + i { 0 } else { before.word(k) } by {}
            i += 1;
        }
        Some(table)
    }
}

impl LongModeTranslationScheme {
    /// The tables of this scheme as held in `memory`, with frames from `allocator`.
    pub open spec fn tables(&self, memory: PhysicalMemory64, allocator: FrameAllocator) -> X86_64AddressSpace {
        X86_64AddressSpace::spec_from_parts(self.spec_cr3(), self.spec_la57(), self.spec_nxe(), memory, allocator)
    }

    /// [`LongModeTranslationScheme::map_at`] maps `input` to `output` with the tables in
    /// `memory`: both ranges are valid and of the same size and no page of `input` is mapped.
    pub open spec fn map_at_accepts(&self, memory: PhysicalMemory64, input: ChunkRange, output: ChunkRange) -> bool {
        let input_descriptor = AddressSpaceDescriptor::spec_new(if self.spec_la57() { 57u8 } else { 48u8 }, true);
        let output_descriptor = AddressSpaceDescriptor::spec_new(52, false);
        &&& input_descriptor.spec_is_valid_range(range_start(input), range_end(input))
        &&& output_descriptor.spec_is_valid_range(range_start(output), range_end(output))
        &&& input.count == output.count
        &&& forall|k: int| 0 <= k < input.count ==> #[trigger] self.spec_translate(memory, ((input.start + k) * 4096) as u64) is None
    }

    /// What [`LongModeTranslationScheme::map_at`] leaves: the tables `after`, with frames from
    /// `after_allocator`, and `result`, for a call on the tables `before` with frames from
    /// `before_allocator`.
    pub open spec fn map_at_outcome(
        &self,
        before: PhysicalMemory64,
        before_allocator: FrameAllocator,
        after: PhysicalMemory64,
        after_allocator: FrameAllocator,
        input: ChunkRange,
        output: ChunkRange,
        permissions: Permissions,
        result: Result<(), MapError>,
    ) -> bool {
        &&& (self.tables(after, after_allocator).wf())
        &&& (upper_entries_kept(before, after, self.spec_cr3() as int, self.top()))
        &&& (upper_entries_persist(before, after, self.spec_cr3() as int, self.top()))
        &&& (!self.map_at_accepts(before, input, output) ==> result == Err::<(), MapError>(
                MapError::FindFreeRegionError) && after == before && after_allocator == before_allocator)
        &&& (self.map_at_accepts(before, input, output) ==> match result {
                Ok(()) => forall|va: u64| #[trigger] self.tables(after, after_allocator).mapping(va)
                    == self.tables(before, before_allocator).mapped_after(
                    (input.start * 4096) as u64,
                    (output.start * 4096) as u64,
                    protection_of(permissions),
                    input.count as nat,
                    va,
                ),
                Err(error) => {
                    &&& error == MapError::FrameAllocation
                    &&& !after_allocator.can_allocate()
                    &&& exists|done: nat| done < input.count && #[trigger] self.tables(after, after_allocator).shows_mapping(
                        &self.tables(before, before_allocator),
                        (input.start * 4096) as u64,
                        (output.start * 4096) as u64,
                        protection_of(permissions),
                        done,
                    ) && frame_at(after, self.spec_cr3() as int, self.top(), ((input.start + done) * 4096) as u64, 1)
                        is None
                },
            })
    }

    /// Maps the frames of `output` to the pages of `input` with `permissions`, in the tables held
    /// in `memory`, allocating the missing tables from `allocator`.
    pub fn map_at(
        &mut self,
        memory: &mut PhysicalMemory64,
        allocator: &mut FrameAllocator,
        input: ChunkRange,
        output: ChunkRange,
        permissions: Permissions,
        mapping_type: MappingType,
    ) -> (result: Result<(), MapError>)
        requires
            old(self).tables(*old(memory), *old(allocator)).wf(),
            range_fits(input),
            range_fits(output),
        ensures
            *final(self) == *old(self),
            old(self).map_at_outcome(*old(memory), *old(allocator), *final(memory), *final(allocator), input, output, permissions, result),
    {
        proof {
            let s = old(self).tables(*old(memory), *old(allocator));
            X86_64AddressSpace::lemma_from_parts(self.physical_address, self.la57, self.nxe, *old(memory), *old(allocator));
            s.lemma_wf_root();
        }
        let input_start = input.start * 4096;
        let input_end = input_start + (input.count - 1) * 4096 + 4095;
        if !self.input_descriptor().is_valid_range(input_start, input_end) {
            return Err(MapError::FindFreeRegionError);
        }
        let output_start = output.start * 4096;
        let output_end = output_start + (output.count - 1) * 4096 + 4095;
        if !self.output_descriptor().is_valid_range(output_start, output_end) {
            return Err(MapError::FindFreeRegionError);
        }
        if input.count != output.count {
            return Err(MapError::FindFreeRegionError);
        }
        let mut k: u64 = 0;
        while k < input.count
            invariant
                *self == *old(self),
                *memory == *old(memory),
                *allocator == *old(allocator),
                self.tables(*memory, *allocator).wf(),
                self.spec_cr3() + 511 * 8 <= u64::MAX,
                range_fits(input),
                input_start == input.start * 4096,
                k <= input.count,
                forall|i: int| 0 <= i < k ==> #[trigger] self.spec_translate(*memory, ((input.start + i) * 4096) as u64) is None,
            decreases input.count - k,
        {
            assert(input_start + k * 4096 == (input.start + k) * 4096);
            if self.translate(memory, input_start + k * 4096).is_some() {
                return Err(MapError::FindFreeRegionError);
            }
            k += 1;
        }
        let protection = protection_flags(permissions);
        let mut tables_memory = PhysicalMemory64 { words: Vec::new() };
        core::mem::swap(&mut tables_memory, memory);
        let mut tables_allocator = FrameAllocator { next: 0, end: 0 };
        core::mem::swap(&mut tables_allocator, allocator);
        let mut space = X86_64AddressSpace::from_parts(self.physical_address, self.la57, self.nxe, tables_memory, tables_allocator);
        let result = space.map_unchecked(input_start, output_start, input.count, protection);
        let ghost mapped = space;
        let (final_memory, final_allocator) = space.into_parts();
        *memory = final_memory;
        *allocator = final_allocator;
        proof {
            X86_64AddressSpace::lemma_from_parts(self.physical_address, self.la57, self.nxe, *memory, *allocator);
        }
        match result {
            Ok(()) => Ok(()),
            Err(_) => Err(MapError::FrameAllocation),
        }
    }

    /// The input range is valid in the input address space of this scheme.
    pub open spec fn input_valid(&self, input: ChunkRange) -> bool {
        AddressSpaceDescriptor::spec_new(if self.spec_la57() { 57u8 } else { 48u8 }, true).spec_is_valid_range(
            range_start(input),
            range_end(input),
        )
    }

    /// Returns `true` if the input range is valid in the input address space of this scheme.
    pub fn input_valid_exec(&self, input: ChunkRange) -> (result: bool)
        requires
            range_fits(input),
        ensures
            result == self.input_valid(input),
    {
        let input_start = input.start * 4096;
        let input_end = input_start + (input.count - 1) * 4096 + 4095;
        self.input_descriptor().is_valid_range(input_start, input_end)
    }

    /// What [`LongModeTranslationScheme::unmap`] leaves: the tables `after`, for a call on the
    /// tables `before` whose frames come from `allocator`.
    pub open spec fn unmap_outcome(
        &self,
        before: PhysicalMemory64,
        allocator: FrameAllocator,
        after: PhysicalMemory64,
        input: ChunkRange,
    ) -> bool {
        &&& self.tables(after, allocator).wf()
        &&& forall|va: u64| #[trigger] self.tables(after, allocator).mapping(va) == self.tables(before, allocator).unmapped_after(
            (input.start * 4096) as u64,
            input.count as nat,
            va,
        )
        &&& forall|va: u64, l: nat| 2 <= l ==> #[trigger] entry_at(after, self.spec_cr3() as int, self.top(), va, l) == entry_at(
            before,
            self.spec_cr3() as int,
            self.top(),
            va,
            l,
        )
    }

    /// No page of `input` is mapped through a large page by the tables in `memory`.
    pub open spec fn no_large_pages(&self, memory: PhysicalMemory64, input: ChunkRange) -> bool {
        forall|k: int| 0 <= k < input.count ==> #[trigger] end_level(memory, self.spec_cr3() as int, self.top(), ((input.start
            + k) * 4096) as u64) == 1
    }

    /// Unmaps the pages of `input` from the tables held in `memory`, whose frames come from
    /// `allocator`.
    pub fn unmap(&mut self, memory: &mut PhysicalMemory64, allocator: &FrameAllocator, input: ChunkRange)
        requires
            old(self).tables(*old(memory), *allocator).wf(),
            range_fits(input),
            AddressSpaceDescriptor::spec_new(if old(self).spec_la57() { 57u8 } else { 48u8 }, true).spec_is_valid_range(
                range_start(input),
                range_end(input),
            ),
            old(self).no_large_pages(*old(memory), input),
        ensures
            *final(self) == *old(self),
            final(self).tables(*final(memory), *allocator).wf(),
            forall|va: u64| #[trigger] final(self).tables(*final(memory), *allocator).mapping(va) == old(self).tables(
                *old(memory),
                *allocator,
            ).unmapped_after((input.start * 4096) as u64, input.count as nat, va),
            forall|va: u64, l: nat| 2 <= l ==> #[trigger] entry_at(*final(memory), old(self).spec_cr3() as int, old(self).top(), va, l)
                == entry_at(*old(memory), old(self).spec_cr3() as int, old(self).top(), va, l),
    {
        proof {
            X86_64AddressSpace::lemma_from_parts(self.physical_address, self.la57, self.nxe, *old(memory), *allocator);
        }
        let input_start = input.start * 4096;
        let mut tables_memory = PhysicalMemory64 { words: Vec::new() };
        core::mem::swap(&mut tables_memory, memory);
        let tables_allocator = FrameAllocator { next: allocator.next, end: allocator.end };
        let mut space = X86_64AddressSpace::from_parts(self.physical_address, self.la57, self.nxe, tables_memory, tables_allocator);
        space.unmap(input_start, input.count);
        let (final_memory, _) = space.into_parts();
        *memory = final_memory;
        proof {
            X86_64AddressSpace::lemma_from_parts(self.physical_address, self.la57, self.nxe, *memory, *allocator);
        }
    }
}

/// After [`LongModeTranslationScheme::map_at`] succeeds, every address of the input range
/// translates, as the hardware walks the tables, to the matching address of the output range,
/// with exactly the permissions asked for, except that without `nxe` every page is executable.
pub proof fn law_long_mode_map_at_then_translate(
    scheme: &LongModeTranslationScheme,
    before: PhysicalMemory64,
    before_allocator: FrameAllocator,
    after: PhysicalMemory64,
    after_allocator: FrameAllocator,
    input: ChunkRange,
    output: ChunkRange,
    permissions: Permissions,
    address: u64,
)
    requires
        scheme.tables(before, before_allocator).wf(),
        scheme.tables(after, after_allocator).wf(),
        range_fits(input),
        range_fits(output),
        scheme.map_at_accepts(before, input, output),
        upper_entries_kept(before, after, scheme.spec_cr3() as int, scheme.top()),
        forall|va: u64| #[trigger] scheme.tables(after, after_allocator).mapping(va) == scheme.tables(
            before,
            before_allocator,
        ).mapped_after(
            (input.start * 4096) as u64,
            (output.start * 4096) as u64,
            protection_of(permissions),
            input.count as nat,
            va,
        ),
        range_start(input) <= address <= range_end(input),
    ensures
        scheme.spec_translate(after, address) == Some(
            (
                Permissions::from_access_spec(permissions.spec_writable(), !scheme.spec_nxe() || permissions.spec_executable()),
                MappingType::Normal,
                (range_start(output) + (address - range_start(input))) as u64,
            ),
        ),
{
    let root = scheme.spec_cr3() as int;
    let top = scheme.top();
    let nxe = scheme.spec_nxe();
    let before_space = scheme.tables(before, before_allocator);
    let after_space = scheme.tables(after, after_allocator);
    X86_64AddressSpace::lemma_from_parts(scheme.spec_cr3(), scheme.spec_la57(), nxe, before, before_allocator);
    X86_64AddressSpace::lemma_from_parts(scheme.spec_cr3(), scheme.spec_la57(), nxe, after, after_allocator);
    before_space.lemma_wf_root();
    AddressSpaceDescriptor::lemma_spec_new(if scheme.spec_la57() { 57u8 } else { 48u8 }, true);
    AddressSpaceDescriptor::lemma_spec_new(52, false);
    vstd::arithmetic::power2::lemma2_to64();
    vstd::arithmetic::power2::lemma2_to64_rest();
    // The page of `address` and its offset.
    let va = (input.start * 4096) as u64;
    let pa = (output.start * 4096) as u64;
    let d = address - range_start(input);
    let k = d / 4096;
    let offset = (d % 4096) as u64;
    assert(d == k * 4096 + offset);
    assert(k < input.count) by (nonlinear_arith)
        requires
            d == k * 4096 + offset,
            0 <= offset,
            d <= input.count * 4096 - 1,
    ;
    let page = ((input.start + k) * 4096) as u64;
    assert(page == va + k * 4096);
    assert(page % 4096 == 0) by {
        assert((input.start + k) * 4096 % 4096 == 0) by (nonlinear_arith);
    }
    assert(address == page + offset);
    // The addresses of the input range are canonical.
    assert(scheme.canonical(address));
    assert(scheme.canonical(page));
    // Before the mapping, no large page lies on the walk for `page`.
    assert(scheme.spec_translate(before, page) is None);
    assert(walk(before, root, top, nxe, page) is None);
    // After it, the last-level entry of `page` maps its frame.
    let input_descriptor = AddressSpaceDescriptor::spec_new(if scheme.spec_la57() { 57u8 } else { 48u8 }, true);
    let output_descriptor = AddressSpaceDescriptor::spec_new(52, false);
    assert(input_descriptor.spec_is_valid_range(range_start(input), range_end(input)));
    assert(output_descriptor.spec_is_valid_range(range_start(output), range_end(output)));
    assert(range_end(output) <= 0xF_FFFF_FFFF_FFFF) by {
        assert(output_descriptor.spec_lower_bits() == 52);
        assert(low_mask(52) == 0xF_FFFF_FFFF_FFFF);
    }
    if scheme.spec_la57() {
        assert(input_descriptor.spec_lower_bits() == 56 && input_descriptor.spec_upper_bits() == 56);
        assert(low_mask(56) == 0xFF_FFFF_FFFF_FFFF);
        assert(pow2(64) - pow2(56) == 0xFF00_0000_0000_0000);
    } else {
        assert(input_descriptor.spec_lower_bits() == 47 && input_descriptor.spec_upper_bits() == 47);
        assert(low_mask(47) == 0x7FFF_FFFF_FFFF);
        assert(pow2(64) - pow2(47) == 0xFFFF_8000_0000_0000);
    }
    assert(before_space.pages_in_one_half(va, input.count as nat));
    assert(same_path(page, page, 0, top));
    lemma_mapped_after_page(&before_space, va, pa, protection_of(permissions), input.count as nat, k as nat, page);
    let frame = (pa + k * 4096) as u64;
    assert(frame % 4096 == 0) by {
        assert((output.start + k) * 4096 % 4096 == 0) by (nonlinear_arith);
    }
    assert(frame < physical_limit());
    lemma_leaf_value(frame, protection_of(permissions), nxe);
    assert(protection_of(permissions).0 & 1 == 1) by {
        lemma_protection_bits();
    }
    let v = leaf_value(frame, protection_of(permissions), nxe);
    assert(after_space.mapping(page) == Some(v));
    assert(leaf_entry(after, root, top, page) == Some(v));
    // Every entry above the last level on that walk is present, and none maps a large page.
    assert(frame_at(after, root, top, page, 1) is Some);
    assert(frame_at(after, root, top, page, 2) is Some);
    assert(entry_at(after, root, top, page, 2) is Some);
    assert(entry_at(after, root, top, page, 3) is Some);
    assert(!block64(entry_at(after, root, top, page, 3)->0));
    assert(!block64(entry_at(after, root, top, page, 2)->0));
    assert(end_level(after, root, top, page) == 1);
    // `address` walks the same tables as `page`.
    lemma_offset_path(page, offset, top);
    lemma_frame_at_path(after, root, top, address, page, 1);
    lemma_frame_at_path(after, root, top, address, page, 2);
    lemma_frame_at_path(after, root, top, address, page, 3);
    assert(index_at(address, 1) == index_at(page, 1));
    assert(index_at(address, 2) == index_at(page, 2));
    assert(index_at(address, 3) == index_at(page, 3));
    assert(entry_at(after, root, top, address, 3) == entry_at(after, root, top, page, 3));
    assert(entry_at(after, root, top, address, 2) == entry_at(after, root, top, page, 2));
    assert(entry_at(after, root, top, address, 1) == Some(v));
    assert(end_level(after, root, top, address) == 1);
    assert(address % 4096 == offset);
    assert(address64(v) == frame);
    // The leaf entry carries the writable and execute-disable bits that were asked for.
    lemma_protection_bits();
    assert(protection_of(permissions).has(PROTECTION_WRITE) == permissions.spec_writable());
    assert(protection_of(permissions).has(PROTECTION_EXEC) == permissions.spec_executable());
    // Every link above the leaf is permissive, so the leaf alone decides the permissions.
    after_space.lemma_wf_permissive();
    lemma_path_step(after, root, top, address, 1);
    assert forall|k: nat| 2 <= k <= top && #[trigger] entry_at(after, root, top, address, k) is Some implies writable64(
        entry_at(after, root, top, address, k)->0,
    ) && !xd64(entry_at(after, root, top, address, k)->0) by {
        if k <= 3 {
            assert(!block64(entry_at(after, root, top, address, k)->0));
        }
    }
    assert(path_writable(after, root, top, address, 2));
    assert(path_no_xd(after, root, top, address, 2));
}

/// After [`LongModeTranslationScheme::unmap`], no address of the unmapped range translates.
pub proof fn law_long_mode_unmap_then_translate(
    scheme: &LongModeTranslationScheme,
    before: PhysicalMemory64,
    after: PhysicalMemory64,
    allocator: FrameAllocator,
    input: ChunkRange,
    address: u64,
)
    requires
        scheme.tables(before, allocator).wf(),
        range_fits(input),
        scheme.no_large_pages(before, input),
        forall|va: u64, l: nat| 2 <= l ==> #[trigger] entry_at(after, scheme.spec_cr3() as int, scheme.top(), va, l)
            == entry_at(before, scheme.spec_cr3() as int, scheme.top(), va, l),
        forall|va: u64| #[trigger] scheme.tables(after, allocator).mapping(va) == scheme.tables(before, allocator).unmapped_after(
            (input.start * 4096) as u64,
            input.count as nat,
            va,
        ),
        range_start(input) <= address <= range_end(input),
    ensures
        scheme.spec_translate(after, address) is None,
{
    let root = scheme.spec_cr3() as int;
    let top = scheme.top();
    let before_space = scheme.tables(before, allocator);
    X86_64AddressSpace::lemma_from_parts(scheme.spec_cr3(), scheme.spec_la57(), scheme.spec_nxe(), before, allocator);
    X86_64AddressSpace::lemma_from_parts(scheme.spec_cr3(), scheme.spec_la57(), scheme.spec_nxe(), after, allocator);
    let va = (input.start * 4096) as u64;
    let d = address - range_start(input);
    let k = d / 4096;
    let offset = (d % 4096) as u64;
    assert(d == k * 4096 + offset);
    assert(k < input.count) by (nonlinear_arith)
        requires
            d == k * 4096 + offset,
            0 <= offset,
            d <= input.count * 4096 - 1,
    ;
    let page = ((input.start + k) * 4096) as u64;
    assert(page == va + k * 4096);
    assert(page % 4096 == 0) by {
        assert((input.start + k) * 4096 % 4096 == 0) by (nonlinear_arith);
    }
    assert(address == page + offset);
    assert(end_level(before, root, top, page) == 1);
    lemma_offset_path(page, offset, top);
    lemma_frame_at_path(before, root, top, address, page, 2);
    lemma_frame_at_path(before, root, top, address, page, 3);
    assert(index_at(address, 2) == index_at(page, 2));
    assert(index_at(address, 3) == index_at(page, 3));
    assert(entry_at(after, root, top, address, 3) == entry_at(before, root, top, page, 3));
    assert(entry_at(after, root, top, address, 2) == entry_at(before, root, top, page, 2));
    assert(end_level(after, root, top, address) == 1);
    lemma_unmapped_after_page(&before_space, va, input.count as nat, k as nat, address);
    assert(scheme.tables(after, allocator).mapping(address) is None);
    assert(leaf_entry(after, root, top, address) is None);
}

/// A long mode scheme together with the memory that holds its tables, seen as a translation
/// scheme: 4 KiB chunks of canonical virtual addresses.
pub struct LongModeTables<'a> {
    /// The scheme.
    pub scheme: &'a LongModeTranslationScheme,
    /// The memory that holds the tables.
    pub memory: &'a PhysicalMemory64,
}

impl<'a> TranslationScheme for LongModeTables<'a> {
    open spec fn valid(&self) -> bool {
        self.scheme.spec_cr3() + 511 * 8 <= u64::MAX
    }

    open spec fn spec_input_descriptor(&self) -> AddressSpaceDescriptor {
        AddressSpaceDescriptor::spec_new(if self.scheme.spec_la57() { 57u8 } else { 48u8 }, true)
    }

    open spec fn spec_chunk_size(&self) -> u64 {
        4096
    }

    open spec fn output_address(&self, address: u64) -> Option<u64> {
        match self.scheme.spec_translate(*self.memory, address) {
            Some((_, _, physical_address)) => Some(physical_address),
            None => None,
        }
    }

    fn input_descriptor(&self) -> (descriptor: AddressSpaceDescriptor) {
        self.scheme.input_descriptor()
    }

    fn chunk_size(&self) -> (size: u64) {
        4096
    }

    fn translate(&self, address: u64) -> (result: Option<(Permissions, MappingType, u64)>) {
        self.scheme.translate(self.memory, address)
    }
}

/// A 32-bit scheme together with the memory that holds its tables, seen as a translation
/// scheme: 4 KiB chunks of 32-bit virtual addresses.
pub struct Bits32Tables<'a> {
    /// The scheme.
    pub scheme: &'a Bits32TranslationScheme,
    /// The memory that holds the tables.
    pub memory: &'a PhysicalMemory32,
}

impl<'a> TranslationScheme for Bits32Tables<'a> {
    open spec fn valid(&self) -> bool {
        true
    }

    open spec fn spec_input_descriptor(&self) -> AddressSpaceDescriptor {
        AddressSpaceDescriptor::spec_new(32, false)
    }

    open spec fn spec_chunk_size(&self) -> u64 {
        4096
    }

    open spec fn output_address(&self, address: u64) -> Option<u64> {
        match self.scheme.spec_translate(*self.memory, address) {
            Some((_, _, physical_address)) => Some(physical_address),
            None => None,
        }
    }

    fn input_descriptor(&self) -> (descriptor: AddressSpaceDescriptor) {
        self.scheme.input_descriptor()
    }

    fn chunk_size(&self) -> (size: u64) {
        4096
    }

    fn translate(&self, address: u64) -> (result: Option<(Permissions, MappingType, u64)>) {
        self.scheme.translate(self.memory, address)
    }
}

/// The paging scheme that an [`X86TranslationScheme`] wraps.
enum Inner {
    /// 32-bit paging.
    Bits32(Bits32TranslationScheme),
    /// PAE paging.
    Pae(PaeTranslationScheme),
    /// 64-bit paging.
    LongMode(LongModeTranslationScheme),
}

/// The paging configuration for `i686` and `x86_64`.
pub struct X86TranslationScheme(Inner);

/// The settings that a paging configuration requires of the processor's control registers.
#[derive(Clone, Copy, Debug, PartialEq, Eq, Structural)]
pub struct X86Settings {
    /// The value of `CR3`.
    pub cr3: u64,
    /// `CR4.LA57`.
    pub la57: bool,
    /// Long mode.
    pub long_mode: bool,
    /// `CR4.PAE`.
    pub pae: bool,
    /// `CR4.PSE`.
    pub pse: bool,
    /// `EFER.NXE`.
    pub nxe: bool,
    /// 4 MiB pages of 32-bit paging reach beyond 32 bits.
    pub pse36: bool,
    /// The number of physical address bits that the tables reach.
    pub physical_bits: u8,
}

impl X86TranslationScheme {
    /// The control register settings that this configuration requires.
    pub closed spec fn settings(&self) -> X86Settings {
        match self.0 {
            Inner::Bits32(s) => X86Settings {
                cr3: s.spec_cr3(),
                la57: false,
                long_mode: false,
                pae: false,
                pse: s.spec_pse(),
                nxe: false,
                pse36: s.spec_pse36(),
                physical_bits: s.spec_max_bits(),
            },
            Inner::Pae(s) => X86Settings {
                cr3: s.spec_cr3(),
                la57: false,
                long_mode: false,
                pae: true,
                pse: true,
                nxe: s.spec_nxe(),
                pse36: false,
                physical_bits: s.spec_physical_bits(),
            },
            Inner::LongMode(s) => X86Settings {
                cr3: s.spec_cr3(),
                la57: s.spec_la57(),
                long_mode: true,
                pae: true,
                pse: true,
                nxe: s.spec_nxe(),
                pse36: false,
                physical_bits: 52,
            },
        }
    }

    /// Constructs the most capable configuration for `machine` that `features` allow, rooted at
    /// the zeroed table `root_table` if one could be allocated: PAE, else 32-bit paging, for
    /// `i686`; long mode for `x86_64`.
    pub fn max_supported(machine: Machine, features: X86Features, root_table: Option<u64>) -> (scheme: Option<Self>)
        ensures
            scheme is Some <==> root_table is Some && if machine == Machine::spec_intel_386() {
                features.max_paging_mode != PagingMode::Disabled
            } else if machine == Machine::spec_x86_64() {
                features.max_paging_mode == PagingMode::Level4 || features.max_paging_mode
                    == PagingMode::Level5
            } else {
                false
            },
            scheme matches Some(s) ==> {
                &&& s.settings().cr3 == root_table.unwrap()
                &&& s.settings().long_mode == (machine == Machine::spec_x86_64())
                &&& s.settings().pae == (machine == Machine::spec_x86_64() || features.max_paging_mode
                    != PagingMode::Bits32)
                &&& s.settings().la57 == (machine == Machine::spec_x86_64() && features.max_paging_mode
                    == PagingMode::Level5)
                &&& s.settings().nxe == (s.settings().pae && features.cpuid && features.nx)
                &&& s.settings().pse == (s.settings().pae || (features.cpuid && features.pse))
            },
    {
        if machine.0 == Machine::INTEL_386 {
            if let Some(pae) = PaeTranslationScheme::max_supported(features, root_table) {
                Some(X86TranslationScheme(Inner::Pae(pae)))
            } else {
                match Bits32TranslationScheme::max_supported(features, root_table) {
                    Some(bits_32) => Some(X86TranslationScheme(Inner::Bits32(bits_32))),
                    None => None,
                }
            }
        } else if machine.0 == Machine::X86_64 {
            match LongModeTranslationScheme::max_supported(features, root_table) {
                Some(long_mode) => Some(X86TranslationScheme(Inner::LongMode(long_mode))),
                None => None,
            }
        } else {
            None
        }
    }

    /// Returns the value of the `CR3` register required to utilize this configuration.
    pub fn cr3(&self) -> (value: u64)
        ensures
            value == self.settings().cr3,
    {
        match &self.0 {
            Inner::Bits32(bits_32) => bits_32.cr3(),
            Inner::Pae(pae) => pae.cr3(),
            Inner::LongMode(long_mode) => long_mode.cr3(),
        }
    }

    /// Returns `true` if this configuration requires the `LA57` bit to be set.
    pub fn la57(&self) -> (result: bool)
        ensures
            result == self.settings().la57,
    {
        match &self.0 {
            Inner::Bits32(_) => false,
            Inner::Pae(_) => false,
            Inner::LongMode(long_mode) => long_mode.la57(),
        }
    }

    /// Returns `true` if this configuration is a long mode configuration.
    pub fn long_mode(&self) -> (result: bool)
        ensures
            result == self.settings().long_mode,
    {
        match &self.0 {
            Inner::Bits32(_) => false,
            Inner::Pae(_) => false,
            Inner::LongMode(_) => true,
        }
    }

    /// Returns `true` if this configuration requires the `PAE` bit to be set.
    pub fn pae(&self) -> (result: bool)
        ensures
            result == self.settings().pae,
    {
        match &self.0 {
            Inner::Bits32(_) => false,
            Inner::Pae(_) => true,
            Inner::LongMode(_) => true,
        }
    }

    /// Returns `true` if this configuration requires the `PSE` bit to be set.
    pub fn pse(&self) -> (result: bool)
        ensures
            result == self.settings().pse,
    {
        match &self.0 {
            Inner::Bits32(bits_32) => bits_32.pse(),
            Inner::Pae(_) => true,
            Inner::LongMode(_) => true,
        }
    }

    /// Returns `true` if this configuration requires the `NXE` bit to be set.
    pub fn nxe(&self) -> (result: bool)
        ensures
            result == self.settings().nxe,
    {
        match &self.0 {
            Inner::Bits32(_) => false,
            Inner::Pae(pae) => pae.nxe(),
            Inner::LongMode(long_mode) => long_mode.nxe(),
        }
    }

    /// Returns the size, in bytes, of the smallest translation granule.
    pub fn chunk_size(&self) -> (size: u64)
        ensures
            size == 4096,
    {
        match &self.0 {
            Inner::Bits32(scheme) => scheme.chunk_size(),
            Inner::Pae(scheme) => scheme.chunk_size(),
            Inner::LongMode(scheme) => scheme.chunk_size(),
        }
    }
}

/// Various errors that can occur while constructing a paging configuration.
#[derive(Clone, Copy, Debug, PartialEq, Eq, Structural)]
pub enum X86CommonSchemeError {
    /// Error allocating memory for the [`X86CommonScheme`].
    OutOfMemory,
    /// The valid paging modes are invalid.
    NotSupported,
}

/// Paging configurations for `x86_32` and `x86_64`.
pub enum X86CommonScheme {
    /// 32-bit paging.
    Bits32(Bits32TranslationScheme),
    /// PAE paging.
    Pae(PaeTranslationScheme),
    /// Long mode paging.
    LongMode(LongModeTranslationScheme),
}

impl X86CommonScheme {
    /// The control register settings that this configuration requires.
    pub open spec fn settings(&self) -> X86Settings {
        match self {
            X86CommonScheme::Bits32(s) => X86Settings {
                cr3: s.spec_cr3(),
                la57: false,
                long_mode: false,
                pae: false,
                pse: s.spec_pse(),
                nxe: false,
                pse36: s.spec_pse36(),
                physical_bits: s.spec_max_bits(),
            },
            X86CommonScheme::Pae(s) => X86Settings {
                cr3: s.spec_cr3(),
                la57: false,
                long_mode: false,
                pae: true,
                pse: true,
                nxe: s.spec_nxe(),
                pse36: false,
                physical_bits: s.spec_physical_bits(),
            },
            X86CommonScheme::LongMode(s) => X86Settings {
                cr3: s.spec_cr3(),
                la57: s.spec_la57(),
                long_mode: true,
                pae: true,
                pse: true,
                nxe: s.spec_nxe(),
                pse36: false,
                physical_bits: 52,
            },
        }
    }

    /// Constructs the most capable configuration for `machine` that `features` allow, rooted at
    /// the zeroed table `root_table` if one could be allocated.
    pub fn max_supported(machine: Machine, features: X86Features, root_table: Option<u64>) -> (result: Result<Self, X86CommonSchemeError>)
        ensures
            machine == Machine::spec_intel_386() ==> match result {
                Ok(X86CommonScheme::Pae(_)) => features.max_paging_mode != PagingMode::Disabled
                    && features.max_paging_mode != PagingMode::Bits32 && root_table is Some,
                Ok(X86CommonScheme::Bits32(_)) => features.max_paging_mode == PagingMode::Bits32
                    && root_table is Some,
                Ok(X86CommonScheme::LongMode(_)) => false,
                Err(error) => error == X86CommonSchemeError::NotSupported && (features.max_paging_mode
                    == PagingMode::Disabled || root_table is None),
            },
            machine == Machine::spec_x86_64() ==> match result {
                Ok(X86CommonScheme::LongMode(s)) => (features.max_paging_mode == PagingMode::Level4
                    || features.max_paging_mode == PagingMode::Level5) && root_table is Some
                    && s.spec_la57() == (features.max_paging_mode == PagingMode::Level5),
                Ok(_) => false,
                Err(error) => if features.max_paging_mode == PagingMode::Level4
                    || features.max_paging_mode == PagingMode::Level5 {
                    error == X86CommonSchemeError::OutOfMemory && root_table is None
                } else {
                    error == X86CommonSchemeError::NotSupported
                },
            },
            machine != Machine::spec_intel_386() && machine != Machine::spec_x86_64() ==> result
                == Err::<Self, X86CommonSchemeError>(X86CommonSchemeError::NotSupported),
            result matches Ok(s) ==> s.settings().cr3 == root_table.unwrap(),
    {
        if machine.0 == Machine::INTEL_386 {
            if let Some(pae) = PaeTranslationScheme::max_supported(features, root_table) {
                Ok(X86CommonScheme::Pae(pae))
            } else if let Some(bits_32) = Bits32TranslationScheme::max_supported(features, root_table) {
                Ok(X86CommonScheme::Bits32(bits_32))
            } else {
                Err(X86CommonSchemeError::NotSupported)
            }
        } else if machine.0 == Machine::X86_64 {
            let paging_mode = features.max_paging_mode;
            if paging_mode != PagingMode::Level4 && paging_mode != PagingMode::Level5 {
                return Err(X86CommonSchemeError::NotSupported);
            }
            match LongModeTranslationScheme::max_supported(features, root_table) {
                Some(long_mode) => Ok(X86CommonScheme::LongMode(long_mode)),
                None => Err(X86CommonSchemeError::OutOfMemory),
            }
        } else {
            Err(X86CommonSchemeError::NotSupported)
        }
    }

    /// Returns the value of the `CR3` register required to utilize this configuration.
    pub fn cr3(&self) -> (value: u64)
        ensures
            value == self.settings().cr3,
    {
        match self {
            X86CommonScheme::Bits32(bits_32) => bits_32.cr3(),
            X86CommonScheme::Pae(pae) => pae.cr3(),
            X86CommonScheme::LongMode(long_mode) => long_mode.cr3(),
        }
    }

    /// Returns `true` if this configuration requires the `LA57` bit to be set.
    pub fn la57(&self) -> (result: bool)
        ensures
            result == self.settings().la57,
    {
        match self {
            X86CommonScheme::Bits32(_) => false,
            X86CommonScheme::Pae(_) => false,
            X86CommonScheme::LongMode(long_mode) => long_mode.la57(),
        }
    }

    /// Returns `true` if this configuration is a long mode configuration.
    pub fn long_mode(&self) -> (result: bool)
        ensures
            result == self.settings().long_mode,
    {
        match self {
            X86CommonScheme::Bits32(_) => false,
            X86CommonScheme::Pae(_) => false,
            X86CommonScheme::LongMode(_) => true,
        }
    }

    /// Returns `true` if this configuration requires the `PAE` bit to be set.
    pub fn pae(&self) -> (result: bool)
        ensures
            result == self.settings().pae,
    {
        match self {
            X86CommonScheme::Bits32(_) => false,
            X86CommonScheme::Pae(_) => true,
            X86CommonScheme::LongMode(_) => true,
        }
    }

    /// Returns `true` if this configuration requires the `PSE` bit to be set.
    pub fn pse(&self) -> (result: bool)
        ensures
            result == self.settings().pse,
    {
        match self {
            X86CommonScheme::Bits32(bits_32) => bits_32.pse(),
            X86CommonScheme::Pae(_) => true,
            X86CommonScheme::LongMode(_) => true,
        }
    }

    /// Returns `true` if this configuration requires the `NXE` bit to be set.
    pub fn nxe(&self) -> (result: bool)
        ensures
            result == self.settings().nxe,
    {
        match self {
            X86CommonScheme::Bits32(_) => false,
            X86CommonScheme::Pae(pae) => pae.nxe(),
            X86CommonScheme::LongMode(long_mode) => long_mode.nxe(),
        }
    }
}


/// Constructs a new paging configuration for `machine` that matches the paging mode in which
/// the processor currently runs, rooted at the zeroed table `root_table` if one could be
/// allocated.
pub fn new_address_space(
    machine: Machine,
    current_paging_mode: PagingMode,
    features: X86Features,
    root_table: Option<u64>,
) -> (result: Result<X86CommonScheme, X86CommonSchemeError>)
    ensures
        machine == Machine::spec_intel_386() ==> match result {
            Ok(X86CommonScheme::Pae(_)) => current_paging_mode == PagingMode::Pae && root_table is Some,
            Ok(X86CommonScheme::Bits32(_)) => current_paging_mode == PagingMode::Bits32 && root_table is Some,
            Ok(X86CommonScheme::LongMode(_)) => false,
            Err(error) => error == X86CommonSchemeError::NotSupported && ((current_paging_mode
                != PagingMode::Pae && current_paging_mode != PagingMode::Bits32) || root_table is None),
        },
        machine == Machine::spec_x86_64() ==> match result {
            Ok(X86CommonScheme::LongMode(s)) => (current_paging_mode == PagingMode::Level4
                || current_paging_mode == PagingMode::Level5) && root_table is Some && s.spec_la57() == (
            current_paging_mode == PagingMode::Level5),
            Ok(_) => false,
            Err(error) => if current_paging_mode == PagingMode::Level4 || current_paging_mode
                == PagingMode::Level5 {
                error == X86CommonSchemeError::OutOfMemory && root_table is None
            } else {
                error == X86CommonSchemeError::NotSupported
            },
        },
        machine != Machine::spec_intel_386() && machine != Machine::spec_x86_64() ==> result
            == Err::<X86CommonScheme, X86CommonSchemeError>(X86CommonSchemeError::NotSupported),
        result matches Ok(s) ==> s.settings().cr3 == root_table.unwrap(),
        result matches Ok(X86CommonScheme::LongMode(s)) ==> s.spec_nxe() == (features.cpuid && features.nx),
{
    let current = X86Features { max_paging_mode: current_paging_mode, ..features };
    if machine.0 == Machine::INTEL_386 {
        if current_paging_mode == PagingMode::Pae {
            if let Some(pae) = PaeTranslationScheme::max_supported(current, root_table) {
                return Ok(X86CommonScheme::Pae(pae));
            }
        }
        if current_paging_mode == PagingMode::Bits32 {
            if let Some(bits_32) = Bits32TranslationScheme::max_supported(current, root_table) {
                return Ok(X86CommonScheme::Bits32(bits_32));
            }
        }
        Err(X86CommonSchemeError::NotSupported)
    } else if machine.0 == Machine::X86_64 {
        if current_paging_mode != PagingMode::Level4 && current_paging_mode != PagingMode::Level5 {
            return Err(X86CommonSchemeError::NotSupported);
        }
        match LongModeTranslationScheme::max_supported(current, root_table) {
            Some(long_mode) => Ok(X86CommonScheme::LongMode(long_mode)),
            None => Err(X86CommonSchemeError::OutOfMemory),
        }
    } else {
        Err(X86CommonSchemeError::NotSupported)
    }
}

/// The policy under which the frames that the switch into the executable needs are allocated
/// on `x86`: below 4 GiB, where 32-bit code reaches them.
pub fn arch_policy() -> (policy: crate::context::AllocationPolicy)
    ensures
        policy == crate::context::AllocationPolicy::Below(0x1_0000_0000),
{
    crate::context::AllocationPolicy::Below(0x1_0000_0000)
}

/// Returns `true` if the protocol table handed to the executable has 64-bit fields: exactly
/// when the executable runs in long mode.
pub fn arch_table_64_bit(scheme: &X86CommonScheme) -> (result: bool)
    ensures
        result == scheme.settings().long_mode,
{
    match scheme {
        X86CommonScheme::LongMode(_) => true,
        _ => false,
    }
}

} // verus!
