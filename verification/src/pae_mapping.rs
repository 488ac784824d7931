//! Mapping the loadable segments of a 32-bit executable into PAE page tables.
use vstd::prelude::*;

use crate::descriptor::{low_mask, AddressSpaceDescriptor};
use crate::elf::{ParsedElf, ProgramHeader, SEGMENT_EXECUTE, SEGMENT_LOAD, SEGMENT_WRITE};
use crate::executable::LoadExecutableError;
use crate::layout::{align_up, compute_layout, has_loadable, scan, spec_layout, Layout};
use crate::pae::PaeTables;
use crate::relocation::{apply_relocations, lemma_outcome_without_rel, relocations_outcome, uses_rel_table};
use crate::mapping::{
    frames_before, image_after, image_frame_count, occupies, segment_data, segment_image, segment_input, segment_offset,
    segment_output, segment_pages, segment_permissions, segments_fit, write_segment, MapSegmentsError,
};
use crate::paging::{ChunkRange, MapError, MappingType, Permissions};
use crate::physical_memory::{FrameAllocator, PhysicalBytes, PhysicalMemory64};
use crate::relocation::slice_range;
use crate::x86_paging::{range_end, range_fits, range_start, PaeTranslationScheme};

verus! {

/// The largest physical address that the PAE tables of `scheme` reach.
pub open spec fn pae_image_max(scheme: &PaeTranslationScheme) -> u64 {
    if scheme.spec_physical_bits() == 0 {
        0
    } else {
        low_mask(scheme.spec_physical_bits() as nat) as u64
    }
}

/// What `va` translates to once the first `n` headers' segments are mapped over the tables
/// `memory`: an address of a segment gives the same offset into its image frames, with the
/// access its flags ask for (every page being executable without `nxe`); any other address
/// translates as in `memory`.
pub open spec fn pae_mapping_after(
    scheme: &PaeTranslationScheme,
    memory: PhysicalMemory64,
    hs: Seq<ProgramHeader>,
    n: nat,
    slide: u64,
    base: int,
    va: u64,
) -> Option<(Permissions, MappingType, u64)>
    decreases n,
{
    if n == 0 {
        scheme.spec_translate(memory, va)
    } else {
        let k = (n - 1) as nat;
        let h = hs[k as int];
        let input = segment_input(h, slide);
        let output = segment_output(hs, k, slide, base);
        if occupies(h) && range_start(input) <= va <= range_end(input) {
            Some(
                (
                    Permissions::from_access_spec(
                        segment_permissions(h).spec_writable(),
                        !scheme.spec_nxe() || segment_permissions(h).spec_executable(),
                    ),
                    MappingType::Normal,
                    (range_start(output) + (va - range_start(input))) as u64,
                ),
            )
        } else {
            pae_mapping_after(scheme, memory, hs, k, slide, base, va)
        }
    }
}

/// The `k`-th header's segment can be mapped once the earlier ones are: its pages lie in the
/// 32-bit address space, its image frames in the physical address space, and none of its pages
/// is mapped in `memory` or by an earlier segment.
pub open spec fn pae_segment_accepted(
    scheme: &PaeTranslationScheme,
    memory: PhysicalMemory64,
    hs: Seq<ProgramHeader>,
    k: nat,
    slide: u64,
    base: int,
) -> bool {
    let input = segment_input(hs[k as int], slide);
    let output = segment_output(hs, k, slide, base);
    &&& AddressSpaceDescriptor::spec_new(32, false).spec_is_valid_range(range_start(input), range_end(input))
    &&& AddressSpaceDescriptor::spec_new(scheme.spec_physical_bits(), false).spec_is_valid_range(
        range_start(output),
        range_end(output),
    )
    &&& forall|j: int|
        0 <= j < input.count ==> #[trigger] pae_mapping_after(scheme, memory, hs, k, slide, base, ((input.start + j) * 4096) as u64)
            is None
}

/// Maps the loadable segments of `elf`, moved by `layout.slide`, into the PAE tables of
/// `scheme` held in `tables`, with table frames from `table_frames`, and copies their bytes
/// from `blob`, followed by zeros, into image frames taken from `image_frames` and held in
/// `image`.
///
/// The image frames are taken at once, enough for `layout.byte_span` bytes and all within the
/// physical address space; each segment takes the next frames in turn. Returns the address of
/// the first image frame.
#[verifier::rlimit(100)]
#[verifier::spinoff_prover]
pub fn map_segments_pae(
    elf: &ParsedElf,
    blob: &[u8],
    layout: &Layout,
    scheme: &mut PaeTranslationScheme,
    tables: &mut PhysicalMemory64,
    table_frames: &mut FrameAllocator,
    image_frames: &mut FrameAllocator,
    image: &mut PhysicalBytes,
) -> (result: Result<u64, MapSegmentsError>)
    requires
        old(scheme).tables_wf(*old(tables), *old(table_frames)),
        old(scheme).spec_physical_bits() <= 52,
        old(image_frames).wf(),
        segments_fit(elf.program_headers@, layout.slide, blob@, old(image_frames).end),
    ensures
        *final(scheme) == *old(scheme),
        final(scheme).tables_wf(*final(tables), *final(table_frames)),
        final(image_frames).wf(),
        !old(image_frames).can_allocate_frames(image_frame_count(layout.byte_span) as u64, pae_image_max(old(scheme))) ==> {
            &&& result == Err::<u64, MapSegmentsError>(MapSegmentsError::OutOfMemory)
            &&& *final(tables) == *old(tables)
            &&& *final(table_frames) == *old(table_frames)
            &&& *final(image_frames) == *old(image_frames)
            &&& *final(image) == *old(image)
        },
        old(image_frames).can_allocate_frames(image_frame_count(layout.byte_span) as u64, pae_image_max(old(scheme))) ==> {
            let hs = elf.program_headers@;
            let base = old(image_frames).next as int;
            &&& final(image_frames).next == base + image_frame_count(layout.byte_span) * 4096
            &&& final(image_frames).end == old(image_frames).end
            &&& match result {
                Ok(b) => {
                    &&& b == base
                    &&& final(image).bytes@ == image_after(hs, hs.len(), layout.slide, blob@, base, old(image).bytes@)
                    &&& forall|va: u64| #[trigger] final(scheme).spec_translate(*final(tables), va) == pae_mapping_after(
                        old(scheme),
                        *old(tables),
                        hs,
                        hs.len(),
                        layout.slide,
                        base,
                        va,
                    )
                    &&& forall|k: int| 0 <= k < hs.len() && #[trigger] occupies(hs[k]) ==> pae_segment_accepted(
                        old(scheme),
                        *old(tables),
                        hs,
                        k as nat,
                        layout.slide,
                        base,
                    )
                },
                Err(MapSegmentsError::OutOfMemory) => false,
                Err(MapSegmentsError::MapError(MapError::FrameAllocation)) => !final(table_frames).can_allocate(),
                Err(MapSegmentsError::MapError(MapError::FindFreeRegionError)) => exists|k: int|
                    0 <= k < hs.len() && occupies(hs[k]) && !#[trigger] pae_segment_accepted(
                        old(scheme),
                        *old(tables),
                        hs,
                        k as nat,
                        layout.slide,
                        base,
                    ),
            }
        },
{
    let ghost hs = elf.program_headers@;
    let ghost tables0 = *tables;
    let frame_count = layout.byte_span / 4096 + if layout.byte_span % 4096 != 0 { 1 } else { 0 };
    let max_physical = scheme.output_descriptor().valid_ranges()[0].1;
    assert(max_physical == pae_image_max(scheme));
    let base = match image_frames.allocate_frames(frame_count, max_physical) {
        Some(base) => base,
        None => return Err(MapSegmentsError::OutOfMemory),
    };
    let slide = layout.slide;
    let headers = &elf.program_headers;
    proof {
        crate::mapping::lemma_frames_before_monotone(hs, 0, hs.len(), slide);
    }
    let mut frame_index: u64 = 0;
    let mut index: usize = 0;
    while index < headers.len()
        invariant
            hs == headers@,
            hs == elf.program_headers@,
            slide == layout.slide,
            base == old(image_frames).next,
            base % 4096 == 0,
            base <= old(image_frames).end,
            image_frames.wf(),
            image_frames.end == old(image_frames).end,
            image_frames.next == base + image_frame_count(layout.byte_span) * 4096,
            old(image_frames).can_allocate_frames(image_frame_count(layout.byte_span) as u64, pae_image_max(old(scheme))),
            *scheme == *old(scheme),
            tables0 == *old(tables),
            scheme.spec_physical_bits() <= 52,
            segments_fit(hs, slide, blob@, old(image_frames).end),
            index <= hs.len(),
            frame_index == frames_before(hs, index as nat, slide),
            frames_before(hs, index as nat, slide) <= frames_before(hs, hs.len(), slide),
            scheme.tables_wf(*tables, *table_frames),
            image.bytes@ == image_after(hs, index as nat, slide, blob@, base as int, old(image).bytes@),
            forall|va: u64| #[trigger] scheme.spec_translate(*tables, va) == pae_mapping_after(
                scheme,
                tables0,
                hs,
                index as nat,
                slide,
                base as int,
                va,
            ),
            forall|k: int| 0 <= k < index && #[trigger] occupies(hs[k]) ==> pae_segment_accepted(
                scheme,
                tables0,
                hs,
                k as nat,
                slide,
                base as int,
            ),
        decreases hs.len() - index,
    {
        let header = headers[index];
        proof {
            crate::mapping::lemma_frames_before_monotone(hs, (index + 1) as nat, hs.len(), slide);
        }
        if header.segment_type == SEGMENT_LOAD && header.memory_size > 0 {
            assert(occupies(hs[index as int]));
            let start = slide + header.virtual_address;
            let end = start + (header.memory_size - 1);
            let first = start / 4096;
            let count = end / 4096 - first + 1;
            assert(segment_pages(header, slide) == (first as int, count as int));
            let segment_physical_address = base + frame_index * 4096;
            frame_index = frame_index + count;
            let offset = start - first * 4096;
            let writable = header.flags & SEGMENT_WRITE == SEGMENT_WRITE;
            let executable = header.flags & SEGMENT_EXECUTE == SEGMENT_EXECUTE;
            let permissions = Permissions::from_access(writable, executable);
            let input = ChunkRange::new(first, count);
            let output = ChunkRange::new(segment_physical_address / 4096, count);
            assert(segment_physical_address / 4096 * 4096 == segment_physical_address);
            assert(input == segment_input(header, slide));
            assert(output == segment_output(hs, index as nat, slide, base as int));
            match map_segment(
                scheme,
                tables,
                table_frames,
                Ghost(tables0),
                Ghost(hs),
                Ghost(index as nat),
                slide,
                Ghost(base as int),
                input,
                output,
                permissions,
            ) {
                Ok(()) => {},
                Err(error) => {
                    return Err(MapSegmentsError::MapError(error));
                },
            }
            let data: &[u8] = if header.offset <= blob.len() as u64 && header.file_size <= blob.len() as u64 - header.offset {
                slice_range(blob, header.offset as usize, (header.offset + header.file_size) as usize)
            } else {
                &[]
            };
            assert(data@ == segment_data(blob@, header));
            let zeros = header.memory_size - data.len() as u64;
            assert(data@ + Seq::new(zeros as nat, |i: int| 0u8) == segment_image(blob@, header));
            write_segment(image, segment_physical_address + offset, data, zeros);
        }
        index += 1;
    }
    Ok(base)
}

/// Maps the `k`-th header's segment, `input` to `output` with `permissions`, over tables that
/// show the first `k` segments mapped over `tables0`.
#[verifier::rlimit(100)]
#[verifier::spinoff_prover]
fn map_segment(
    scheme: &mut PaeTranslationScheme,
    tables: &mut PhysicalMemory64,
    table_frames: &mut FrameAllocator,
    Ghost(tables0): Ghost<PhysicalMemory64>,
    Ghost(hs): Ghost<Seq<ProgramHeader>>,
    Ghost(k): Ghost<nat>,
    slide: u64,
    Ghost(base): Ghost<int>,
    input: ChunkRange,
    output: ChunkRange,
    permissions: Permissions,
) -> (result: Result<(), MapError>)
    requires
        old(scheme).tables_wf(*old(tables), *old(table_frames)),
        old(scheme).spec_physical_bits() <= 52,
        k < hs.len(),
        occupies(hs[k as int]),
        input == segment_input(hs[k as int], slide),
        output == segment_output(hs, k, slide, base),
        range_fits(input),
        range_fits(output),
        permissions == segment_permissions(hs[k as int]),
        forall|va: u64| #[trigger] old(scheme).spec_translate(*old(tables), va) == pae_mapping_after(
            old(scheme),
            tables0,
            hs,
            k,
            slide,
            base,
            va,
        ),
    ensures
        *final(scheme) == *old(scheme),
        final(scheme).tables_wf(*final(tables), *final(table_frames)),
        match result {
            Ok(()) => {
                &&& pae_segment_accepted(old(scheme), tables0, hs, k, slide, base)
                &&& forall|va: u64| #[trigger] final(scheme).spec_translate(*final(tables), va) == pae_mapping_after(
                    old(scheme),
                    tables0,
                    hs,
                    k + 1,
                    slide,
                    base,
                    va,
                )
            },
            Err(MapError::FrameAllocation) => !final(table_frames).can_allocate(),
            Err(MapError::FindFreeRegionError) => !pae_segment_accepted(old(scheme), tables0, hs, k, slide, base),
        },
{
    let ghost state = *tables;
    proof {
        lemma_accepted(scheme, state, tables0, hs, k, slide, base, input, output);
    }
    let result = scheme.map_at(tables, table_frames, input, output, permissions, MappingType::Normal);
    proof {
        if result is Ok {
            lemma_advance(scheme, state, *tables, *table_frames, tables0, hs, k, slide, base, input, output, permissions);
        }
    }
    result
}

/// Over tables that show the first `k` segments, `map_at` accepts the `k`-th segment exactly
/// when [`pae_segment_accepted`] holds.
proof fn lemma_accepted(
    scheme: &PaeTranslationScheme,
    state: PhysicalMemory64,
    tables0: PhysicalMemory64,
    hs: Seq<ProgramHeader>,
    k: nat,
    slide: u64,
    base: int,
    input: ChunkRange,
    output: ChunkRange,
)
    requires
        k < hs.len(),
        input == segment_input(hs[k as int], slide),
        output == segment_output(hs, k, slide, base),
        forall|va: u64| #[trigger] scheme.spec_translate(state, va) == pae_mapping_after(scheme, tables0, hs, k, slide, base, va),
    ensures
        scheme.map_at_accepts(state, input, output) == pae_segment_accepted(scheme, tables0, hs, k, slide, base),
{
    let a = scheme.map_at_accepts(state, input, output);
    let b = pae_segment_accepted(scheme, tables0, hs, k, slide, base);
    if a {
        assert forall|j: int| 0 <= j < input.count implies #[trigger] pae_mapping_after(
            scheme,
            tables0,
            hs,
            k,
            slide,
            base,
            ((input.start + j) * 4096) as u64,
        ) is None by {
            assert(scheme.spec_translate(state, ((input.start + j) * 4096) as u64) is None);
        }
    }
    if b {
        assert forall|j: int| 0 <= j < input.count implies #[trigger] scheme.spec_translate(
            state,
            ((input.start + j) * 4096) as u64,
        ) is None by {
            assert(pae_mapping_after(scheme, tables0, hs, k, slide, base, ((input.start + j) * 4096) as u64) is None);
        }
    }
}

/// Once `map_at` has mapped the `k`-th segment over tables that show the first `k`, the tables
/// show the first `k + 1`.
proof fn lemma_advance(
    scheme: &PaeTranslationScheme,
    state: PhysicalMemory64,
    after: PhysicalMemory64,
    after_allocator: FrameAllocator,
    tables0: PhysicalMemory64,
    hs: Seq<ProgramHeader>,
    k: nat,
    slide: u64,
    base: int,
    input: ChunkRange,
    output: ChunkRange,
    permissions: Permissions,
)
    requires
        scheme.spec_physical_bits() <= 52,
        k < hs.len(),
        occupies(hs[k as int]),
        input == segment_input(hs[k as int], slide),
        output == segment_output(hs, k, slide, base),
        range_fits(input),
        range_fits(output),
        permissions == segment_permissions(hs[k as int]),
        scheme.map_at_accepts(state, input, output),
        scheme.shows_mapping(state, after, input, output, permissions, input.count as int),
        scheme.tables_wf(after, after_allocator),
        forall|j: int| 0 <= j < input.count ==> !#[trigger] scheme.misses_table(after, ((input.start + j) * 4096) as u64),
        forall|va: u64| #[trigger] scheme.spec_translate(state, va) == pae_mapping_after(scheme, tables0, hs, k, slide, base, va),
    ensures
        forall|va: u64| #[trigger] scheme.spec_translate(after, va) == pae_mapping_after(
            scheme,
            tables0,
            hs,
            k + 1,
            slide,
            base,
            va,
        ),
{
    assert forall|va: u64| #[trigger] scheme.spec_translate(after, va) == pae_mapping_after(
        scheme,
        tables0,
        hs,
        k + 1,
        slide,
        base,
        va,
    ) by {
        lemma_step(scheme, state, after, after_allocator, input, output, permissions, va);
        assert(scheme.spec_translate(state, va) == pae_mapping_after(scheme, tables0, hs, k, slide, base, va));
    }
}

/// After `map_at` has mapped `input` to `output`, an address in `input` translates as the law
/// of PAE mapping says, and any other address as before.
proof fn lemma_step(
    scheme: &PaeTranslationScheme,
    before: PhysicalMemory64,
    after: PhysicalMemory64,
    after_allocator: FrameAllocator,
    input: ChunkRange,
    output: ChunkRange,
    permissions: Permissions,
    va: u64,
)
    requires
        scheme.spec_physical_bits() <= 52,
        range_fits(input),
        range_fits(output),
        scheme.map_at_accepts(before, input, output),
        scheme.shows_mapping(before, after, input, output, permissions, input.count as int),
        scheme.tables_wf(after, after_allocator),
        forall|k: int| 0 <= k < input.count ==> !#[trigger] scheme.misses_table(after, ((input.start + k) * 4096) as u64),
    ensures
        scheme.spec_translate(after, va) == if range_start(input) <= va <= range_end(input) {
            Some(
                (
                    Permissions::from_access_spec(permissions.spec_writable(), !scheme.spec_nxe() || permissions.spec_executable()),
                    MappingType::Normal,
                    (range_start(output) + (va - range_start(input))) as u64,
                ),
            )
        } else {
            scheme.spec_translate(before, va)
        },
{
    AddressSpaceDescriptor::lemma_spec_new(32, false);
    vstd::arithmetic::power2::lemma2_to64();
    if range_start(input) <= va <= range_end(input) {
        crate::pae::law_pae_map_at_then_translate(scheme, before, after, after_allocator, input, output, permissions, va);
    } else {
        assert(scheme.spec_translate(after, va) == scheme.mapped_after(before, after, input, output, permissions, input.count as int, va));
        if PaeTranslationScheme::in_pages(input, input.count as int, va) {
            assert(input.start * 4096 <= va && va <= (input.start + input.count) * 4096 - 1) by (nonlinear_arith)
                requires
                    input.start <= va / 4096 < input.start + input.count,
            ;
        }
    }
}

/// The layout of `elf` in the 32-bit address space.
pub open spec fn pae_layout(elf: &ParsedElf) -> Result<Layout, crate::layout::ComputeLayoutError> {
    spec_layout(elf.program_headers@, elf.elf_type, 4096, AddressSpaceDescriptor::spec_new(32, false).spec_valid_ranges())
}

/// Places the parsed executable `elf`, read from `blob`, in the PAE address space of `scheme`:
/// lays it out in the 32-bit address space, maps its segments as [`map_segments_pae`] does and
/// applies its relocations through the new mappings.
///
/// Returns the scheme, the entry point, the address of the image and the slide.
#[verifier::rlimit(50)]
pub fn place_pae(
    elf: &ParsedElf,
    blob: &[u8],
    scheme: PaeTranslationScheme,
    tables: &mut PhysicalMemory64,
    table_frames: &mut FrameAllocator,
    image_frames: &mut FrameAllocator,
    image: &mut PhysicalBytes,
) -> (result: Result<(PaeTranslationScheme, u64, u64, u64), LoadExecutableError>)
    requires
        scheme.tables_wf(*old(tables), *old(table_frames)),
        scheme.spec_physical_bits() <= 52,
        old(image_frames).wf(),
        has_loadable(elf.program_headers@),
        scan(elf.program_headers@, elf.program_headers@.len(), 4096) matches Ok(s) ==> align_up(s.max, s.alignment)
            <= u64::MAX,
        pae_layout(elf) matches Ok(l) ==> {
            &&& segments_fit(elf.program_headers@, l.slide, blob@, old(image_frames).end)
            &&& !uses_rel_table(elf, blob@)
            &&& elf.entry_point + l.slide <= u64::MAX
        },
    ensures
        scheme.tables_wf(*final(tables), *final(table_frames)),
        final(image_frames).wf(),
        final(image_frames).end == old(image_frames).end,
        match pae_layout(elf) {
            Err(e) => {
                &&& result == Err::<(PaeTranslationScheme, u64, u64, u64), LoadExecutableError>(
                    LoadExecutableError::ComputeLayoutError(e),
                )
                &&& *final(tables) == *old(tables)
                &&& *final(table_frames) == *old(table_frames)
                &&& *final(image_frames) == *old(image_frames)
                &&& *final(image) == *old(image)
            },
            Ok(l) => {
                let hs = elf.program_headers@;
                let base = old(image_frames).next as int;
                if !old(image_frames).can_allocate_frames(image_frame_count(l.byte_span) as u64, pae_image_max(&scheme)) {
                    result == Err::<(PaeTranslationScheme, u64, u64, u64), LoadExecutableError>(
                        LoadExecutableError::MapSegmentsError(MapSegmentsError::OutOfMemory),
                    )
                } else {
                    let mapped = image_after(hs, hs.len(), l.slide, blob@, base, old(image).bytes@);
                    let view = PaeTables { scheme: &scheme, memory: &*final(tables) };
                    &&& final(image_frames).next == base + image_frame_count(l.byte_span) * 4096
                    &&& match result {
                        Ok((s, entry, b, slide)) => {
                            &&& s == scheme
                            &&& entry == elf.entry_point + l.slide
                            &&& b == base
                            &&& slide == l.slide
                            &&& forall|va: u64| #[trigger] scheme.spec_translate(*final(tables), va) == pae_mapping_after(
                                &scheme,
                                *old(tables),
                                hs,
                                hs.len(),
                                l.slide,
                                base,
                                va,
                            )
                            &&& relocations_outcome(&view, elf, blob@, l.slide, hs.len(), mapped) == Some(
                                (Ok::<(), crate::relocation::ApplyRelocationsError>(()), final(image).bytes@),
                            )
                        },
                        Err(LoadExecutableError::MapSegmentsError(MapSegmentsError::MapError(MapError::FrameAllocation))) => !final(table_frames).can_allocate(),
                        Err(LoadExecutableError::MapSegmentsError(MapSegmentsError::MapError(MapError::FindFreeRegionError))) => exists|k: int|
                            0 <= k < hs.len() && occupies(hs[k]) && !#[trigger] pae_segment_accepted(
                                &scheme,
                                *old(tables),
                                hs,
                                k as nat,
                                l.slide,
                                base,
                            ),
                        Err(LoadExecutableError::ApplyRelocationsError(e)) => {
                            &&& forall|va: u64| #[trigger] scheme.spec_translate(*final(tables), va) == pae_mapping_after(
                                &scheme,
                                *old(tables),
                                hs,
                                hs.len(),
                                l.slide,
                                base,
                                va,
                            )
                            &&& relocations_outcome(&view, elf, blob@, l.slide, hs.len(), mapped) == Some(
                                (Err::<(), crate::relocation::ApplyRelocationsError>(e), final(image).bytes@),
                            )
                        },
                        Err(_) => false,
                    }
                }
            },
        },
{
    let descriptor = AddressSpaceDescriptor::new(32, false);
    let layout = match compute_layout(elf, 4096, descriptor) {
        Ok(layout) => layout,
        Err(error) => return Err(LoadExecutableError::ComputeLayoutError(error)),
    };
    let mut scheme = scheme;
    let base = match map_segments_pae(elf, blob, &layout, &mut scheme, tables, table_frames, image_frames, image) {
        Ok(base) => base,
        Err(error) => return Err(LoadExecutableError::MapSegmentsError(error)),
    };
    let ghost mapped = image.bytes@;
    let view = PaeTables { scheme: &scheme, memory: tables };
    proof {
        lemma_outcome_without_rel(&view, elf, blob@, layout.slide, elf.program_headers@.len(), mapped);
    }
    match apply_relocations(elf, blob, &layout, &view, image) {
        Ok(()) => {},
        Err(error) => return Err(LoadExecutableError::ApplyRelocationsError(error)),
    }
    let entry = elf.entry_point + layout.slide;
    Ok((scheme, entry, base, layout.slide))
}

} // verus!
