//! Loading the embedded executable: parsing it, creating the address space it runs in, laying it
//! out, mapping its segments and applying its relocations.
use vstd::prelude::*;

use crate::descriptor::AddressSpaceDescriptor;
use crate::elf::{
    parse, parse_error, spec_phentsize, spec_phnum, spec_phoff, spec_program_header, uint_at, Machine,
    ParseElfError, ParsedElf, ProgramHeader,
};
use crate::layout::{align_up, compute_layout, has_loadable, scan, spec_layout, ComputeLayoutError, Layout};
use crate::long_mode::{entry_at, leaf_value, present64, same_path, X86_64AddressSpace};
use crate::mapping::{
    frames_before, image_after, image_frame_count, in_segment, input_valid, map_segments, mapping_after, segment_input,
    max_image_address, occupies, page_taken, segment_output, segment_pages, segment_permissions,
    segment_refused, segments_fit, MapSegmentsError,
};
use crate::paging::MapError;
use crate::physical_memory::{FrameAllocator, PhysicalBytes, PhysicalMemory64};
use crate::relocation::{apply_relocations, relocations_outcome, uses_rel_table, lemma_outcome_without_rel, ApplyRelocationsError};
use crate::x86_paging::{
    new_address_space, protection_of, range_end, range_start, LongModeTables, LongModeTranslationScheme, PagingMode,
    X86CommonScheme, X86CommonSchemeError, X86Features,
};

verus! {

/// Various errors that can occur while loading the embedded executable.
#[derive(Clone, Copy, Debug, PartialEq, Eq, Structural)]
pub enum LoadExecutableError {
    /// An error occurred while parsing the ELF file.
    ParseElfError(ParseElfError),
    /// An error occurred while creating the new address space.
    AddressSpaceError(X86CommonSchemeError),
    /// An error occurred while computing the layout of the executable when loaded.
    ComputeLayoutError(ComputeLayoutError),
    /// An error occurred while mapping the executable into the address space.
    MapSegmentsError(MapSegmentsError),
    /// An error occurred while relocating the loaded executable.
    ApplyRelocationsError(ApplyRelocationsError),
}

/// The program headers that parsing `b` extracts.
pub open spec fn blob_headers(b: Seq<u8>) -> Seq<ProgramHeader> {
    let class_64 = b[4] == 2;
    let be = b[5] == 2;
    Seq::new(
        spec_phnum(b, class_64, be),
        |i: int| spec_program_header(b, class_64, be, spec_phoff(b, class_64, be) + i * spec_phentsize(b, class_64, be)),
    )
}

/// `p` holds what parsing `b` extracts.
pub open spec fn parsed_from(b: Seq<u8>, p: ParsedElf) -> bool {
    let class_64 = b[4] == 2;
    let be = b[5] == 2;
    &&& p.class_64 == class_64
    &&& p.big_endian == be
    &&& p.elf_type.0 == uint_at(b, 16, 2, be)
    &&& p.machine.0 == uint_at(b, 18, 2, be)
    &&& p.entry_point == if class_64 {
        uint_at(b, 24, 8, be)
    } else {
        uint_at(b, 24, 4, be)
    }
    &&& p.program_headers@ == blob_headers(b)
}

/// What parsing `b` extracts, where it succeeds.
pub open spec fn parsed_elf(b: Seq<u8>) -> ParsedElf {
    choose|p: ParsedElf| parsed_from(b, p)
}

/// The input address space of long mode tables, with or without `LA57`.
pub open spec fn long_mode_input(la57: bool) -> AddressSpaceDescriptor {
    AddressSpaceDescriptor::spec_new(if la57 { 57u8 } else { 48u8 }, true)
}

/// The layout of `p` in a long mode address space, with or without `LA57`.
pub open spec fn layout_of(p: ParsedElf, la57: bool) -> Result<Layout, ComputeLayoutError> {
    spec_layout(p.program_headers@, p.elf_type, 4096, long_mode_input(la57).spec_valid_ranges())
}

/// Loading `b` with `LA57` as given and image frames that end at `image_end` runs to an
/// outcome: an `x86_64` executable has a loadable segment, its aligned end fits in 64 bits and,
/// once laid out, its segments and entry point fit in 64 bits and it has no `REL` table.
pub open spec fn load_defined(b: Seq<u8>, la57: bool, image_end: u64) -> bool {
    parse_error(b) is None && parsed_elf(b).machine == Machine::spec_x86_64() ==> {
        let p = parsed_elf(b);
        let hs = p.program_headers@;
        &&& has_loadable(hs)
        &&& scan(hs, hs.len(), 4096) matches Ok(s) ==> align_up(s.max, s.alignment) <= u64::MAX
        &&& layout_of(p, la57) matches Ok(l) ==> {
            &&& segments_fit(hs, l.slide, b, image_end)
            &&& !uses_rel_table(&p, b)
            &&& p.entry_point + l.slide <= u64::MAX
        }
    }
}

/// The last-level entry of `va` once the first `n` headers are mapped over empty tables of `top`
/// levels, the image frames starting at `base`: a page of a later segment overrides.
pub open spec fn segments_mapping(top: nat, nxe: bool, hs: Seq<ProgramHeader>, n: nat, slide: u64, base: int, va: u64) -> Option<u64>
    decreases n,
{
    if n == 0 {
        None
    } else {
        let h = hs[n - 1];
        let first = segment_pages(h, slide).0;
        let count = segment_pages(h, slide).1;
        if occupies(h) && exists|j: int| 0 <= j < count && #[trigger] same_path(va, ((first + j) * 4096) as u64, 0, top) {
            let j = choose|j: int| 0 <= j < count && #[trigger] same_path(va, ((first + j) * 4096) as u64, 0, top);
            let frame = base + (frames_before(hs, (n - 1) as nat, slide) + j) * 4096;
            let v = leaf_value(frame as u64, protection_of(segment_permissions(h)), nxe);
            if present64(v) {
                Some(v)
            } else {
                None
            }
        } else {
            segments_mapping(top, nxe, hs, (n - 1) as nat, slide, base, va)
        }
    }
}

/// Why mapping the `k`-th header's segment into empty tables is refused: its virtual range is
/// not canonical, its frames lie beyond the physical address space, or one of its pages belongs
/// to an earlier loadable segment.
pub open spec fn segment_clash(
    scheme: &LongModeTranslationScheme,
    hs: Seq<ProgramHeader>,
    k: nat,
    slide: u64,
    base: int,
) -> bool {
    let input = segment_input(hs[k as int], slide);
    let output = segment_output(hs, k, slide, base);
    ||| !input_valid(scheme, hs[k as int], slide)
    ||| !AddressSpaceDescriptor::spec_new(52, false).spec_is_valid_range(range_start(output), range_end(output))
    ||| exists|j: int, i: int| 0 <= j < input.count && 0 <= i < k && occupies(hs[i]) && #[trigger] in_segment(hs[i], slide, input.start + j)
}

/// Over tables whose walks find no present entry, a refused segment clashes.
proof fn lemma_refused_clash(
    scheme: &LongModeTranslationScheme,
    memory: PhysicalMemory64,
    hs: Seq<ProgramHeader>,
    k: nat,
    slide: u64,
    base: int,
)
    requires
        forall|va: u64, l: nat| 1 <= l <= scheme.top() ==> #[trigger] entry_at(memory, scheme.spec_cr3() as int, scheme.top(), va, l) is None,
        segment_refused(scheme, memory, hs, k, slide, base),
    ensures
        segment_clash(scheme, hs, k, slide, base),
{
    let input = segment_input(hs[k as int], slide);
    if exists|j: int| 0 <= j < input.count && #[trigger] page_taken(scheme, memory, hs, k, slide, input.start + j) {
        let j = choose|j: int| 0 <= j < input.count && #[trigger] page_taken(scheme, memory, hs, k, slide, input.start + j);
        let va = ((input.start + j) * 4096) as u64;
        let root = scheme.spec_cr3() as int;
        let level = crate::long_mode::end_level(memory, root, scheme.top(), va);
        assert(entry_at(memory, root, scheme.top(), va, level) is None);
        assert(scheme.spec_translate(memory, va) is None);
        let i = choose|i: int| 0 <= i < k && occupies(hs[i]) && #[trigger] in_segment(hs[i], slide, input.start + j);
        assert(in_segment(hs[i], slide, input.start + j));
    }
}

/// Over tables that map nothing, mapping the segments gives [`segments_mapping`].
proof fn lemma_mapping_from_empty(space: X86_64AddressSpace, hs: Seq<ProgramHeader>, n: nat, slide: u64, base: int, va: u64)
    requires
        forall|a: u64| #[trigger] space.mapping(a) is None,
    ensures
        mapping_after(space, hs, n, slide, base, va) == segments_mapping(space.top(), space.spec_nxe(), hs, n, slide, base, va),
    decreases n,
{
    if n > 0 {
        lemma_mapping_from_empty(space, hs, (n - 1) as nat, slide, base, va);
    }
}

/// Relocating gives the same outcome for two parsed files that hold the same values.
proof fn lemma_outcome_same_file(
    scheme: &LongModeTables,
    e1: &ParsedElf,
    e2: &ParsedElf,
    blob: Seq<u8>,
    slide: u64,
    n: nat,
    memory: Seq<u8>,
)
    requires
        e1.program_headers@ == e2.program_headers@,
        e1.machine == e2.machine,
        e1.class_64 == e2.class_64,
        e1.big_endian == e2.big_endian,
    ensures
        relocations_outcome(scheme, e1, blob, slide, n, memory) == relocations_outcome(scheme, e2, blob, slide, n, memory),
    decreases n,
{
    if n > 0 {
        lemma_outcome_same_file(scheme, e1, e2, blob, slide, (n - 1) as nat, memory);
    }
}


/// What placing the parsed executable `p`, whose bytes are `blob`, into the empty tables of
/// `scheme` gives: the tables end as `tables` with frames from `table_frames`, the image frames
/// as `image_frames_after` and the image as `image_end`, from `image_frames` and `image`.
///
/// A layout error is reported as such; where the image frames cannot be had, the image is out
/// of memory; else the segments are mapped in turn from the first image frame and the
/// relocations applied to the image, and the result says how each step ended.
pub open spec fn placement(
    p: ParsedElf,
    blob: Seq<u8>,
    scheme: LongModeTranslationScheme,
    image_frames: FrameAllocator,
    image: Seq<u8>,
    tables: PhysicalMemory64,
    table_frames: FrameAllocator,
    image_frames_after: FrameAllocator,
    image_end: Seq<u8>,
    result: Result<(LongModeTranslationScheme, Machine, u64, u64, u64), LoadExecutableError>,
) -> bool {
    let hs = p.program_headers@;
    match layout_of(p, scheme.spec_la57()) {
        Err(e) => result == Err::<(LongModeTranslationScheme, Machine, u64, u64, u64), LoadExecutableError>(
            LoadExecutableError::ComputeLayoutError(e),
        ),
        Ok(l) => if !image_frames.can_allocate_frames(image_frame_count(l.byte_span) as u64, max_image_address()) {
            result == Err::<(LongModeTranslationScheme, Machine, u64, u64, u64), LoadExecutableError>(
                LoadExecutableError::MapSegmentsError(MapSegmentsError::OutOfMemory),
            )
        } else {
            let base = image_frames.next as int;
            let mapped = image_after(hs, hs.len(), l.slide, blob, base, image);
            let view = LongModeTables { scheme: &scheme, memory: &tables };
            let loaded = {
                &&& scheme.tables(tables, table_frames).wf()
                &&& forall|va: u64| #[trigger] scheme.tables(tables, table_frames).mapping(va)
                    == segments_mapping(scheme.top(), scheme.spec_nxe(), hs, hs.len(), l.slide, base, va)
            };
            &&& image_frames_after.next == base + image_frame_count(l.byte_span) * 4096
            &&& match result {
                Ok((s, machine, entry, image_base, slide)) => {
                    &&& s == scheme
                    &&& machine == p.machine
                    &&& entry == p.entry_point + l.slide
                    &&& image_base == base
                    &&& slide == l.slide
                    &&& loaded
                    &&& relocations_outcome(&view, &p, blob, l.slide, hs.len(), mapped)
                        == Some((Ok::<(), ApplyRelocationsError>(()), image_end))
                },
                Err(LoadExecutableError::ApplyRelocationsError(e)) => {
                    &&& loaded
                    &&& relocations_outcome(&view, &p, blob, l.slide, hs.len(), mapped)
                        == Some((Err::<(), ApplyRelocationsError>(e), image_end))
                },
                Err(LoadExecutableError::MapSegmentsError(MapSegmentsError::MapError(MapError::FrameAllocation))) =>
                    !table_frames.can_allocate(),
                Err(LoadExecutableError::MapSegmentsError(MapSegmentsError::MapError(MapError::FindFreeRegionError))) =>
                    exists|k: int| 0 <= k < hs.len() && occupies(hs[k]) && #[trigger] segment_clash(&scheme, hs, k as nat, l.slide, base),
                Err(_) => false,
            }
        },
    }
}

/// Lays out the parsed executable `parsed`, whose bytes are `blob`, maps its segments into the
/// empty tables of `scheme` and applies its relocations.
#[verifier::rlimit(40)]
#[verifier::spinoff_prover]
fn place(
    parsed: &ParsedElf,
    blob: &[u8],
    scheme: LongModeTranslationScheme,
    tables: &mut PhysicalMemory64,
    table_frames: &mut FrameAllocator,
    image_frames: &mut FrameAllocator,
    image: &mut PhysicalBytes,
) -> (result: Result<(LongModeTranslationScheme, Machine, u64, u64, u64), LoadExecutableError>)
    requires
        scheme.tables(*old(tables), *old(table_frames)).wf(),
        forall|va: u64| #[trigger] scheme.tables(*old(tables), *old(table_frames)).mapping(va) is None,
        forall|va: u64, l: nat| 1 <= l <= scheme.top() ==> #[trigger] entry_at(*old(tables), scheme.spec_cr3() as int, scheme.top(), va, l) is None,
        old(image_frames).wf(),
        has_loadable(parsed.program_headers@),
        scan(parsed.program_headers@, parsed.program_headers@.len(), 4096) matches Ok(s) ==> align_up(s.max, s.alignment) <= u64::MAX,
        layout_of(*parsed, scheme.spec_la57()) matches Ok(l) ==> {
            &&& segments_fit(parsed.program_headers@, l.slide, blob@, old(image_frames).end)
            &&& !uses_rel_table(parsed, blob@)
            &&& parsed.entry_point + l.slide <= u64::MAX
        },
    ensures
        final(table_frames).wf(),
        final(image_frames).wf(),
        final(image_frames).end == old(image_frames).end,
        placement(*parsed, blob@, scheme, *old(image_frames), old(image).bytes@, *final(tables), *final(table_frames),
            *final(image_frames), final(image).bytes@, result),
{
    let ghost empty_tables = *tables;
    let ghost before = scheme.tables(*tables, *table_frames);
    let ghost old_scheme = scheme;
    proof {
        X86_64AddressSpace::lemma_from_parts(scheme.spec_cr3(), scheme.spec_la57(), scheme.spec_nxe(), *tables, *table_frames);
        before.lemma_wf_allocator();
    }
    let mut scheme = scheme;
    let descriptor = scheme.input_descriptor();
    let layout = match compute_layout(parsed, 4096, descriptor) {
        Ok(layout) => layout,
        Err(error) => return Err(LoadExecutableError::ComputeLayoutError(error)),
    };
    let base = match map_segments(parsed, blob, &layout, &mut scheme, tables, table_frames, image_frames, image) {
        Ok(base) => base,
        Err(error) => {
            proof {
                X86_64AddressSpace::lemma_from_parts(scheme.spec_cr3(), scheme.spec_la57(), scheme.spec_nxe(), *tables, *table_frames);
                scheme.tables(*tables, *table_frames).lemma_wf_allocator();
                if error == MapSegmentsError::MapError(MapError::FindFreeRegionError) {
                    let hs = parsed.program_headers@;
                    let k = choose|k: int| 0 <= k < hs.len() && occupies(hs[k]) && #[trigger] segment_refused(
                        &old_scheme,
                        empty_tables,
                        hs,
                        k as nat,
                        layout.slide,
                        old(image_frames).next as int,
                    );
                    lemma_refused_clash(&old_scheme, empty_tables, hs, k as nat, layout.slide, old(image_frames).next as int);
                }
            }
            return Err(LoadExecutableError::MapSegmentsError(error));
        },
    };
    proof {
        assert forall|va: u64| #[trigger] scheme.tables(*tables, *table_frames).mapping(va)
            == segments_mapping(scheme.top(), scheme.spec_nxe(), parsed.program_headers@, parsed.program_headers@.len(), layout.slide, base as int, va) by {
            lemma_mapping_from_empty(before, parsed.program_headers@, parsed.program_headers@.len(), layout.slide, base as int, va);
        }
        X86_64AddressSpace::lemma_from_parts(scheme.spec_cr3(), scheme.spec_la57(), scheme.spec_nxe(), *tables, *table_frames);
        scheme.tables(*tables, *table_frames).lemma_wf_allocator();
        scheme.tables(*tables, *table_frames).lemma_wf_root();
    }
    let ghost mapped = image.bytes@;
    let view = LongModeTables { scheme: &scheme, memory: tables };
    proof {
        lemma_outcome_without_rel(&view, parsed, blob@, layout.slide, parsed.program_headers@.len(), mapped);
    }
    match apply_relocations(parsed, blob, &layout, &view, image) {
        Ok(()) => {},
        Err(error) => return Err(LoadExecutableError::ApplyRelocationsError(error)),
    }
    let entry = parsed.entry_point + layout.slide;
    Ok((scheme, parsed.machine, entry, base, layout.slide))
}

/// Loads the executable in `blob` into a new long mode address space, for a processor that runs
/// in `current_paging_mode` with `features`. The tables live in `tables`, with frames from
/// `table_frames`, the first of which becomes the root table; the image lives in `image`, with
/// frames from `image_frames`.
///
/// Returns the address space, the executable's machine, its entry point, the address of its
/// image and its slide.
pub fn load(
    blob: &[u8],
    current_paging_mode: PagingMode,
    features: X86Features,
    tables: &mut PhysicalMemory64,
    table_frames: &mut FrameAllocator,
    image_frames: &mut FrameAllocator,
    image: &mut PhysicalBytes,
) -> (result: Result<(LongModeTranslationScheme, Machine, u64, u64, u64), LoadExecutableError>)
    requires
        old(table_frames).wf(),
        old(table_frames).end <= old(tables).byte_len(),
        old(table_frames).end <= 0x10_0000_0000_0000,
        old(image_frames).wf(),
        load_defined(blob@, current_paging_mode == PagingMode::Level5, old(image_frames).end),
    ensures
        final(table_frames).wf(),
        final(image_frames).wf(),
        final(image_frames).end == old(image_frames).end,
        match parse_error(blob@) {
            Some(e) => {
                &&& result == Err::<(LongModeTranslationScheme, Machine, u64, u64, u64), LoadExecutableError>(
                    LoadExecutableError::ParseElfError(e),
                )
                &&& *final(tables) == *old(tables)
                &&& *final(table_frames) == *old(table_frames)
                &&& *final(image_frames) == *old(image_frames)
                &&& *final(image) == *old(image)
            },
            None => {
                let p = parsed_elf(blob@);
                let long_mode = current_paging_mode == PagingMode::Level4 || current_paging_mode == PagingMode::Level5;
                if p.machine != Machine::spec_x86_64() || !long_mode || !old(table_frames).can_allocate() {
                    &&& result == Err::<(LongModeTranslationScheme, Machine, u64, u64, u64), LoadExecutableError>(
                        LoadExecutableError::AddressSpaceError(
                            if p.machine != Machine::spec_x86_64() || !long_mode {
                                X86CommonSchemeError::NotSupported
                            } else {
                                X86CommonSchemeError::OutOfMemory
                            },
                        ),
                    )
                    &&& *final(tables) == *old(tables)
                    &&& *final(table_frames) == *old(table_frames)
                    &&& *final(image_frames) == *old(image_frames)
                    &&& *final(image) == *old(image)
                } else {
                    placement(
                        p,
                        blob@,
                        LongModeTranslationScheme::spec_with(
                            old(table_frames).next,
                            current_paging_mode == PagingMode::Level5,
                            features.cpuid && features.nx,
                        ),
                        *old(image_frames),
                        old(image).bytes@,
                        *final(tables),
                        *final(table_frames),
                        *final(image_frames),
                        final(image).bytes@,
                        result,
                    )
                }
            },
        },
{
    let parsed = match parse(blob) {
        Ok(parsed) => parsed,
        Err(error) => return Err(LoadExecutableError::ParseElfError(error)),
    };
    let ghost p = parsed_elf(blob@);
    proof {
        assert(parsed.program_headers@ =~= blob_headers(blob@));
        assert(parsed_from(blob@, parsed));
        assert(parsed_from(blob@, p));
    }
    let long_mode = current_paging_mode == PagingMode::Level4 || current_paging_mode == PagingMode::Level5;
    let root_table = if parsed.machine.0 == Machine::X86_64 && long_mode {
        LongModeTranslationScheme::allocate_zeroed_table(tables, table_frames)
    } else {
        None
    };
    let scheme = match new_address_space(parsed.machine, current_paging_mode, features, root_table) {
        Ok(X86CommonScheme::LongMode(scheme)) => scheme,
        Ok(_) => return Err(LoadExecutableError::AddressSpaceError(X86CommonSchemeError::NotSupported)),
        Err(error) => return Err(LoadExecutableError::AddressSpaceError(error)),
    };
    let ghost la57 = current_paging_mode == PagingMode::Level5;
    let ghost nxe = features.cpuid && features.nx;
    let ghost root = old(table_frames).next;
    proof {
        scheme.lemma_spec_with(root, la57, nxe);
        X86_64AddressSpace::lemma_zeroed_root(root, la57, nxe, *tables, *table_frames);
        X86_64AddressSpace::lemma_from_parts(root, la57, nxe, *tables, *table_frames);
    }
    let result = place(&parsed, blob, scheme, tables, table_frames, image_frames, image);
    proof {
        let hs = p.program_headers@;
        if let Ok(l) = layout_of(p, la57) {
            let mapped = image_after(hs, hs.len(), l.slide, blob@, old(image_frames).next as int, old(image).bytes@);
            let view = LongModeTables { scheme: &scheme, memory: &*tables };
            lemma_outcome_same_file(&view, &parsed, &p, blob@, l.slide, hs.len(), mapped);
        }
    }
    result
}

} // verus!
