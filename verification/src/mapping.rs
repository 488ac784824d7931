//! Mapping the loadable segments of the executable into long mode page tables and copying
//! their bytes into the image frames.
use vstd::prelude::*;

use crate::descriptor::AddressSpaceDescriptor;
use crate::elf::{ParsedElf, ProgramHeader, SEGMENT_EXECUTE, SEGMENT_LOAD, SEGMENT_WRITE};
use crate::layout::Layout;
use crate::long_mode::{
    address64, block64, end_level, entry_at, frame_at, index_at, leaf_entry, leaf_value, lemma_kept_trans,
    lemma_frame_at_path, lemma_leaf_value, lemma_mapped_after_page, lemma_offset_path, lemma_pages_distinct,
    lemma_persist_trans, physical_limit, present64, same_path, upper_entries_kept,
    upper_entries_persist, walk, X86_64AddressSpace, ADDRESS_MASK,
};
use crate::paging::{ChunkRange, MapError, MappingType, Permissions};
use crate::physical_memory::{FrameAllocator, PhysicalBytes, PhysicalMemory64};
use crate::relocation::slice_range;
use crate::x86_paging::{lemma_protection_bits, protection_of, range_end, range_fits, range_start, LongModeTranslationScheme};

verus! {

/// The header describes a loadable segment that occupies memory.
pub open spec fn occupies(h: ProgramHeader) -> bool {
    h.segment_type == SEGMENT_LOAD && h.memory_size > 0
}

/// The first page and the number of pages of a segment once moved by `slide`.
pub open spec fn segment_pages(h: ProgramHeader, slide: u64) -> (int, int) {
    let start = slide + h.virtual_address;
    let end = start + h.memory_size - 1;
    (start / 4096, end / 4096 - start / 4096 + 1)
}

/// The offset of a segment, once moved by `slide`, within its first page.
pub open spec fn segment_offset(h: ProgramHeader, slide: u64) -> int {
    (slide + h.virtual_address) % 4096
}

/// The permissions that a segment's flags ask for.
pub open spec fn segment_permissions(h: ProgramHeader) -> Permissions {
    Permissions::from_access_spec(h.flags & SEGMENT_WRITE == SEGMENT_WRITE, h.flags & SEGMENT_EXECUTE == SEGMENT_EXECUTE)
}

/// The number of image frames that the segments before the `n`-th take.
pub open spec fn frames_before(hs: Seq<ProgramHeader>, n: nat, slide: u64) -> int
    decreases n,
{
    if n == 0 {
        0
    } else {
        frames_before(hs, (n - 1) as nat, slide) + if occupies(hs[n - 1]) {
            segment_pages(hs[n - 1], slide).1
        } else {
            0
        }
    }
}

/// The bytes of a segment in the file, or none where they lie outside it.
pub open spec fn segment_data(blob: Seq<u8>, h: ProgramHeader) -> Seq<u8> {
    if h.offset + h.file_size <= blob.len() {
        blob.subrange(h.offset as int, h.offset + h.file_size)
    } else {
        Seq::empty()
    }
}

/// The bytes of a segment in memory: its bytes in the file, then zeros.
pub open spec fn segment_image(blob: Seq<u8>, h: ProgramHeader) -> Seq<u8> {
    segment_data(blob, h) + Seq::new((h.memory_size - segment_data(blob, h).len()) as nat, |i: int| 0u8)
}

/// The bytes `bytes` once `data` is written from address `at`; bytes past the end are dropped.
pub open spec fn bytes_written(bytes: Seq<u8>, at: int, data: Seq<u8>) -> Seq<u8> {
    Seq::new(bytes.len(), |i: int| if at <= i < at + data.len() { data[i - at] } else { bytes[i] })
}

/// The image memory once the first `n` headers are loaded, the image frames starting at
/// `base`.
pub open spec fn image_after(hs: Seq<ProgramHeader>, n: nat, slide: u64, blob: Seq<u8>, base: int, bytes: Seq<u8>) -> Seq<u8>
    decreases n,
{
    if n == 0 {
        bytes
    } else {
        let previous = image_after(hs, (n - 1) as nat, slide, blob, base, bytes);
        let h = hs[n - 1];
        if occupies(h) {
            let at = base + frames_before(hs, (n - 1) as nat, slide) * 4096 + segment_offset(h, slide);
            bytes_written(previous, at, segment_image(blob, h))
        } else {
            previous
        }
    }
}

/// The last-level entry of `va` once the first `n` headers are mapped over the tables
/// `space`, the image frames starting at `base`: a page of a later segment overrides.
pub open spec fn mapping_after(space: X86_64AddressSpace, hs: Seq<ProgramHeader>, n: nat, slide: u64, base: int, va: u64) -> Option<u64>
    decreases n,
{
    if n == 0 {
        space.mapping(va)
    } else {
        let h = hs[n - 1];
        let first = segment_pages(h, slide).0;
        let count = segment_pages(h, slide).1;
        if occupies(h) && exists|j: int| 0 <= j < count && #[trigger] same_path(va, ((first + j) * 4096) as u64, 0, space.top()) {
            let j = choose|j: int| 0 <= j < count && #[trigger] same_path(va, ((first + j) * 4096) as u64, 0, space.top());
            let frame = base + (frames_before(hs, (n - 1) as nat, slide) + j) * 4096;
            let v = leaf_value(frame as u64, protection_of(segment_permissions(h)), space.spec_nxe());
            if present64(v) {
                Some(v)
            } else {
                None
            }
        } else {
            mapping_after(space, hs, (n - 1) as nat, slide, base, va)
        }
    }
}

/// Where no page of `count` pages from `virtual_address` shares its path with `va`, mapping
/// them leaves the entry of `va` as it was.
proof fn lemma_mapped_after_other(
    space: &X86_64AddressSpace,
    virtual_address: u64,
    physical_address: u64,
    protection: crate::address_space::ProtectionFlags,
    count: nat,
    va: u64,
)
    requires
        forall|j: int| 0 <= j < count ==> !#[trigger] same_path(va, (virtual_address + j * 4096) as u64, 0, space.top()),
    ensures
        space.mapped_after(virtual_address, physical_address, protection, count, va) == space.mapping(va),
    decreases count,
{
    if count > 0 {
        assert(!same_path(va, (virtual_address + (count - 1) * 4096) as u64, 0, space.top()));
        lemma_mapped_after_other(space, virtual_address, physical_address, protection, (count - 1) as nat, va);
    }
}

/// The index of the top-level table entry tells the lower half of the address space from the
/// upper half, with 4 and with 5 levels.
proof fn lemma_top_index_halves(a: u64)
    by (bit_vector)
    ensures
        a <= 0x7FFF_FFFF_FFFF ==> (a >> 39u64) & 0x1FF < 256,
        a >= 0xFFFF_8000_0000_0000 ==> (a >> 39u64) & 0x1FF >= 256,
        a <= 0xFF_FFFF_FFFF_FFFF ==> (a >> 48u64) & 0x1FF < 256,
        a >= 0xFF00_0000_0000_0000 ==> (a >> 48u64) & 0x1FF >= 256,
{
}

/// Two canonical page addresses on the same table path are the same page.
proof fn lemma_canonical_pages_equal(a: u64, b: u64, la57: bool)
    requires
        a % 4096 == 0,
        b % 4096 == 0,
        AddressSpaceDescriptor::spec_new(if la57 { 57u8 } else { 48u8 }, true).spec_is_valid(a as int),
        AddressSpaceDescriptor::spec_new(if la57 { 57u8 } else { 48u8 }, true).spec_is_valid(b as int),
        same_path(a, b, 0, if la57 { 5nat } else { 4nat }),
    ensures
        a == b,
{
    AddressSpaceDescriptor::lemma_spec_new(if la57 { 57u8 } else { 48u8 }, true);
    vstd::arithmetic::power2::lemma2_to64();
    vstd::arithmetic::power2::lemma2_to64_rest();
    lemma_top_index_halves(a);
    lemma_top_index_halves(b);
    if la57 {
        assert(index_at(a, 5) == index_at(b, 5));
    } else {
        assert(index_at(a, 4) == index_at(b, 4));
    }
    lemma_pages_distinct(a, b, la57);
}

/// An address that translates after new pages were mapped, with the upper entries kept and its
/// last-level entry unchanged, translated before.
proof fn lemma_walk_persists(m0: PhysicalMemory64, m1: PhysicalMemory64, root: int, top: nat, nxe: bool, p: u64)
    requires
        upper_entries_kept(m0, m1, root, top),
        leaf_entry(m1, root, top, p) == leaf_entry(m0, root, top, p),
        walk(m1, root, top, nxe, p) is Some,
        3 <= top,
    ensures
        walk(m0, root, top, nxe, p) is Some,
{
    let l1 = end_level(m1, root, top, p);
    if l1 == 3 {
        assert(entry_at(m0, root, top, p, 3) == entry_at(m1, root, top, p, 3));
        assert(end_level(m0, root, top, p) == 3);
    } else if l1 == 2 {
        assert(entry_at(m0, root, top, p, 2) == entry_at(m1, root, top, p, 2));
        assert(frame_at(m0, root, top, p, 2) is Some);
        assert(entry_at(m0, root, top, p, 3) is Some);
    } else {
        assert(entry_at(m1, root, top, p, 1) == leaf_entry(m1, root, top, p));
        assert(frame_at(m0, root, top, p, 1) is Some);
        assert(frame_at(m0, root, top, p, 2) is Some);
        assert(entry_at(m0, root, top, p, 2) is Some);
        assert(entry_at(m0, root, top, p, 3) is Some);
    }
}

/// With no page of an earlier segment on its path, the entry of `va` is that of the tables
/// before the segments were mapped.
proof fn lemma_mapping_after_other(space: X86_64AddressSpace, hs: Seq<ProgramHeader>, n: nat, slide: u64, base: int, va: u64)
    requires
        forall|i: int, j: int| 0 <= i < n && occupies(hs[i]) && 0 <= j < segment_pages(hs[i], slide).1 ==> !#[trigger] same_path(
            va,
            ((segment_pages(hs[i], slide).0 + j) * 4096) as u64,
            0,
            space.top(),
        ),
    ensures
        mapping_after(space, hs, n, slide, base, va) == space.mapping(va),
    decreases n,
{
    if n > 0 {
        let h = hs[n - 1];
        assert(!(occupies(h) && exists|j: int| 0 <= j < segment_pages(h, slide).1 && #[trigger] same_path(va, ((segment_pages(h, slide).0 + j) * 4096) as u64, 0, space.top())));
        lemma_mapping_after_other(space, hs, (n - 1) as nat, slide, base, va);
    }
}

/// An entry built for a readable page is present.
proof fn lemma_readable_entry_present(a: u64, w: u64, x: u64)
    by (bit_vector)
    ensures
        ((a & 0x000F_FFFF_FFFF_F000) | 1u64 | w | x) & 1 == 1,
{
}

/// The entry of `va` once segments are mapped is present where it was before, or where a page
/// of one of the segments shares its path.
proof fn lemma_mapping_after_some(space: X86_64AddressSpace, hs: Seq<ProgramHeader>, n: nat, slide: u64, base: int, va: u64)
    requires
        space.mapping(va) is Some || exists|i: int, j: int| 0 <= i < n && occupies(hs[i]) && 0 <= j < segment_pages(hs[i], slide).1
            && #[trigger] same_path(va, ((segment_pages(hs[i], slide).0 + j) * 4096) as u64, 0, space.top()),
    ensures
        mapping_after(space, hs, n, slide, base, va) is Some,
    decreases n,
{
    if n > 0 {
        let h = hs[n - 1];
        let first = segment_pages(h, slide).0;
        let count = segment_pages(h, slide).1;
        if occupies(h) && exists|j: int| 0 <= j < count && #[trigger] same_path(va, ((first + j) * 4096) as u64, 0, space.top()) {
            let j = choose|j: int| 0 <= j < count && #[trigger] same_path(va, ((first + j) * 4096) as u64, 0, space.top());
            let frame = (base + (frames_before(hs, (n - 1) as nat, slide) + j) * 4096) as u64;
            let protection = protection_of(segment_permissions(h));
            lemma_protection_bits();
            assert(protection.0 & 1 == 1);
            lemma_readable_entry_present(
                frame,
                if protection.0 & 2 == 2 { 2u64 } else { 0u64 },
                if space.spec_nxe() && !(protection.0 & 4 == 4) { 0x8000_0000_0000_0000u64 } else { 0u64 },
            );
        } else {
            lemma_mapping_after_some(space, hs, (n - 1) as nat, slide, base, va);
        }
    }
}

/// Where a walk found nothing before and the upper entries were kept, a present last-level
/// entry now ends the walk: no large page lies on the way.
proof fn lemma_no_large_page(m0: PhysicalMemory64, mk: PhysicalMemory64, root: int, top: nat, nxe: bool, p: u64)
    requires
        upper_entries_kept(m0, mk, root, top),
        walk(m0, root, top, nxe, p) is None,
        leaf_entry(mk, root, top, p) is Some,
        3 <= top,
    ensures
        end_level(mk, root, top, p) == 1,
        entry_at(mk, root, top, p, 1) == leaf_entry(mk, root, top, p),
{
    assert(frame_at(mk, root, top, p, 1) is Some);
    assert(frame_at(mk, root, top, p, 2) is Some);
    assert(entry_at(mk, root, top, p, 2) is Some);
    assert(entry_at(mk, root, top, p, 3) is Some);
    if block64(entry_at(mk, root, top, p, 3)->0) {
        assert(entry_at(m0, root, top, p, 3) == entry_at(mk, root, top, p, 3));
        assert(end_level(m0, root, top, p) == 3);
    }
    if block64(entry_at(mk, root, top, p, 2)->0) {
        assert(entry_at(m0, root, top, p, 2) == entry_at(mk, root, top, p, 2));
        assert(frame_at(m0, root, top, p, 2) is Some);
        assert(entry_at(m0, root, top, p, 3) is Some);
    }
}

/// An address that translated before segments were mapped, with the upper entries persisting,
/// still translates.
proof fn lemma_translation_persists(
    scheme: &LongModeTranslationScheme,
    m0: PhysicalMemory64,
    f0: FrameAllocator,
    mk: PhysicalMemory64,
    fk: FrameAllocator,
    hs: Seq<ProgramHeader>,
    k: nat,
    slide: u64,
    base: int,
    p: u64,
)
    requires
        upper_entries_persist(m0, mk, scheme.spec_cr3() as int, scheme.top()),
        forall|va: u64| #[trigger] scheme.tables(mk, fk).mapping(va) == mapping_after(scheme.tables(m0, f0), hs, k, slide, base, va),
        scheme.spec_translate(m0, p) is Some,
    ensures
        scheme.spec_translate(mk, p) is Some,
{
    let root = scheme.spec_cr3() as int;
    let top = scheme.top();
    let nxe = scheme.spec_nxe();
    let before = scheme.tables(m0, f0);
    X86_64AddressSpace::lemma_from_parts(scheme.spec_cr3(), scheme.spec_la57(), nxe, m0, f0);
    X86_64AddressSpace::lemma_from_parts(scheme.spec_cr3(), scheme.spec_la57(), nxe, mk, fk);
    let l0 = end_level(m0, root, top, p);
    assert(entry_at(m0, root, top, p, l0) is Some);
    if l0 == 3 {
        assert(entry_at(mk, root, top, p, 3) == entry_at(m0, root, top, p, 3));
        assert(end_level(mk, root, top, p) == 3);
    } else if l0 == 2 {
        assert(frame_at(m0, root, top, p, 2) is Some);
        assert(entry_at(m0, root, top, p, 3) is Some);
        assert(entry_at(mk, root, top, p, 3) == entry_at(m0, root, top, p, 3));
        assert(entry_at(mk, root, top, p, 2) == entry_at(m0, root, top, p, 2));
        assert(end_level(mk, root, top, p) == 2);
    } else {
        assert(frame_at(m0, root, top, p, 1) is Some);
        assert(frame_at(m0, root, top, p, 2) is Some);
        assert(entry_at(m0, root, top, p, 2) is Some);
        assert(entry_at(m0, root, top, p, 3) is Some);
        assert(entry_at(mk, root, top, p, 3) == entry_at(m0, root, top, p, 3));
        assert(entry_at(mk, root, top, p, 2) == entry_at(m0, root, top, p, 2));
        assert(before.mapping(p) is Some);
        lemma_mapping_after_some(before, hs, k, slide, base, p);
        assert(scheme.tables(mk, fk).mapping(p) is Some);
        assert(leaf_entry(mk, root, top, p) is Some);
        assert(entry_at(mk, root, top, p, 1) == leaf_entry(mk, root, top, p));
        assert(end_level(mk, root, top, p) == 1);
    }
}

/// A page of an earlier segment, not mapped before the segments were, translates once they
/// are mapped with the upper entries kept.
proof fn lemma_earlier_page_translates(
    scheme: &LongModeTranslationScheme,
    m0: PhysicalMemory64,
    f0: FrameAllocator,
    mk: PhysicalMemory64,
    fk: FrameAllocator,
    hs: Seq<ProgramHeader>,
    k: nat,
    slide: u64,
    base: int,
    i: int,
    page: int,
)
    requires
        upper_entries_kept(m0, mk, scheme.spec_cr3() as int, scheme.top()),
        forall|va: u64| #[trigger] scheme.tables(mk, fk).mapping(va) == mapping_after(scheme.tables(m0, f0), hs, k, slide, base, va),
        0 <= i < k,
        k <= hs.len(),
        occupies(hs[i]),
        in_segment(hs[i], slide, page),
        input_valid(scheme, hs[i], slide),
        range_fits(segment_input(hs[i], slide)),
        scheme.spec_translate(m0, (page * 4096) as u64) is None,
    ensures
        scheme.spec_translate(mk, (page * 4096) as u64) is Some,
{
    let root = scheme.spec_cr3() as int;
    let top = scheme.top();
    let nxe = scheme.spec_nxe();
    let before = scheme.tables(m0, f0);
    let q = (page * 4096) as u64;
    X86_64AddressSpace::lemma_from_parts(scheme.spec_cr3(), scheme.spec_la57(), nxe, m0, f0);
    X86_64AddressSpace::lemma_from_parts(scheme.spec_cr3(), scheme.spec_la57(), nxe, mk, fk);
    let input = segment_input(hs[i], slide);
    lemma_input_in_one_half(scheme, before, input);
    let j = page - input.start;
    assert(scheme.canonical(((input.start + j) * 4096) as u64));
    assert(same_path(q, ((segment_pages(hs[i], slide).0 + j) * 4096) as u64, 0, top));
    assert(((segment_pages(hs[i], slide).0 + j) * 4096) as u64 == q);
    assert(same_path(q, q, 0, before.top()));
    lemma_mapping_after_some(before, hs, k, slide, base, q);
    assert(scheme.tables(mk, fk).mapping(q) == mapping_after(before, hs, k, slide, base, q));
    assert(leaf_entry(mk, root, top, q) is Some);
    assert(walk(m0, root, top, nxe, q) is None);
    lemma_no_large_page(m0, mk, root, top, nxe, q);
}

/// Writes `data` and then `zeros` zero bytes from `address`.
pub(crate) fn write_segment(memory: &mut PhysicalBytes, address: u64, data: &[u8], zeros: u64)
    requires
        address + data@.len() + zeros <= u64::MAX,
    ensures
        final(memory).bytes@ == bytes_written(
            old(memory).bytes@,
            address as int,
            data@ + Seq::new(zeros as nat, |i: int| 0u8),
        ),
{
    let ghost all = data@ + Seq::new(zeros as nat, |i: int| 0u8);
    let mut i: usize = 0;
    while i < data.len()
        invariant
            i <= data@.len(),
            address + data@.len() + zeros <= u64::MAX,
            all == data@ + Seq::new(zeros as nat, |k: int| 0u8),
            memory.bytes@ == bytes_written(old(memory).bytes@, address as int, all.subrange(0, i as int)),
        decreases data@.len() - i,
    {
        let ghost before = memory.bytes@;
        memory.write_u8(address + i as u64, data[i]);
        proof {
            assert(memory.bytes@ =~= bytes_written(old(memory).bytes@, address as int, all.subrange(0, i + 1)));
        }
        i += 1;
    }
    let mut j: u64 = 0;
    while j < zeros
        invariant
            j <= zeros,
            i == data@.len(),
            address + data@.len() + zeros <= u64::MAX,
            all == data@ + Seq::new(zeros as nat, |k: int| 0u8),
            memory.bytes@ == bytes_written(old(memory).bytes@, address as int, all.subrange(0, i + j)),
        decreases zeros - j,
    {
        let ghost before = memory.bytes@;
        memory.write_u8(address + i as u64 + j, 0);
        proof {
            assert(memory.bytes@ =~= bytes_written(old(memory).bytes@, address as int, all.subrange(0, i + j + 1)));
        }
        j += 1;
    }
    assert(all.subrange(0, i + j) =~= all);
}


/// Various errors that can occur when mapping an executable.
#[derive(Clone, Copy, Debug, PartialEq, Eq, Structural)]
pub enum MapSegmentsError {
    /// An error allocating memory for the executable.
    OutOfMemory,
    /// An error occurred mapping a segment into the translation scheme.
    MapError(MapError),
}

/// The number of image frames for a layout that spans `byte_span` bytes.
pub open spec fn image_frame_count(byte_span: u64) -> int {
    byte_span / 4096 + if byte_span % 4096 != 0 { 1int } else { 0int }
}

/// The largest physical address that long mode tables reach.
pub open spec fn max_image_address() -> u64 {
    0xF_FFFF_FFFF_FFFF
}

/// The pages that a segment is mapped at.
pub open spec fn segment_input(h: ProgramHeader, slide: u64) -> ChunkRange {
    ChunkRange { start: segment_pages(h, slide).0 as u64, count: segment_pages(h, slide).1 as u64 }
}

/// The image frames that the `k`-th header's segment is copied into.
pub open spec fn segment_output(hs: Seq<ProgramHeader>, k: nat, slide: u64, base: int) -> ChunkRange {
    ChunkRange { start: (base / 4096 + frames_before(hs, k, slide)) as u64, count: segment_pages(hs[k as int], slide).1 as u64 }
}

/// The virtual range of a segment is a valid range of canonical addresses.
pub open spec fn input_valid(scheme: &LongModeTranslationScheme, h: ProgramHeader, slide: u64) -> bool {
    AddressSpaceDescriptor::spec_new(if scheme.spec_la57() { 57u8 } else { 48u8 }, true).spec_is_valid_range(
        range_start(segment_input(h, slide)),
        range_end(segment_input(h, slide)),
    )
}

/// Why mapping the `k`-th header's segment is refused: its virtual range is not canonical, its
/// frames lie beyond the physical address space, or one of its pages was mapped in the tables
/// `memory` or belongs to an earlier loadable segment.
pub open spec fn segment_refused(
    scheme: &LongModeTranslationScheme,
    memory: PhysicalMemory64,
    hs: Seq<ProgramHeader>,
    k: nat,
    slide: u64,
    base: int,
) -> bool {
    let input = segment_input(hs[k as int], slide);
    let output = segment_output(hs, k, slide, base);
    ||| !input_valid(scheme, hs[k as int], slide)
    ||| !AddressSpaceDescriptor::spec_new(52, false).spec_is_valid_range(range_start(output), range_end(output))
    ||| exists|j: int| 0 <= j < input.count && #[trigger] page_taken(scheme, memory, hs, k, slide, input.start + j)
}

/// Page number `page` of a segment is mapped in the tables `memory`, or belongs to one of the
/// loadable segments before the `k`-th header.
pub open spec fn page_taken(
    scheme: &LongModeTranslationScheme,
    memory: PhysicalMemory64,
    hs: Seq<ProgramHeader>,
    k: nat,
    slide: u64,
    page: int,
) -> bool {
    ||| scheme.spec_translate(memory, (page * 4096) as u64) is Some
    ||| exists|i: int| 0 <= i < k && occupies(hs[i]) && #[trigger] in_segment(hs[i], slide, page)
}

/// Page number `page` is one of the pages of the segment of `h`.
pub open spec fn in_segment(h: ProgramHeader, slide: u64, page: int) -> bool {
    segment_pages(h, slide).0 <= page < segment_pages(h, slide).0 + segment_pages(h, slide).1
}

/// Each of the first `n` headers' segments, where it occupies memory, has a valid range of
/// canonical addresses, none of its pages mapped in the tables `memory`, and no page shared with
/// an earlier segment.
pub open spec fn segments_loaded_apart(
    scheme: &LongModeTranslationScheme,
    memory: PhysicalMemory64,
    hs: Seq<ProgramHeader>,
    n: nat,
    slide: u64,
) -> bool {
    forall|k: int, page: int| 0 <= k < n && occupies(hs[k]) && #[trigger] in_segment(hs[k], slide, page) ==> {
        &&& input_valid(scheme, hs[k], slide)
        &&& !page_taken(scheme, memory, hs, k as nat, slide, page)
    }
}

/// The image frames of each of the first `n` headers' segments, from `base`, lie below the
/// largest physical address.
pub open spec fn frames_in_reach(hs: Seq<ProgramHeader>, n: nat, slide: u64, base: int) -> bool {
    forall|k: int| 0 <= k < n && #[trigger] occupies(hs[k]) ==> base + frames_before(hs, (k + 1) as nat, slide) * 4096
        <= physical_limit()
}

/// The segments' addresses and sizes fit in 64 bits, and no segment holds more file bytes
/// than memory bytes.
pub open spec fn segments_fit(hs: Seq<ProgramHeader>, slide: u64, blob: Seq<u8>, image_end: u64) -> bool {
    &&& forall|k: int| 0 <= k < hs.len() && #[trigger] occupies(hs[k]) ==> {
        &&& slide + hs[k].virtual_address + hs[k].memory_size <= u64::MAX + 1
        &&& segment_data(blob, hs[k]).len() <= hs[k].memory_size
    }
    &&& image_end + frames_before(hs, hs.len(), slide) * 4096 <= u64::MAX
}

/// The image frames taken before a header are at most those taken by all headers.
pub(crate) proof fn lemma_frames_before_monotone(hs: Seq<ProgramHeader>, i: nat, n: nat, slide: u64)
    requires
        i <= n,
    ensures
        frames_before(hs, i, slide) <= frames_before(hs, n, slide),
    decreases n - i,
{
    if i < n {
        lemma_frames_before_monotone(hs, i, (n - 1) as nat, slide);
    }
}

/// No header takes a negative number of image frames.
proof fn lemma_frames_before_nonnegative(hs: Seq<ProgramHeader>, n: nat, slide: u64)
    ensures
        frames_before(hs, n, slide) >= 0,
    decreases n,
{
    if n > 0 {
        lemma_frames_before_nonnegative(hs, (n - 1) as nat, slide);
        if occupies(hs[n - 1]) {
            let h = hs[n - 1];
            let start = slide + h.virtual_address;
            let end = start + h.memory_size - 1;
            assert(end / 4096 >= start / 4096) by (nonlinear_arith)
                requires end >= start, start >= 0;
        }
    }
}

/// The pages of a valid range of canonical addresses lie on one side of the non-canonical hole,
/// and each is canonical.
proof fn lemma_input_in_one_half(scheme: &LongModeTranslationScheme, space: X86_64AddressSpace, input: ChunkRange)
    requires
        space.spec_la57() == scheme.spec_la57(),
        range_fits(input),
        AddressSpaceDescriptor::spec_new(if scheme.spec_la57() { 57u8 } else { 48u8 }, true).spec_is_valid_range(
            range_start(input),
            range_end(input),
        ),
    ensures
        space.pages_in_one_half((input.start * 4096) as u64, input.count as nat),
        forall|j: int| 0 <= j < input.count ==> #[trigger] scheme.canonical(((input.start + j) * 4096) as u64),
{
    let descriptor = AddressSpaceDescriptor::spec_new(if scheme.spec_la57() { 57u8 } else { 48u8 }, true);
    AddressSpaceDescriptor::lemma_spec_new(if scheme.spec_la57() { 57u8 } else { 48u8 }, true);
    vstd::arithmetic::power2::lemma2_to64();
    vstd::arithmetic::power2::lemma2_to64_rest();
    if scheme.spec_la57() {
        assert(descriptor.spec_lower_bits() == 56 && descriptor.spec_upper_bits() == 56);
        assert(crate::descriptor::low_mask(56) == 0xFF_FFFF_FFFF_FFFF);
    } else {
        assert(descriptor.spec_lower_bits() == 47 && descriptor.spec_upper_bits() == 47);
        assert(crate::descriptor::low_mask(47) == 0x7FFF_FFFF_FFFF);
    }
    assert forall|j: int| 0 <= j < input.count implies #[trigger] scheme.canonical(((input.start + j) * 4096) as u64) by {
        assert(range_start(input) <= (input.start + j) * 4096 <= range_end(input));
    }
    assert((input.start * 4096) % 4096 == 0) by (nonlinear_arith);
}

/// A segment whose end fits in 64 bits occupies pages whose addresses fit, and its bytes from
/// its offset in its first page fit in its pages.
pub(crate) proof fn lemma_segment_fits(h: ProgramHeader, slide: u64)
    requires
        occupies(h),
        slide + h.virtual_address + h.memory_size <= u64::MAX + 1,
    ensures
        range_fits(segment_input(h, slide)),
        segment_input(h, slide).start * 4096 + segment_offset(h, slide) == slide + h.virtual_address,
        segment_offset(h, slide) + h.memory_size <= segment_pages(h, slide).1 * 4096,
        segment_pages(h, slide).1 >= 1,
{
    let start = slide + h.virtual_address;
    let end = start + h.memory_size - 1;
    assert(start / 4096 * 4096 + start % 4096 == start) by (nonlinear_arith)
        requires start >= 0;
    assert(end / 4096 * 4096 + end % 4096 == end) by (nonlinear_arith)
        requires end >= 0;
    assert(end / 4096 >= start / 4096) by (nonlinear_arith)
        requires end >= start, start >= 0;
    assert(end / 4096 <= 0xF_FFFF_FFFF_FFFF) by (nonlinear_arith)
        requires end <= u64::MAX, end >= 0;
}

/// Mapping the `k`-th header's segment over tables that show the first `k` segments gives
/// tables that show the first `k + 1`.
proof fn lemma_step_mapping(
    scheme: &LongModeTranslationScheme,
    before: X86_64AddressSpace,
    space: X86_64AddressSpace,
    hs: Seq<ProgramHeader>,
    k: nat,
    slide: u64,
    base: int,
    permissions: Permissions,
    va: u64,
)
    requires
        k < hs.len(),
        occupies(hs[k as int]),
        base % 4096 == 0,
        base >= 0,
        range_fits(segment_input(hs[k as int], slide)),
        range_fits(segment_output(hs, k, slide, base)),
        (segment_output(hs, k, slide, base).start as int) == base / 4096 + frames_before(hs, k, slide),
        space.pages_in_one_half((segment_input(hs[k as int], slide).start * 4096) as u64, segment_pages(hs[k as int], slide).1 as nat),
        segment_input(hs[k as int], slide).count == segment_pages(hs[k as int], slide).1,
        segment_input(hs[k as int], slide).start == segment_pages(hs[k as int], slide).0,
        space.top() == before.top(),
        space.spec_nxe() == before.spec_nxe(),
        permissions == segment_permissions(hs[k as int]),
        forall|v: u64| #[trigger] space.mapping(v) == mapping_after(before, hs, k, slide, base, v),
    ensures
        space.mapped_after(
            (segment_input(hs[k as int], slide).start * 4096) as u64,
            (segment_output(hs, k, slide, base).start * 4096) as u64,
            protection_of(permissions),
            segment_input(hs[k as int], slide).count as nat,
            va,
        ) == mapping_after(before, hs, (k + 1) as nat, slide, base, va),
{
    let h = hs[k as int];
    let first = segment_pages(h, slide).0;
    let count = segment_pages(h, slide).1;
    let va0 = (segment_input(h, slide).start * 4096) as u64;
    let pa0 = (segment_output(hs, k, slide, base).start * 4096) as u64;
    let protection = protection_of(permissions);
    assert(((k + 1) as nat - 1) as nat == k);
    if exists|j: int| 0 <= j < count && #[trigger] same_path(va, ((first + j) * 4096) as u64, 0, before.top()) {
        let j = choose|j: int| 0 <= j < count && #[trigger] same_path(va, ((first + j) * 4096) as u64, 0, before.top());
        assert((va0 + j * 4096) as u64 == ((first + j) * 4096) as u64);
        lemma_mapped_after_page(&space, va0, pa0, protection, count as nat, j as nat, va);
        assert(pa0 + j * 4096 == base + (frames_before(hs, k, slide) + j) * 4096);
    } else {
        assert forall|j: int| 0 <= j < count implies !#[trigger] same_path(va, (va0 + j * 4096) as u64, 0, space.top()) by {
            assert((va0 + j * 4096) as u64 == ((first + j) * 4096) as u64);
        }
        lemma_mapped_after_other(&space, va0, pa0, protection, count as nat, va);
    }
}

/// A segment whose mapping is refused over tables that show the earlier segments is refused
/// for a reason that the tables before them show.
proof fn lemma_refused(
    scheme: &LongModeTranslationScheme,
    m0: PhysicalMemory64,
    f0: FrameAllocator,
    mk: PhysicalMemory64,
    fk: FrameAllocator,
    hs: Seq<ProgramHeader>,
    k: nat,
    slide: u64,
    base: int,
)
    requires
        k < hs.len(),
        occupies(hs[k as int]),
        scheme.tables(m0, f0).wf(),
        upper_entries_kept(m0, mk, scheme.spec_cr3() as int, scheme.top()),
        forall|va: u64| #[trigger] scheme.tables(mk, fk).mapping(va) == mapping_after(scheme.tables(m0, f0), hs, k, slide, base, va),
        forall|i: int| 0 <= i < k && #[trigger] occupies(hs[i]) ==> input_valid(scheme, hs[i], slide),
        forall|i: int| 0 <= i < hs.len() && #[trigger] occupies(hs[i]) ==> slide + hs[i].virtual_address + hs[i].memory_size
            <= u64::MAX + 1,
        range_fits(segment_input(hs[k as int], slide)),
        !scheme.map_at_accepts(mk, segment_input(hs[k as int], slide), segment_output(hs, k, slide, base)),
    ensures
        segment_refused(scheme, m0, hs, k, slide, base),
{
    let h = hs[k as int];
    let input = segment_input(h, slide);
    let output = segment_output(hs, k, slide, base);
    let before = scheme.tables(m0, f0);
    let root = scheme.spec_cr3() as int;
    let top = scheme.top();
    X86_64AddressSpace::lemma_from_parts(scheme.spec_cr3(), scheme.spec_la57(), scheme.spec_nxe(), m0, f0);
    X86_64AddressSpace::lemma_from_parts(scheme.spec_cr3(), scheme.spec_la57(), scheme.spec_nxe(), mk, fk);
    if input_valid(scheme, h, slide) && AddressSpaceDescriptor::spec_new(52, false).spec_is_valid_range(range_start(output), range_end(output)) {
        lemma_input_in_one_half(scheme, before, input);
        let j = choose|j: int| 0 <= j < input.count && #[trigger] scheme.spec_translate(mk, ((input.start + j) * 4096) as u64) is Some;
        let page = ((input.start + j) * 4096) as u64;
        assert(scheme.canonical(page));
        assert(page % 4096 == 0) by {
            assert((input.start + j) * 4096 % 4096 == 0) by (nonlinear_arith);
        }
        if exists|i: int, jj: int| 0 <= i < k && occupies(hs[i]) && 0 <= jj < segment_pages(hs[i], slide).1
            && #[trigger] same_path(page, ((segment_pages(hs[i], slide).0 + jj) * 4096) as u64, 0, top) {
            let (i, jj) = choose|i: int, jj: int| 0 <= i < k && occupies(hs[i]) && 0 <= jj < segment_pages(hs[i], slide).1
                && #[trigger] same_path(page, ((segment_pages(hs[i], slide).0 + jj) * 4096) as u64, 0, top);
            let q = ((segment_pages(hs[i], slide).0 + jj) * 4096) as u64;
            assert(input_valid(scheme, hs[i], slide));
            lemma_segment_fits(hs[i], slide);
            lemma_input_in_one_half(scheme, before, segment_input(hs[i], slide));
            assert(scheme.canonical(q));
            assert(q % 4096 == 0) by {
                assert((segment_pages(hs[i], slide).0 + jj) * 4096 % 4096 == 0) by (nonlinear_arith);
            }
            lemma_canonical_pages_equal(page, q, scheme.spec_la57());
            assert(in_segment(hs[i], slide, input.start + j));
            assert(page_taken(scheme, m0, hs, k, slide, input.start + j));
        } else {
            lemma_mapping_after_other(before, hs, k, slide, base, page);
            assert(scheme.tables(mk, fk).mapping(page) == mapping_after(before, hs, k, slide, base, page));
            assert(before.mapping(page) == leaf_entry(m0, root, top, page));
            assert(scheme.tables(mk, fk).mapping(page) == leaf_entry(mk, root, top, page));
            assert(leaf_entry(mk, root, top, page) == leaf_entry(m0, root, top, page));
            assert(walk(mk, root, top, scheme.spec_nxe(), page) is Some);
            lemma_walk_persists(m0, mk, root, top, scheme.spec_nxe(), page);
            assert(scheme.spec_translate(m0, page) is Some);
            assert(page_taken(scheme, m0, hs, k, slide, input.start + j));
        }
    }
}

/// Maps the loadable segments of `elf`, moved by `layout.slide`, into the long mode tables of
/// `scheme` held in `tables`, with table frames from `table_frames`, and copies their bytes from
/// `blob`, followed by zeros, into image frames taken from `image_frames` and held in `image`.
///
/// The image frames are taken at once, enough for `layout.byte_span` bytes and all within the
/// physical address space; each segment takes the next frames in turn. Returns the address of
/// the first image frame.
#[verifier::rlimit(50)]
#[verifier::spinoff_prover]
pub fn map_segments(
    elf: &ParsedElf,
    blob: &[u8],
    layout: &Layout,
    scheme: &mut LongModeTranslationScheme,
    tables: &mut PhysicalMemory64,
    table_frames: &mut FrameAllocator,
    image_frames: &mut FrameAllocator,
    image: &mut PhysicalBytes,
) -> (result: Result<u64, MapSegmentsError>)
    requires
        old(scheme).tables(*old(tables), *old(table_frames)).wf(),
        old(image_frames).wf(),
        segments_fit(elf.program_headers@, layout.slide, blob@, old(image_frames).end),
    ensures
        *final(scheme) == *old(scheme),
        final(scheme).tables(*final(tables), *final(table_frames)).wf(),
        upper_entries_kept(*old(tables), *final(tables), old(scheme).spec_cr3() as int, old(scheme).top()),
        upper_entries_persist(*old(tables), *final(tables), old(scheme).spec_cr3() as int, old(scheme).top()),
        final(image_frames).wf(),
        !old(image_frames).can_allocate_frames(image_frame_count(layout.byte_span) as u64, max_image_address()) ==> {
            &&& result == Err::<u64, MapSegmentsError>(MapSegmentsError::OutOfMemory)
            &&& *final(tables) == *old(tables)
            &&& *final(table_frames) == *old(table_frames)
            &&& *final(image_frames) == *old(image_frames)
            &&& *final(image) == *old(image)
        },
        old(image_frames).can_allocate_frames(image_frame_count(layout.byte_span) as u64, max_image_address()) ==> {
            let hs = elf.program_headers@;
            let base = old(image_frames).next as int;
            let before = old(scheme).tables(*old(tables), *old(table_frames));
            &&& final(image_frames).next == base + image_frame_count(layout.byte_span) * 4096
            &&& final(image_frames).end == old(image_frames).end
            &&& match result {
                Ok(b) => {
                    &&& b == base
                    &&& final(image).bytes@ == image_after(hs, hs.len(), layout.slide, blob@, base, old(image).bytes@)
                    &&& forall|va: u64| #[trigger] final(scheme).tables(*final(tables), *final(table_frames)).mapping(va)
                        == mapping_after(before, hs, hs.len(), layout.slide, base, va)
                    &&& segments_loaded_apart(old(scheme), *old(tables), hs, hs.len(), layout.slide)
                    &&& frames_in_reach(hs, hs.len(), layout.slide, base)
                },
                Err(MapSegmentsError::OutOfMemory) => false,
                Err(MapSegmentsError::MapError(MapError::FrameAllocation)) => !final(table_frames).can_allocate(),
                Err(MapSegmentsError::MapError(MapError::FindFreeRegionError)) => exists|k: int| 0 <= k < hs.len() && occupies(hs[k])
                    && #[trigger] segment_refused(old(scheme), *old(tables), hs, k as nat, layout.slide, base),
            }
        },
{
    let ghost hs = elf.program_headers@;
    let ghost before = scheme.tables(*tables, *table_frames);
    let ghost root = scheme.spec_cr3() as int;
    let ghost top = scheme.top();
    proof {
        X86_64AddressSpace::lemma_from_parts(scheme.spec_cr3(), scheme.spec_la57(), scheme.spec_nxe(), *tables, *table_frames);
        AddressSpaceDescriptor::lemma_spec_new(52, false);
        vstd::arithmetic::power2::lemma2_to64();
        vstd::arithmetic::power2::lemma2_to64_rest();
    }
    let frame_count = layout.byte_span / 4096 + if layout.byte_span % 4096 != 0 { 1 } else { 0 };
    let max_physical = scheme.output_descriptor().valid_ranges()[0].1;
    assert(max_physical == max_image_address());
    let base = match image_frames.allocate_frames(frame_count, max_physical) {
        Some(base) => base,
        None => return Err(MapSegmentsError::OutOfMemory),
    };
    let slide = layout.slide;
    let headers = &elf.program_headers;
    proof {
        lemma_frames_before_monotone(hs, 0, hs.len(), slide);
    }
    let mut frame_index: u64 = 0;
    let mut index: usize = 0;
    while index < headers.len()
        invariant
            hs == headers@,
            hs == elf.program_headers@,
            slide == layout.slide,
            base == old(image_frames).next,
            base % 4096 == 0,
            base <= old(image_frames).end,
            image_frames.wf(),
            image_frames.end == old(image_frames).end,
            image_frames.next == base + image_frame_count(layout.byte_span) * 4096,
            old(image_frames).can_allocate_frames(image_frame_count(layout.byte_span) as u64, max_image_address()),
            *scheme == *old(scheme),
            before == old(scheme).tables(*old(tables), *old(table_frames)),
            before.wf(),
            root == scheme.spec_cr3(),
            top == scheme.top(),
            before.top() == top,
            before.spec_nxe() == scheme.spec_nxe(),
            before.spec_la57() == scheme.spec_la57(),
            segments_fit(hs, slide, blob@, old(image_frames).end),
            index <= hs.len(),
            frame_index == frames_before(hs, index as nat, slide),
            frames_before(hs, index as nat, slide) <= frames_before(hs, hs.len(), slide),
            scheme.tables(*tables, *table_frames).wf(),
            upper_entries_kept(*old(tables), *tables, root, top),
            upper_entries_persist(*old(tables), *tables, root, top),
            segments_loaded_apart(scheme, *old(tables), hs, index as nat, slide),
            frames_in_reach(hs, index as nat, slide, base as int),
            image.bytes@ == image_after(hs, index as nat, slide, blob@, base as int, old(image).bytes@),
            forall|va: u64| #[trigger] scheme.tables(*tables, *table_frames).mapping(va) == mapping_after(before, hs, index as nat, slide, base as int, va),
            forall|i: int| 0 <= i < index && #[trigger] occupies(hs[i]) ==> input_valid(scheme, hs[i], slide),
        decreases hs.len() - index,
    {
        let header = headers[index];
        proof {
            lemma_frames_before_monotone(hs, (index + 1) as nat, hs.len(), slide);
        }
        if header.segment_type == SEGMENT_LOAD && header.memory_size > 0 {
            assert(occupies(hs[index as int]));
            let start = slide + header.virtual_address;
            let end = start + (header.memory_size - 1);
            let first = start / 4096;
            let count = end / 4096 - first + 1;
            assert(segment_pages(header, slide) == (first as int, count as int));
            let segment_physical_address = base + frame_index * 4096;
            frame_index = frame_index + count;
            let offset = start - first * 4096;
            let writable = header.flags & SEGMENT_WRITE == SEGMENT_WRITE;
            let executable = header.flags & SEGMENT_EXECUTE == SEGMENT_EXECUTE;
            let permissions = Permissions::from_access(writable, executable);
            let input = ChunkRange::new(first, count);
            let output = ChunkRange::new(segment_physical_address / 4096, count);
            assert(segment_physical_address / 4096 * 4096 == segment_physical_address);
            assert(input == segment_input(header, slide));
            assert(output == segment_output(hs, index as nat, slide, base as int));
            let ghost memory_before = *tables;
            let ghost frames_at = *table_frames;
            let ghost space = scheme.tables(*tables, *table_frames);
            proof {
                X86_64AddressSpace::lemma_from_parts(scheme.spec_cr3(), scheme.spec_la57(), scheme.spec_nxe(), memory_before, frames_at);
                lemma_segment_fits(header, slide);
            }
            match scheme.map_at(tables, table_frames, input, output, permissions, MappingType::Normal) {
                Ok(()) => {},
                Err(error) => {
                    proof {
                        lemma_kept_trans(*old(tables), memory_before, *tables, root, top);
                        lemma_persist_trans(*old(tables), memory_before, *tables, root, top);
                        if error == MapError::FindFreeRegionError {
                            lemma_refused(scheme, *old(tables), *old(table_frames), memory_before, frames_at, hs, index as nat, slide, base as int);
                        }
                    }
                    return Err(MapSegmentsError::MapError(error));
                },
            }
            proof {
                lemma_kept_trans(*old(tables), memory_before, *tables, root, top);
                lemma_persist_trans(*old(tables), memory_before, *tables, root, top);
                assert forall|j: int| 0 <= j < count implies !#[trigger] page_taken(scheme, *old(tables), hs, index as nat, slide,
                    first + j) by {
                    let page = ((first + j) * 4096) as u64;
                    assert(scheme.spec_translate(memory_before, page) is None);
                    if scheme.spec_translate(*old(tables), page) is Some {
                        lemma_translation_persists(scheme, *old(tables), *old(table_frames), memory_before, frames_at, hs, index as nat,
                            slide, base as int, page);
                    }
                    if exists|i: int| 0 <= i < index && occupies(hs[i]) && #[trigger] in_segment(hs[i], slide, first + j) {
                        let i = choose|i: int| 0 <= i < index && occupies(hs[i]) && #[trigger] in_segment(hs[i], slide, first + j);
                        lemma_segment_fits(hs[i], slide);
                        lemma_earlier_page_translates(scheme, *old(tables), *old(table_frames), memory_before, frames_at, hs,
                            index as nat, slide, base as int, i, first + j);
                    }
                }
                lemma_input_in_one_half(scheme, space, input);
                assert forall|k: int, page: int| 0 <= k < index + 1 && occupies(hs[k]) && #[trigger] in_segment(hs[k], slide, page)
                    implies {
                    &&& input_valid(scheme, hs[k], slide)
                    &&& !page_taken(scheme, *old(tables), hs, k as nat, slide, page)
                } by {
                    if k == index {
                        assert(!page_taken(scheme, *old(tables), hs, index as nat, slide, first + (page - first)));
                    }
                }
                assert(frames_in_reach(hs, (index + 1) as nat, slide, base as int)) by {
                    AddressSpaceDescriptor::lemma_spec_new(52, false);
                    vstd::arithmetic::power2::lemma2_to64_rest();
                    assert(AddressSpaceDescriptor::spec_new(52, false).spec_is_valid_range(range_start(output), range_end(output)));
                    assert(crate::descriptor::low_mask(52) == 0xF_FFFF_FFFF_FFFF);
                    assert(base + frames_before(hs, (index + 1) as nat, slide) * 4096 <= physical_limit());
                    assert forall|k: int| 0 <= k < index + 1 && #[trigger] occupies(hs[k]) implies base + frames_before(
                        hs, (k + 1) as nat, slide) * 4096 <= physical_limit() by {
                        if k < index {
                            assert(base + frames_before(hs, (k + 1) as nat, slide) * 4096 <= physical_limit());
                        }
                    }
                }
                X86_64AddressSpace::lemma_from_parts(scheme.spec_cr3(), scheme.spec_la57(), scheme.spec_nxe(), memory_before, frames_at);
                assert forall|va: u64| #[trigger] scheme.tables(*tables, *table_frames).mapping(va) == mapping_after(
                    before, hs, (index + 1) as nat, slide, base as int, va) by {
                    lemma_step_mapping(scheme, before, space, hs, index as nat, slide, base as int, permissions, va);
                }
            }
            let data: &[u8] = if header.offset <= blob.len() as u64 && header.file_size <= blob.len() as u64 - header.offset {
                slice_range(blob, header.offset as usize, (header.offset + header.file_size) as usize)
            } else {
                &[]
            };
            assert(data@ == segment_data(blob@, header));
            let zeros = header.memory_size - data.len() as u64;
            assert(data@ + Seq::new(zeros as nat, |i: int| 0u8) == segment_image(blob@, header));
            write_segment(image, segment_physical_address + offset, data, zeros);
        }
        index += 1;
    }
    Ok(base)
}

/// The entry of a page of the `k`-th header's segment, once the first `n` headers are mapped,
/// is the one for its image frame, as no other segment holds the page.
proof fn lemma_segment_page_entry(
    scheme: &LongModeTranslationScheme,
    space: X86_64AddressSpace,
    memory: PhysicalMemory64,
    hs: Seq<ProgramHeader>,
    n: nat,
    slide: u64,
    base: int,
    k: int,
    page: int,
)
    requires
        space.spec_la57() == scheme.spec_la57(),
        0 <= k < n <= hs.len(),
        occupies(hs[k]),
        in_segment(hs[k], slide, page),
        segments_loaded_apart(scheme, memory, hs, n, slide),
        forall|i: int| 0 <= i < hs.len() && #[trigger] occupies(hs[i]) ==> slide + hs[i].virtual_address + hs[i].memory_size
            <= u64::MAX + 1,
    ensures
        mapping_after(space, hs, n, slide, base, (page * 4096) as u64) == {
            let v = leaf_value(
                (base + (frames_before(hs, k as nat, slide) + page - segment_pages(hs[k], slide).0) * 4096) as u64,
                protection_of(segment_permissions(hs[k])),
                space.spec_nxe(),
            );
            if present64(v) {
                Some(v)
            } else {
                None
            }
        },
    decreases n,
{
    let p = (page * 4096) as u64;
    let last = n - 1;
    let h = hs[last];
    let first = segment_pages(h, slide).0;
    let count = segment_pages(h, slide).1;
    lemma_segment_fits(hs[k], slide);
    lemma_input_in_one_half(scheme, space, segment_input(hs[k], slide));
    let jk = page - segment_pages(hs[k], slide).0;
    assert(scheme.canonical(((segment_input(hs[k], slide).start + jk) * 4096) as u64));
    assert(p % 4096 == 0) by {
        assert(page * 4096 % 4096 == 0) by (nonlinear_arith);
    }
    if last > k {
        assert(((n - 1) as nat) as int == last);
        if occupies(h) && exists|j: int| 0 <= j < count && #[trigger] same_path(p, ((first + j) * 4096) as u64, 0, space.top()) {
            let j = choose|j: int| 0 <= j < count && #[trigger] same_path(p, ((first + j) * 4096) as u64, 0, space.top());
            lemma_segment_fits(h, slide);
            assert(in_segment(h, slide, first));
            assert(input_valid(scheme, h, slide));
            lemma_input_in_one_half(scheme, space, segment_input(h, slide));
            let q = ((first + j) * 4096) as u64;
            assert(scheme.canonical(((segment_input(h, slide).start + j) * 4096) as u64));
            assert(q % 4096 == 0) by {
                assert((first + j) * 4096 % 4096 == 0) by (nonlinear_arith);
            }
            lemma_canonical_pages_equal(p, q, scheme.spec_la57());
            assert(in_segment(h, slide, page));
            assert(page_taken(scheme, memory, hs, last as nat, slide, page));
        }
        lemma_segment_page_entry(scheme, space, memory, hs, (n - 1) as nat, slide, base, k, page);
    } else {
        assert(last == k);
        assert(same_path(p, ((first + jk) * 4096) as u64, 0, space.top()));
        let j = choose|j: int| 0 <= j < count && #[trigger] same_path(p, ((first + j) * 4096) as u64, 0, space.top());
        let q = ((first + j) * 4096) as u64;
        assert(scheme.canonical(((segment_input(h, slide).start + j) * 4096) as u64));
        assert(q % 4096 == 0) by {
            assert((first + j) * 4096 % 4096 == 0) by (nonlinear_arith);
        }
        lemma_canonical_pages_equal(p, q, scheme.spec_la57());
        assert(j == jk);
    }
}

/// After [`map_segments`] succeeds, every address on a page of a loaded segment translates, as
/// the hardware walks the tables, to the same offset in that segment's image frames.
pub proof fn law_map_segments_then_translate(
    scheme: &LongModeTranslationScheme,
    before: PhysicalMemory64,
    before_frames: FrameAllocator,
    after: PhysicalMemory64,
    after_frames: FrameAllocator,
    hs: Seq<ProgramHeader>,
    slide: u64,
    base: int,
    k: int,
    address: u64,
)
    requires
        scheme.tables(before, before_frames).wf(),
        upper_entries_kept(before, after, scheme.spec_cr3() as int, scheme.top()),
        forall|va: u64| #[trigger] scheme.tables(after, after_frames).mapping(va) == mapping_after(
            scheme.tables(before, before_frames),
            hs,
            hs.len(),
            slide,
            base,
            va,
        ),
        segments_loaded_apart(scheme, before, hs, hs.len(), slide),
        frames_in_reach(hs, hs.len(), slide, base),
        forall|i: int| 0 <= i < hs.len() && #[trigger] occupies(hs[i]) ==> slide + hs[i].virtual_address + hs[i].memory_size
            <= u64::MAX + 1,
        base % 4096 == 0,
        base >= 0,
        0 <= k < hs.len(),
        occupies(hs[k]),
        in_segment(hs[k], slide, (address / 4096) as int),
    ensures
        scheme.spec_translate(after, address) matches Some((_, mapping_type, physical_address)) && mapping_type
            == MappingType::Normal && physical_address == base + (frames_before(hs, k as nat, slide) + address / 4096
            - segment_pages(hs[k], slide).0) * 4096 + address % 4096,
{
    let root = scheme.spec_cr3() as int;
    let top = scheme.top();
    let nxe = scheme.spec_nxe();
    let space = scheme.tables(before, before_frames);
    X86_64AddressSpace::lemma_from_parts(scheme.spec_cr3(), scheme.spec_la57(), nxe, before, before_frames);
    X86_64AddressSpace::lemma_from_parts(scheme.spec_cr3(), scheme.spec_la57(), nxe, after, after_frames);
    let page = (address / 4096) as int;
    let p = (page * 4096) as u64;
    let offset = (address % 4096) as u64;
    assert(address == p + offset);
    assert(p % 4096 == 0) by {
        assert(page * 4096 % 4096 == 0) by (nonlinear_arith);
    }
    lemma_segment_page_entry(scheme, space, before, hs, hs.len(), slide, base, k, page);
    lemma_segment_fits(hs[k], slide);
    lemma_input_in_one_half(scheme, space, segment_input(hs[k], slide));
    let jk = page - segment_pages(hs[k], slide).0;
    assert(scheme.canonical(((segment_input(hs[k], slide).start + jk) * 4096) as u64));
    assert(scheme.canonical(p));
    assert(!page_taken(scheme, before, hs, k as nat, slide, page));
    assert(scheme.spec_translate(before, p) is None);
    assert(walk(before, root, top, nxe, p) is None);
    let fb = frames_before(hs, k as nat, slide);
    let fv = base + (fb + jk) * 4096;
    assert(base + frames_before(hs, (k + 1) as nat, slide) * 4096 <= physical_limit());
    assert(frames_before(hs, (k + 1) as nat, slide) == fb + segment_pages(hs[k], slide).1);
    lemma_frames_before_nonnegative(hs, k as nat, slide);
    assert(0 <= fv && fv + 4096 <= physical_limit()) by (nonlinear_arith)
        requires
            fv == base + (fb + jk) * 4096,
            0 <= jk < segment_pages(hs[k], slide).1,
            base >= 0,
            fb >= 0,
            base + (fb + segment_pages(hs[k], slide).1) * 4096 <= physical_limit(),
    ;
    let frame = fv as u64;
    assert(frame % 4096 == 0) by {
        assert(fv % 4096 == 0) by (nonlinear_arith)
            requires
                fv == base + (fb + jk) * 4096,
                base % 4096 == 0,
        ;
    }
    let protection = protection_of(segment_permissions(hs[k]));
    lemma_leaf_value(frame, protection, nxe);
    lemma_protection_bits();
    assert(protection.0 & 1 == 1);
    let v = leaf_value(frame, protection, nxe);
    assert(scheme.tables(after, after_frames).mapping(p) == Some(v));
    assert(leaf_entry(after, root, top, p) == Some(v));
    lemma_no_large_page(before, after, root, top, nxe, p);
    lemma_offset_path(p, offset, top);
    lemma_frame_at_path(after, root, top, address, p, 1);
    lemma_frame_at_path(after, root, top, address, p, 2);
    lemma_frame_at_path(after, root, top, address, p, 3);
    assert(index_at(address, 1) == index_at(p, 1));
    assert(index_at(address, 2) == index_at(p, 2));
    assert(index_at(address, 3) == index_at(p, 3));
    assert(entry_at(after, root, top, address, 3) == entry_at(after, root, top, p, 3));
    assert(entry_at(after, root, top, address, 2) == entry_at(after, root, top, p, 2));
    assert(entry_at(after, root, top, address, 1) == Some(v));
    assert(end_level(after, root, top, address) == 1);
    assert(address64(v) == frame);
    assert(scheme.canonical(address)) by {
        let descriptor = AddressSpaceDescriptor::spec_new(if scheme.spec_la57() { 57u8 } else { 48u8 }, true);
        assert(descriptor.spec_is_valid_range(range_start(segment_input(hs[k], slide)), range_end(segment_input(hs[k], slide))));
        assert(range_start(segment_input(hs[k], slide)) <= address <= range_end(segment_input(hs[k], slide)));
    }
}

} // verus!
