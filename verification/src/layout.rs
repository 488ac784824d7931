//! The layout of the executable once loaded: its span and where it slides to.
use vstd::prelude::*;

use crate::descriptor::AddressSpaceDescriptor;
use crate::elf::{ElfType, ParsedElf, ProgramHeader, SEGMENT_LOAD};
use vstd::arithmetic::power2::pow2;

verus! {

/// The computed layout of the loaded ELF file.
#[derive(Clone, Copy, Debug, PartialEq, Eq, Structural)]
pub struct Layout {
    /// The offset, in bytes, that should be added to the ELF file's virtual addresses.
    pub slide: u64,
    /// The number of bytes between the lowest address and the highest address.
    pub byte_span: u64,
}

/// Various errors that can occur when computing the layout of the ELF file.
#[derive(Clone, Copy, Debug, PartialEq, Eq, Structural)]
pub enum ComputeLayoutError {
    /// The loadable program headers are overlapping when aligned to the page size.
    OverlappingSegments,
    /// The loadable program headers are not ascending.
    NonAscending,
    /// The executable to be loaded is too large.
    TooLarge,
    /// The ELF file's type is not supported.
    UnsupportedFileType(ElfType),
}

/// `x` rounded down to a multiple of `a`.
pub open spec fn align_down(x: int, a: int) -> int {
    x - x % a
}

/// `x` rounded up to a multiple of `a`.
pub open spec fn align_up(x: int, a: int) -> int {
    if x % a == 0 { x } else { x - x % a + a }
}

/// The end of a segment in memory.
pub open spec fn segment_end(h: ProgramHeader) -> int {
    h.virtual_address + h.memory_size
}

/// The running state of the scan of the loadable headers: the lowest address, the highest end
/// address, the largest alignment and the end of the previous loadable segment.
pub struct Scan {
    /// The lowest segment address.
    pub min: int,
    /// The highest segment end address.
    pub max: int,
    /// The largest alignment.
    pub alignment: int,
    /// The end of the previous loadable segment.
    pub prev_end: int,
}

/// The error that a loadable header raises against the end of the previous loadable segment.
pub open spec fn segment_error(h: ProgramHeader, prev_end: int, chunk: int) -> Option<ComputeLayoutError> {
    if segment_end(h) > u64::MAX {
        Some(ComputeLayoutError::TooLarge)
    } else if align_up(prev_end, chunk) > u64::MAX {
        Some(ComputeLayoutError::TooLarge)
    } else if prev_end > segment_end(h) {
        Some(ComputeLayoutError::NonAscending)
    } else if align_up(prev_end, chunk) > align_down(h.virtual_address as int, chunk) {
        Some(ComputeLayoutError::OverlappingSegments)
    } else {
        None
    }
}

/// The scan of the first `n` program headers, or the first error a loadable header raises.
pub open spec fn scan(hs: Seq<ProgramHeader>, n: nat, chunk: int) -> Result<Scan, ComputeLayoutError>
    decreases n,
{
    if n == 0 {
        Ok(Scan { min: u64::MAX as int, max: 0, alignment: chunk, prev_end: 0 })
    } else {
        match scan(hs, (n - 1) as nat, chunk) {
            Err(e) => Err(e),
            Ok(s) => {
                let h = hs[n - 1];
                if h.segment_type != SEGMENT_LOAD {
                    Ok(s)
                } else {
                    match segment_error(h, s.prev_end, chunk) {
                        Some(e) => Err(e),
                        None => Ok(
                            Scan {
                                min: if h.virtual_address < s.min { h.virtual_address as int } else { s.min },
                                max: if segment_end(h) > s.max { segment_end(h) } else { s.max },
                                alignment: if h.alignment > s.alignment { h.alignment as int } else { s.alignment },
                                prev_end: segment_end(h),
                            },
                        ),
                    }
                }
            },
        }
    }
}

/// The header list holds a loadable segment.
pub open spec fn has_loadable(hs: Seq<ProgramHeader>) -> bool {
    exists|i: int| 0 <= i < hs.len() && (#[trigger] hs[i]).segment_type == SEGMENT_LOAD
}

/// The base of a shared object placed as high as it fits in the range `(start, end)`.
pub open spec fn range_base(range: (u64, u64), span: int, alignment: int) -> Option<int> {
    if range.0 > range.1 || range.1 - range.0 < span {
        None
    } else {
        Some(align_down(range.1 - span, alignment))
    }
}

/// An optional integer as an optional `u64`.
pub open spec fn as_u64_option(o: Option<int>) -> Option<u64> {
    match o {
        Some(v) => Some(v as u64),
        None => None,
    }
}

/// The layout that [`compute_layout`] computes for the program headers `hs`, the file type, the
/// translation granule and the virtual address ranges.
pub open spec fn spec_layout(
    hs: Seq<ProgramHeader>,
    elf_type: ElfType,
    chunk: int,
    ranges: [(u64, u64); 2],
) -> Result<Layout, ComputeLayoutError> {
    match scan(hs, hs.len(), chunk) {
        Err(e) => Err(e),
        Ok(s) => {
            let span = align_up(s.max, s.alignment) - align_down(s.min, s.alignment);
            if elf_type.0 == ElfType::EXECUTABLE {
                Ok(Layout { slide: 0, byte_span: span as u64 })
            } else if elf_type.0 == ElfType::SHARED {
                match range_base(ranges[1], span, s.alignment) {
                    Some(base) => Ok(Layout { slide: base as u64, byte_span: span as u64 }),
                    None => match range_base(ranges[0], span, s.alignment) {
                        Some(base) => Ok(Layout { slide: base as u64, byte_span: span as u64 }),
                        None => Err(ComputeLayoutError::TooLarge),
                    },
                }
            } else {
                Err(ComputeLayoutError::UnsupportedFileType(elf_type))
            }
        },
    }
}

/// Once the scan has failed, it fails with the same error on every longer prefix.
proof fn lemma_scan_error_persists(hs: Seq<ProgramHeader>, n: nat, m: nat, chunk: int)
    requires
        n <= m,
        scan(hs, n, chunk) is Err,
    ensures
        scan(hs, m, chunk) == scan(hs, n, chunk),
    decreases m - n,
{
    if n < m {
        lemma_scan_error_persists(hs, n, (m - 1) as nat, chunk);
    }
}

/// A successful scan keeps the lowest address at most the highest end, the alignment at
/// least the granule, and the values within 64 bits.
proof fn lemma_scan_bounds(hs: Seq<ProgramHeader>, n: nat, chunk: int)
    requires
        n <= hs.len(),
        0 < chunk <= u64::MAX,
        scan(hs, n, chunk) is Ok,
    ensures
        ({
            let s = scan(hs, n, chunk)->Ok_0;
            &&& 0 <= s.max <= u64::MAX
            &&& 0 <= s.min <= u64::MAX
            &&& chunk <= s.alignment <= u64::MAX
            &&& 0 <= s.prev_end <= s.max
            &&& (exists|i: int| 0 <= i < n && (#[trigger] hs[i]).segment_type == SEGMENT_LOAD) ==> s.min <= s.max
        }),
    decreases n,
{
    if n > 0 {
        lemma_scan_bounds(hs, (n - 1) as nat, chunk);
        let s0 = scan(hs, (n - 1) as nat, chunk)->Ok_0;
        let h = hs[n - 1];
        if exists|i: int| 0 <= i < n && (#[trigger] hs[i]).segment_type == SEGMENT_LOAD {
            if h.segment_type != SEGMENT_LOAD {
                let i = choose|i: int| 0 <= i < n && (#[trigger] hs[i]).segment_type == SEGMENT_LOAD;
                assert(i < n - 1);
            }
        }
    }
}

/// `x` is a power of two.
pub open spec fn power_of_two(x: int) -> bool {
    exists|k: nat| #[trigger] pow2(k) == x
}

/// The granule is a power of two, and so is the alignment of every loadable segment that asks
/// for one.
pub open spec fn alignments_are_powers_of_two(hs: Seq<ProgramHeader>, chunk: int) -> bool {
    &&& power_of_two(chunk)
    &&& forall|i: int|
        0 <= i < hs.len() && (#[trigger] hs[i]).segment_type == SEGMENT_LOAD && hs[i].alignment > 0 ==> power_of_two(
            hs[i].alignment as int,
        )
}

/// The range of `byte_span` bytes from `lo` starts on a multiple of the granule and of every
/// loadable segment's alignment, and holds every loadable segment.
pub open spec fn covers_segments(hs: Seq<ProgramHeader>, chunk: int, byte_span: u64, lo: int) -> bool {
    &&& lo % chunk == 0
    &&& forall|i: int|
        0 <= i < hs.len() && (#[trigger] hs[i]).segment_type == SEGMENT_LOAD ==> {
            &&& hs[i].alignment > 0 ==> lo % (hs[i].alignment as int) == 0
            &&& lo <= hs[i].virtual_address
            &&& segment_end(hs[i]) <= lo + byte_span
        }
}

/// The layout keeps the alignment the executable asks for: the slide and the span are multiples
/// of the granule and of every loadable segment's alignment, and the span, from a start aligned
/// the same way, holds every loadable segment.
pub open spec fn layout_aligned(hs: Seq<ProgramHeader>, chunk: int, l: Layout) -> bool {
    &&& (l.slide as int) % chunk == 0
    &&& (l.byte_span as int) % chunk == 0
    &&& forall|i: int|
        0 <= i < hs.len() && (#[trigger] hs[i]).segment_type == SEGMENT_LOAD && hs[i].alignment > 0 ==> {
            &&& (l.slide as int) % (hs[i].alignment as int) == 0
            &&& (l.byte_span as int) % (hs[i].alignment as int) == 0
        }
    &&& exists|lo: int| #[trigger] covers_segments(hs, chunk, l.byte_span, lo)
}

/// An executable stays where it was linked, and a file that is neither an executable nor a
/// shared object is refused.
pub open spec fn file_type_kept(elf_type: ElfType, result: Result<Layout, ComputeLayoutError>) -> bool {
    &&& elf_type.0 == ElfType::EXECUTABLE ==> (result matches Ok(l) ==> l.slide == 0)
    &&& elf_type.0 != ElfType::EXECUTABLE && elf_type.0 != ElfType::SHARED ==> result is Err
}

/// Only executables and shared objects are laid out, and an executable is not moved.
pub proof fn law_layout_file_types(hs: Seq<ProgramHeader>, elf_type: ElfType, chunk: int, ranges: [(u64, u64); 2])
    ensures
        file_type_kept(elf_type, spec_layout(hs, elf_type, chunk, ranges)),
{
}

/// A power of two divides every power of two that is at least as large.
proof fn lemma_pow2_divides(a: int, b: int)
    requires
        power_of_two(a),
        power_of_two(b),
        a <= b,
    ensures
        a > 0,
        b % a == 0,
{
    let i = choose|k: nat| #[trigger] pow2(k) == a;
    let j = choose|k: nat| #[trigger] pow2(k) == b;
    vstd::arithmetic::power2::lemma_pow2_pos(i);
    if j < i {
        vstd::arithmetic::power2::lemma_pow2_strictly_increases(j, i);
    } else {
        let d = (j - i) as nat;
        vstd::arithmetic::power2::lemma_pow2_adds(i, d);
        assert(i + d == j);
        vstd::arithmetic::mul::lemma_mul_is_commutative(pow2(i) as int, pow2(d) as int);
        vstd::arithmetic::div_mod::lemma_mod_multiples_basic(pow2(d) as int, a);
    }
}

/// A multiple of `b` is a multiple of every divisor `a` of `b`.
proof fn lemma_multiple_of_divisor(x: int, a: int, b: int)
    requires
        a > 0,
        b > 0,
        b % a == 0,
        x % b == 0,
    ensures
        x % a == 0,
{
    vstd::arithmetic::div_mod::lemma_fundamental_div_mod(b, a);
    let q = b / a;
    assert(q > 0) by (nonlinear_arith)
        requires
            b == a * q,
            a > 0,
            b > 0,
    ;
    vstd::arithmetic::div_mod::lemma_mod_mod(x, a, q);
}

/// Rounding down and up give multiples of `a` around `x`.
proof fn lemma_align_multiples(x: int, a: int)
    requires
        a > 0,
    ensures
        align_down(x, a) % a == 0,
        align_up(x, a) % a == 0,
        align_down(x, a) <= x <= align_up(x, a),
        align_down(x, a) == a * (x / a),
{
    vstd::arithmetic::div_mod::lemma_fundamental_div_mod(x, a);
    vstd::arithmetic::mul::lemma_mul_is_commutative(x / a, a);
    vstd::arithmetic::div_mod::lemma_mod_multiples_basic(x / a, a);
    vstd::arithmetic::mul::lemma_mul_is_commutative(x / a + 1, a);
    vstd::arithmetic::div_mod::lemma_mod_multiples_basic(x / a + 1, a);
    vstd::arithmetic::mul::lemma_mul_is_distributive_add(a, x / a, 1);
}

/// The difference of two multiples of `a` is a multiple of `a`.
proof fn lemma_sub_multiples(x: int, y: int, a: int)
    requires
        a > 0,
        x % a == 0,
        y % a == 0,
    ensures
        (x - y) % a == 0,
{
    vstd::arithmetic::div_mod::lemma_fundamental_div_mod(x, a);
    vstd::arithmetic::div_mod::lemma_fundamental_div_mod(y, a);
    vstd::arithmetic::mul::lemma_mul_is_distributive_sub(a, x / a, y / a);
    vstd::arithmetic::mul::lemma_mul_is_commutative(x / a - y / a, a);
    vstd::arithmetic::div_mod::lemma_mod_multiples_basic(x / a - y / a, a);
}

/// The scan's lowest address, highest end and largest alignment bound every loadable segment
/// among the first `n` headers, and its alignment is a power of two when the alignments are.
proof fn lemma_scan_covers(hs: Seq<ProgramHeader>, n: nat, chunk: int)
    requires
        n <= hs.len(),
        0 < chunk,
        scan(hs, n, chunk) is Ok,
    ensures
        ({
            let s = scan(hs, n, chunk)->Ok_0;
            &&& chunk <= s.alignment
            &&& alignments_are_powers_of_two(hs, chunk) ==> power_of_two(s.alignment)
            &&& forall|i: int|
                0 <= i < n && (#[trigger] hs[i]).segment_type == SEGMENT_LOAD ==> {
                    &&& s.min <= hs[i].virtual_address
                    &&& segment_end(hs[i]) <= s.max
                    &&& hs[i].alignment <= s.alignment
                }
        }),
    decreases n,
{
    if n > 0 {
        lemma_scan_covers(hs, (n - 1) as nat, chunk);
        let h = hs[n - 1];
        if alignments_are_powers_of_two(hs, chunk) && h.segment_type == SEGMENT_LOAD && h.alignment > 0 {
            assert(power_of_two(hs[n - 1].alignment as int));
        }
    }
}

/// Once laid out, an executable keeps the alignment it asks for: where the granule and every
/// loadable segment's alignment are powers of two, the slide and the span are multiples of each
/// of them, and the span, from a start aligned the same way, holds every loadable segment. A
/// shared object is thus never placed off its segments' alignment.
pub proof fn law_layout_aligned(hs: Seq<ProgramHeader>, elf_type: ElfType, chunk: int, ranges: [(u64, u64); 2])
    requires
        chunk <= u64::MAX,
        alignments_are_powers_of_two(hs, chunk),
        has_loadable(hs),
        scan(hs, hs.len(), chunk) matches Ok(s) ==> align_up(s.max, s.alignment) <= u64::MAX,
    ensures
        spec_layout(hs, elf_type, chunk, ranges) matches Ok(l) ==> layout_aligned(hs, chunk, l),
{
    lemma_pow2_divides(chunk, chunk);
    if let Ok(s) = scan(hs, hs.len(), chunk) {
        lemma_scan_covers(hs, hs.len(), chunk);
        lemma_scan_bounds(hs, hs.len(), chunk);
        let a = s.alignment;
        lemma_pow2_divides(chunk, a);
        lemma_align_multiples(s.min, a);
        lemma_align_multiples(s.max, a);
        let lo = align_down(s.min, a);
        let span = align_up(s.max, a) - lo;
        lemma_sub_multiples(align_up(s.max, a), lo, a);
        assert(0 <= lo) by (nonlinear_arith)
            requires
                lo == a * (s.min / a),
                a > 0,
                s.min >= 0,
        ;
        if let Ok(l) = spec_layout(hs, elf_type, chunk, ranges) {
            assert(l.byte_span == span);
            let slide = l.slide as int;
            assert(slide % a == 0) by {
                if elf_type.0 != ElfType::EXECUTABLE {
                    assert(elf_type.0 == ElfType::SHARED);
                    let r = if range_base(ranges[1], span, a) is Some { ranges[1] } else { ranges[0] };
                    assert(range_base(r, span, a) is Some);
                    let b = align_down(r.1 - span, a);
                    assert(range_base(r, span, a) == Some(b));
                    assert(r.1 - span >= 0);
                    lemma_align_multiples(r.1 - span, a);
                    assert(0 <= b) by (nonlinear_arith)
                        requires
                            b == a * ((r.1 - span) / a),
                            a > 0,
                            r.1 - span >= 0,
                    ;
                    assert(b <= u64::MAX);
                    assert(slide == b);
                } else {
                    assert(slide == 0);
                }
            }
            lemma_multiple_of_divisor(slide, chunk, a);
            lemma_multiple_of_divisor(span, chunk, a);
            lemma_multiple_of_divisor(lo, chunk, a);
            assert forall|i: int|
                0 <= i < hs.len() && (#[trigger] hs[i]).segment_type == SEGMENT_LOAD && hs[i].alignment > 0 implies {
                &&& slide % (hs[i].alignment as int) == 0
                &&& (l.byte_span as int) % (hs[i].alignment as int) == 0
            } by {
                lemma_pow2_divides(hs[i].alignment as int, a);
                lemma_multiple_of_divisor(slide, hs[i].alignment as int, a);
                lemma_multiple_of_divisor(span, hs[i].alignment as int, a);
            }
            assert(covers_segments(hs, chunk, l.byte_span, lo)) by {
                assert forall|i: int| 0 <= i < hs.len() && (#[trigger] hs[i]).segment_type == SEGMENT_LOAD implies {
                    &&& hs[i].alignment > 0 ==> lo % (hs[i].alignment as int) == 0
                    &&& lo <= hs[i].virtual_address
                    &&& segment_end(hs[i]) <= lo + l.byte_span
                } by {
                    if hs[i].alignment > 0 {
                        lemma_pow2_divides(hs[i].alignment as int, a);
                        lemma_multiple_of_divisor(lo, hs[i].alignment as int, a);
                    }
                }
            }
        }
    }
}

/// Computes the layout of the loaded ELF file.
///
/// The loadable segments must ascend and must not share a page of `chunk_size` bytes. An
/// executable stays where it was linked; a shared object is placed as high as it fits in the
/// upper valid range of the input address space, else in the lower one.
pub fn compute_layout(
    elf: &ParsedElf,
    chunk_size: u64,
    input_descriptor: AddressSpaceDescriptor,
) -> (result: Result<Layout, ComputeLayoutError>)
    requires
        chunk_size > 0,
        input_descriptor.wf(),
        has_loadable(elf.program_headers@),
        scan(elf.program_headers@, elf.program_headers@.len(), chunk_size as int) matches Ok(s)
            ==> align_up(s.max, s.alignment) <= u64::MAX,
    ensures
        result == spec_layout(
            elf.program_headers@,
            elf.elf_type,
            chunk_size as int,
            input_descriptor.spec_valid_ranges(),
        ),
        file_type_kept(elf.elf_type, result),
        alignments_are_powers_of_two(elf.program_headers@, chunk_size as int) ==> (result matches Ok(l) ==> layout_aligned(
            elf.program_headers@,
            chunk_size as int,
            l,
        )),
{
    proof {
        law_layout_file_types(elf.program_headers@, elf.elf_type, chunk_size as int, input_descriptor.spec_valid_ranges());
        if alignments_are_powers_of_two(elf.program_headers@, chunk_size as int) {
            law_layout_aligned(elf.program_headers@, elf.elf_type, chunk_size as int, input_descriptor.spec_valid_ranges());
        }
    }
    let headers = &elf.program_headers;
    let mut min_address = u64::MAX;
    let mut max_address = u64::MIN;
    let mut alignment = chunk_size;
    let mut prev_end_address = 0u64;
    let mut i: usize = 0;
    while i < headers.len()
        invariant
            0 < chunk_size,
            i <= headers@.len(),
            headers@ == elf.program_headers@,
            scan(headers@, i as nat, chunk_size as int) == Ok::<Scan, ComputeLayoutError>(
                Scan {
                    min: min_address as int,
                    max: max_address as int,
                    alignment: alignment as int,
                    prev_end: prev_end_address as int,
                },
            ),
        decreases headers@.len() - i,
    {
        let header = headers[i];
        if header.segment_type == SEGMENT_LOAD {
            let virtual_address = header.virtual_address;
            let end_address = match virtual_address.checked_add(header.memory_size) {
                Some(end) => end,
                None => {
                    proof {
                        lemma_scan_error_persists(headers@, (i + 1) as nat, headers@.len(), chunk_size as int);
                    }
                    return Err(ComputeLayoutError::TooLarge);
                },
            };
            let ghost before = Scan {
                min: min_address as int,
                max: max_address as int,
                alignment: alignment as int,
                prev_end: prev_end_address as int,
            };
            if virtual_address < min_address {
                min_address = virtual_address;
            }
            if end_address > max_address {
                max_address = end_address;
            }
            if header.alignment > alignment {
                alignment = header.alignment;
            }
            let aligned_prev_end_address = match checked_next_multiple_of(prev_end_address, chunk_size) {
                Some(address) => address,
                None => {
                    proof {
                        lemma_scan_error_persists(headers@, (i + 1) as nat, headers@.len(), chunk_size as int);
                    }
                    return Err(ComputeLayoutError::TooLarge);
                },
            };
            proof {
                let x = virtual_address as int;
                let c = chunk_size as int;
                vstd::arithmetic::div_mod::lemma_fundamental_div_mod(x, c);
                vstd::arithmetic::div_mod::lemma_mod_pos_bound(x, c);
                vstd::arithmetic::mul::lemma_mul_is_commutative(x / c, c);
            }
            let aligned_start_address = (virtual_address / chunk_size) * chunk_size;
            if prev_end_address > end_address {
                proof {
                    lemma_scan_error_persists(headers@, (i + 1) as nat, headers@.len(), chunk_size as int);
                }
                return Err(ComputeLayoutError::NonAscending);
            }
            if aligned_prev_end_address > aligned_start_address {
                proof {
                    lemma_scan_error_persists(headers@, (i + 1) as nat, headers@.len(), chunk_size as int);
                }
                return Err(ComputeLayoutError::OverlappingSegments);
            }
            prev_end_address = end_address;
        }
        i += 1;
    }
    proof {
        lemma_scan_bounds(headers@, headers@.len(), chunk_size as int);
        vstd::arithmetic::div_mod::lemma_mod_decreases(min_address as nat, alignment as nat);
    }
    let aligned_min_address = min_address - min_address % alignment;
    let aligned_max_address = match checked_next_multiple_of(max_address, alignment) {
        Some(address) => address,
        None => {
            assert(false);
            return Err(ComputeLayoutError::TooLarge);
        },
    };
    proof {
        vstd::arithmetic::div_mod::lemma_mod_decreases(min_address as nat, alignment as nat);
    }
    let byte_span = aligned_max_address - aligned_min_address;
    if elf.elf_type.0 == ElfType::EXECUTABLE {
        Ok(Layout { slide: 0, byte_span })
    } else if elf.elf_type.0 == ElfType::SHARED {
        let ranges = input_descriptor.valid_ranges();
        let mut base_storage: Option<u64> = None;
        let mut r: usize = 0;
        while r < 2
            invariant
                r <= 2,
                alignment > 0,
                ranges == input_descriptor.spec_valid_ranges(),
                base_storage == if r == 2 && range_base(ranges[1], byte_span as int, alignment as int) is Some {
                    as_u64_option(range_base(ranges[1], byte_span as int, alignment as int))
                } else if r >= 1 {
                    as_u64_option(range_base(ranges[0], byte_span as int, alignment as int))
                } else {
                    None::<u64>
                },
            decreases 2 - r,
        {
            let (start, end) = ranges[r];
            if start > end {
                r += 1;
                continue;
            }
            if end - start < byte_span {
                r += 1;
                continue;
            }
            let base = end - byte_span;
            proof {
                vstd::arithmetic::div_mod::lemma_mod_decreases(base as nat, alignment as nat);
            }
            base_storage = Some(base - base % alignment);
            r += 1;
        }
        match base_storage {
            Some(base) => Ok(Layout { slide: base, byte_span }),
            None => Err(ComputeLayoutError::TooLarge),
        }
    } else {
        Err(ComputeLayoutError::UnsupportedFileType(elf.elf_type))
    }
}

/// Returns `value` rounded up to a multiple of `multiple`, if that fits in 64 bits.
pub fn checked_next_multiple_of(value: u64, multiple: u64) -> (result: Option<u64>)
    requires
        multiple > 0,
    ensures
        result == if align_up(value as int, multiple as int) <= u64::MAX {
            Some(align_up(value as int, multiple as int) as u64)
        } else {
            None::<u64>
        },
{
    let remainder = value % multiple;
    if remainder == 0 {
        Some(value)
    } else {
        value.checked_add(multiple - remainder)
    }
}

} // verus!
