//! The interface of a translation scheme and the search for free regions in its input space.
use vstd::prelude::*;

use crate::descriptor::AddressSpaceDescriptor;

verus! {

/// The access permissions of a mapped chunk.
#[derive(Clone, Copy, Debug, PartialEq, Eq, Structural)]
pub enum Permissions {
    /// The chunk can only be read.
    Read,
    /// The chunk can be read and written.
    ReadWrite,
    /// The chunk can be read and executed.
    ReadExecute,
    /// The chunk can be read, written and executed.
    ReadWriteExecute,
}

impl Permissions {
    /// The permissions allow writes.
    pub open spec fn spec_writable(self) -> bool {
        self is ReadWrite || self is ReadWriteExecute
    }

    /// The permissions allow execution.
    pub open spec fn spec_executable(self) -> bool {
        self is ReadExecute || self is ReadWriteExecute
    }

    /// Returns `true` if the permissions allow writes.
    pub fn writable(self) -> (result: bool)
        ensures
            result == self.spec_writable(),
    {
        match self {
            Permissions::ReadWrite | Permissions::ReadWriteExecute => true,
            _ => false,
        }
    }

    /// Returns `true` if the permissions allow execution.
    pub fn executable(self) -> (result: bool)
        ensures
            result == self.spec_executable(),
    {
        match self {
            Permissions::ReadExecute | Permissions::ReadWriteExecute => true,
            _ => false,
        }
    }

    /// The permissions that allow reads, and writes and execution as requested.
    pub open spec fn from_access_spec(writable: bool, executable: bool) -> Self {
        if writable {
            if executable {
                Permissions::ReadWriteExecute
            } else {
                Permissions::ReadWrite
            }
        } else if executable {
            Permissions::ReadExecute
        } else {
            Permissions::Read
        }
    }

    /// Returns the permissions that allow reads, and writes and execution as requested.
    pub fn from_access(writable: bool, executable: bool) -> (permissions: Self)
        ensures
            permissions == Self::from_access_spec(writable, executable),
            permissions.spec_writable() == writable,
            permissions.spec_executable() == executable,
    {
        match (writable, executable) {
            (true, true) => Permissions::ReadWriteExecute,
            (true, false) => Permissions::ReadWrite,
            (false, true) => Permissions::ReadExecute,
            (false, false) => Permissions::Read,
        }
    }
}

/// The memory type of a mapping.
#[derive(Clone, Copy, Debug, PartialEq, Eq, Structural)]
pub enum MappingType {
    /// Ordinary cacheable memory.
    Normal,
}

/// Errors of mapping a range of frames into a translation scheme.
#[derive(Clone, Copy, Debug, PartialEq, Eq, Structural)]
pub enum MapError {
    /// No suitable free region of the input address space holds the mapping.
    FindFreeRegionError,
    /// A frame needed for the mapping could not be allocated.
    FrameAllocation,
}

/// Strategies for searching the input address space to locate an unmapped region capable of
/// holding a requested address range.
#[derive(Clone, Copy, Debug, PartialEq, Eq, Structural)]
pub enum SearchStrategy {
    /// Allocates from the bottom (lowest addresses) of the available address space upwards.
    BottomUp,
    /// Allocates from the top (highest addresses) of the available address space downward.
    TopDown,
}

/// A contiguous range of chunks (pages of the input space or frames of the output space),
/// given by the number of its first chunk and its chunk count.
#[derive(Clone, Copy, Debug, PartialEq, Eq, Structural)]
pub struct ChunkRange {
    /// The number of the first chunk.
    pub start: u64,
    /// The number of chunks.
    pub count: u64,
}

impl ChunkRange {
    /// Creates a range of `count` chunks that starts at chunk number `start`.
    pub fn new(start: u64, count: u64) -> (range: Self)
        ensures
            range.start == start,
            range.count == count,
    {
        ChunkRange { start, count }
    }

    /// Returns `true` if the range holds no chunks.
    pub fn is_empty(&self) -> (result: bool)
        ensures
            result == (self.count == 0),
    {
        self.count == 0
    }
}

/// The numbers of the first and the last chunk that lie wholly inside the inclusive address
/// range `range`, or `None` when the search skips the range: it holds at most one address, its
/// start cannot be aligned up to a chunk boundary, or no chunk fits below its end.
pub open spec fn chunk_bounds(range: (u64, u64), chunk: u64) -> Option<(int, int)> {
    let start = range.0 as int;
    let end = range.1 as int;
    let first = if start % (chunk as int) == 0 {
        start / (chunk as int)
    } else {
        start / (chunk as int) + 1
    };
    let end_chunk = end / (chunk as int);
    let end_fits = end_chunk * chunk + chunk - 1 <= end;
    if start >= end || first * chunk > u64::MAX || (!end_fits && end_chunk == 0) {
        None
    } else {
        Some((first, if end_fits { end_chunk } else { end_chunk - 1 }))
    }
}

/// Interface to translate the chunks of an input address space into an output address space.
pub trait TranslationScheme {
    /// The scheme's state is consistent.
    spec fn valid(&self) -> bool;

    /// The descriptor of the input address space.
    spec fn spec_input_descriptor(&self) -> AddressSpaceDescriptor;

    /// The size, in bytes, of the smallest translation granule.
    spec fn spec_chunk_size(&self) -> u64;

    /// The output address that input address `address` translates to, if it is mapped.
    spec fn output_address(&self, address: u64) -> Option<u64>;

    /// Returns the [`AddressSpaceDescriptor`] that describes the input address space.
    fn input_descriptor(&self) -> (descriptor: AddressSpaceDescriptor)
        requires
            self.valid(),
        ensures
            descriptor == self.spec_input_descriptor(),
            descriptor.wf(),
    ;

    /// Returns the size, in bytes, of the smallest translation granule.
    fn chunk_size(&self) -> (size: u64)
        requires
            self.valid(),
        ensures
            size == self.spec_chunk_size(),
            size > 1,
    ;

    /// Translates `address` of the input address space into its output address, with the
    /// permissions and the memory type of its mapping.
    fn translate(&self, address: u64) -> (result: Option<(Permissions, MappingType, u64)>)
        requires
            self.valid(),
        ensures
            match self.output_address(address) {
                Some(output) => result matches Some((_, _, o)) && o == output,
                None => result is None,
            },
    ;
}

/// The chunk with number `page` is not mapped.
pub open spec fn chunk_free<S: TranslationScheme>(scheme: &S, page: int) -> bool {
    scheme.output_address((page * scheme.spec_chunk_size()) as u64) is None
}

/// The `count` chunks from chunk number `page` are all unmapped.
pub open spec fn run_free<S: TranslationScheme>(scheme: &S, page: int, count: int) -> bool {
    forall|q: int| page <= q < page + count ==> #[trigger] chunk_free(scheme, q)
}

/// `count` unmapped chunks from chunk number `page` lie wholly inside the address range
/// `range`.
pub open spec fn fits<S: TranslationScheme>(scheme: &S, range: (u64, u64), page: int, count: int) -> bool {
    match chunk_bounds(range, scheme.spec_chunk_size()) {
        Some((first, last)) => first <= page && page + count - 1 <= last && run_free(scheme, page, count),
        None => false,
    }
}

/// The valid input range that a search with `strategy` visits first.
pub open spec fn first_range<S: TranslationScheme>(scheme: &S, strategy: SearchStrategy) -> (u64, u64) {
    let ranges = scheme.spec_input_descriptor().spec_valid_ranges();
    if strategy is BottomUp {
        ranges[0]
    } else {
        ranges[1]
    }
}

/// The valid input range that a search with `strategy` visits second.
pub open spec fn second_range<S: TranslationScheme>(scheme: &S, strategy: SearchStrategy) -> (u64, u64) {
    let ranges = scheme.spec_input_descriptor().spec_valid_ranges();
    if strategy is BottomUp {
        ranges[1]
    } else {
        ranges[0]
    }
}

/// No run of `count` unmapped chunks in `range` lies further in the search direction of
/// `strategy` than chunk number `page`.
pub open spec fn extreme_in<S: TranslationScheme>(scheme: &S, strategy: SearchStrategy, range: (u64, u64), page: int, count: int) -> bool {
    forall|p: int| (if strategy is BottomUp { p < page } else { p > page }) ==> !#[trigger] fits(scheme, 
        range, p, count)
}

/// Locates a free region in the input address space suitable to map the `output` frames.
///
/// The valid ranges of the input space are searched in order, from the lowest address up
/// with [`SearchStrategy::BottomUp`] and from the highest address down with
/// [`SearchStrategy::TopDown`]; the first run of unmapped chunks long enough is returned.
pub fn find_free_region<S: TranslationScheme>(scheme: &S, strategy: SearchStrategy, output: ChunkRange) -> (result: Option<ChunkRange>)
    requires
        scheme.valid(),
    ensures
        match result {
            None => output.count == 0 || forall|p: int| !#[trigger] fits(scheme, 
                first_range(scheme, strategy), p, output.count as int) && !fits(scheme, 
                second_range(scheme, strategy), p, output.count as int),
            Some(found) => {
                &&& output.count > 0
                &&& found.count == output.count
                &&& {
                    ||| fits(scheme, first_range(scheme, strategy), found.start as int, output.count as int)
                        && extreme_in(scheme, strategy, first_range(scheme, strategy), found.start as int, output.count as int)
                    ||| (forall|p: int| !#[trigger] fits(scheme, first_range(scheme, strategy), p, output.count as int))
                        && fits(scheme, second_range(scheme, strategy), found.start as int, output.count as int)
                        && extreme_in(scheme, strategy, second_range(scheme, strategy), found.start as int, output.count as int)
                }
            },
        },
{
    if output.is_empty() {
        return None;
    }
    let ranges = scheme.input_descriptor().valid_ranges();
    let bottom_up = match strategy {
        SearchStrategy::BottomUp => true,
        SearchStrategy::TopDown => false,
    };
    let (first, second) = if bottom_up {
        (ranges[0], ranges[1])
    } else {
        (ranges[1], ranges[0])
    };
    assert(first == first_range(scheme, strategy) && second == second_range(scheme, strategy));
    match search_range(scheme, first, bottom_up, output.count) {
        Some(start) => Some(ChunkRange::new(start, output.count)),
        None => match search_range(scheme, second, bottom_up, output.count) {
            Some(start) => Some(ChunkRange::new(start, output.count)),
            None => None,
        },
    }
}

/// Searches `range` for `count` consecutive unmapped chunks and returns the number of the first
/// one: the lowest such run when `bottom_up`, else the highest.
fn search_range<S: TranslationScheme>(scheme: &S, range: (u64, u64), bottom_up: bool, count: u64) -> (result: Option<u64>)
    requires
        scheme.valid(),
        count > 0,
    ensures
        match result {
            Some(start) => fits(scheme, range, start as int, count as int) && forall|p: int| (if bottom_up {
                p < start
            } else {
                p > start
            }) ==> !#[trigger] fits(scheme, range, p, count as int),
            None => forall|p: int| !#[trigger] fits(scheme, range, p, count as int),
        },
{
    let chunk = scheme.chunk_size();
    let (first, last) = match range_bounds(range, chunk) {
        Some(bounds) => bounds,
        None => return None,
    };
    if last < first {
        proof {
            assert forall|p: int| !#[trigger] fits(scheme, range, p, count as int) by {
                assert(chunk_bounds(range, chunk) == Some((first as int, last as int)));
            }
        }
        return None;
    }
    assert(last < u64::MAX) by (nonlinear_arith)
        requires (last + 1) * chunk <= u64::MAX + 1, chunk > 1;
    if bottom_up {
        let mut current = first;
        let mut run: u64 = 0;
        while current <= last
            invariant
                scheme.valid(),
                chunk == scheme.spec_chunk_size(),
                chunk > 0,
                chunk_bounds(range, chunk) == Some((first as int, last as int)),
                (last + 1) * chunk <= u64::MAX + 1,
                last < u64::MAX,
                bottom_up,
                first <= current <= last + 1,
                run < count,
                run <= current - first,
                forall|q: int| current - run <= q < current ==> #[trigger] chunk_free(scheme, q),
                run < current - first ==> !chunk_free(scheme, current - run - 1),
                forall|p: int| first <= p && p + count <= current ==> !#[trigger] run_free(scheme, p, count as int),
            decreases last + 1 - current,
        {
            assert(current * chunk <= u64::MAX) by (nonlinear_arith)
                requires current <= last, (last + 1) * chunk <= u64::MAX + 1, chunk > 0;
            if scheme.translate(current * chunk).is_none() {
                assert(chunk_free(scheme, current as int));
                run += 1;
                if run == count {
                    let start = current - (run - 1);
                    proof {
                        assert(run_free(scheme, start as int, count as int));
                        assert(fits(scheme, range, start as int, count as int));
                        assert forall|p: int| p < start implies !#[trigger] fits(scheme, range, p, count as int) by {
                            if first <= p && p + count - 1 <= last {
                                assert(p + count <= current);
                            }
                        }
                    }
                    return Some(start);
                }
                proof {
                    assert forall|p: int| first <= p && p + count <= current + 1 implies !#[trigger] run_free(scheme, 
                        p, count as int) by {
                        if p + count == current + 1 {
                            assert(!chunk_free(scheme, current - (run - 1) - 1));
                        }
                    }
                }
            } else {
                proof {
                    assert(!chunk_free(scheme, current as int));
                    assert forall|p: int| first <= p && p + count <= current + 1 implies !#[trigger] run_free(scheme, 
                        p, count as int) by {
                        if p + count == current + 1 {
                            assert(!chunk_free(scheme, current as int));
                        }
                    }
                }
                run = 0;
            }
            current += 1;
        }
        proof {
            assert forall|p: int| !#[trigger] fits(scheme, range, p, count as int) by {
                if first <= p && p + count - 1 <= last {
                    assert(!run_free(scheme, p, count as int));
                }
            }
        }
        None
    } else {
        let mut current = last;
        let mut run: u64 = 0;
        loop
            invariant
                scheme.valid(),
                chunk == scheme.spec_chunk_size(),
                chunk > 0,
                chunk_bounds(range, chunk) == Some((first as int, last as int)),
                (last + 1) * chunk <= u64::MAX + 1,
                !bottom_up,
                first <= current <= last,
                run < count,
                run <= last - current,
                forall|q: int| current < q <= current + run ==> #[trigger] chunk_free(scheme, q),
                run < last - current ==> !chunk_free(scheme, current + run + 1),
                forall|p: int| current < p && p + count - 1 <= last ==> !#[trigger] run_free(scheme, p, count as int),
            decreases current,
        {
            assert(current * chunk <= u64::MAX) by (nonlinear_arith)
                requires current <= last, (last + 1) * chunk <= u64::MAX + 1, chunk > 0;
            if scheme.translate(current * chunk).is_none() {
                assert(chunk_free(scheme, current as int));
                run += 1;
                if run == count {
                    proof {
                        assert(run_free(scheme, current as int, count as int));
                        assert(fits(scheme, range, current as int, count as int));
                        assert forall|p: int| p > current implies !#[trigger] fits(scheme, range, p, count as int) by {}
                    }
                    return Some(current);
                }
                proof {
                    assert forall|p: int| current - 1 < p && p + count - 1 <= last implies !#[trigger] run_free(scheme, 
                        p, count as int) by {
                        if p == current {
                            assert(!chunk_free(scheme, current + (run - 1) + 1));
                        }
                    }
                }
            } else {
                proof {
                    assert forall|p: int| current - 1 < p && p + count - 1 <= last implies !#[trigger] run_free(scheme, 
                        p, count as int) by {
                        if p == current {
                            assert(!chunk_free(scheme, current as int));
                        }
                    }
                }
                run = 0;
            }
            if current == first {
                proof {
                    assert forall|p: int| !#[trigger] fits(scheme, range, p, count as int) by {
                        if first <= p && p + count - 1 <= last {
                            assert(!run_free(scheme, p, count as int));
                        }
                    }
                }
                return None;
            }
            current -= 1;
        }
    }
}

/// Division by a positive chunk size splits a number into whole chunks and a remainder.
proof fn lemma_chunks(x: int, chunk: int)
    requires
        x >= 0,
        chunk > 0,
    ensures
        (x / chunk) * chunk <= x < (x / chunk) * chunk + chunk,
        x % chunk == x - (x / chunk) * chunk,
        x / chunk >= 0,
        x / chunk <= x,
{
    vstd::arithmetic::div_mod::lemma_fundamental_div_mod(x, chunk);
    vstd::arithmetic::div_mod::lemma_mod_pos_bound(x, chunk);
    vstd::arithmetic::div_mod::lemma_div_pos_is_pos(x, chunk);
    vstd::arithmetic::div_mod::lemma_div_is_ordered_by_denominator(x, 1, chunk);
    vstd::arithmetic::mul::lemma_mul_is_commutative(chunk, x / chunk);
}

/// Returns the chunk numbers of the first and last chunk that lie wholly inside `range`, if the
/// search visits the range.
fn range_bounds(range: (u64, u64), chunk: u64) -> (bounds: Option<(u64, u64)>)
    requires
        chunk > 0,
    ensures
        match chunk_bounds(range, chunk) {
            Some((first, last)) => bounds == Some((first as u64, last as u64)) && (last + 1) * chunk
                <= u64::MAX + 1 && first >= 0 && last + 1 >= 0,
            None => bounds is None,
        },
{
    let (start, end) = range;
    if start >= end {
        return None;
    }
    proof {
        lemma_chunks(start as int, chunk as int);
        lemma_chunks(end as int, chunk as int);
    }
    let first = if start % chunk == 0 {
        assert((start / chunk) * chunk == start);
        start / chunk
    } else {
        let down = start / chunk;
        assert(down < u64::MAX);
        assert((down + 1) * chunk == down * chunk + chunk) by (nonlinear_arith);
        match (down + 1).checked_mul(chunk) {
            Some(_) => down + 1,
            None => return None,
        }
    };
    assert(first * chunk < start + chunk && first * chunk <= u64::MAX);
    let end_chunk = end / chunk;
    let end_fits = match (end_chunk * chunk).checked_add(chunk - 1) {
        Some(end_inclusive) => end_inclusive <= end,
        None => false,
    };
    let last = if end_fits {
        end_chunk
    } else {
        if end_chunk == 0 {
            return None;
        }
        end_chunk - 1
    };
    assert((last + 1) * chunk <= u64::MAX + 1) by (nonlinear_arith)
        requires
            chunk > 0,
            last == if end_fits { end_chunk as int } else { end_chunk - 1 },
            end_fits ==> end_chunk * chunk + chunk - 1 <= end,
            end_chunk * chunk <= end,
            end <= u64::MAX,
    ;
    Some((first, last))
}

} // verus!
