//! Bookkeeping of the frame regions that the loaded executable allocated.
//!
//! A [`FrameVec`] holds sorted, non-empty frame ranges with at least one frame of gap between
//! neighbours, so that the set of frames it describes has exactly one representation.
use vstd::prelude::*;

verus! {

/// A contiguous range of frames, given by the number of its first frame and its frame count.
#[derive(Clone, Copy, Debug, PartialEq, Eq, Structural)]
pub struct FrameRange {
    /// The number of the first frame.
    pub start: u64,
    /// The number of frames.
    pub count: u64,
}

impl FrameRange {
    /// The number one past the last frame of the range.
    pub open spec fn end(self) -> int {
        self.start + self.count
    }

    /// The range does not run past the last frame number.
    pub open spec fn wf(self) -> bool {
        self.start + self.count <= u64::MAX
    }

    /// The frame numbers that the range covers.
    pub open spec fn frames(self) -> Set<int> {
        Set::new(|f: int| self.start <= f < self.end())
    }

    /// Creates a new [`FrameRange`] of `count` frames starting at frame `start`.
    pub fn new(start: u64, count: u64) -> (range: Self)
        ensures
            range.start == start,
            range.count == count,
    {
        FrameRange { start, count }
    }

    /// Returns `true` if the range holds no frames.
    pub fn is_empty(&self) -> (result: bool)
        ensures
            result == (self.count == 0),
    {
        self.count == 0
    }

    /// Returns the number one past the last frame of the range.
    pub fn end_exclusive(&self) -> (end: u64)
        requires
            self.wf(),
        ensures
            end == self.end(),
    {
        self.start + self.count
    }

    /// Returns `true` if the two ranges share at least one frame.
    pub fn overlaps(&self, other: FrameRange) -> (result: bool)
        requires
            self.wf(),
            other.wf(),
        ensures
            result == (self.count > 0 && other.count > 0 && self.start < other.end()
                && other.start < self.end()),
            result == exists|f: int| self.frames().contains(f) && other.frames().contains(f),
    {
        let result = self.count > 0 && other.count > 0 && self.start < other.start + other.count
            && other.start < self.start + self.count;
        proof {
            if result {
                let f: int = if self.start < other.start { other.start as int } else { self.start as int };
                assert(self.frames().contains(f) && other.frames().contains(f));
            }
        }
        result
    }

    /// Returns the smallest range that covers both ranges if they overlap or touch.
    pub fn merge(&self, other: FrameRange) -> (merged: Option<FrameRange>)
        requires
            self.wf(),
            other.wf(),
        ensures
            merged is Some <==> (self.start <= other.end() && other.start <= self.end()),
            merged matches Some(m) ==> {
                &&& m.wf()
                &&& m.start == if self.start <= other.start { self.start } else { other.start }
                &&& m.end() == if self.end() >= other.end() { self.end() } else { other.end() }
            },
    {
        let self_end = self.start + self.count;
        let other_end = other.start + other.count;
        if self.start <= other_end && other.start <= self_end {
            let start = if self.start <= other.start { self.start } else { other.start };
            let end = if self_end >= other_end { self_end } else { other_end };
            Some(FrameRange { start, count: end - start })
        } else {
            None
        }
    }

    /// Splits this range around `other` into the part below `other`, the part shared with
    /// `other`, and the part above `other`.
    pub fn partition_with(&self, other: FrameRange) -> (parts: (FrameRange, FrameRange, FrameRange))
        requires
            self.wf(),
            other.wf(),
        ensures
            parts.0.wf() && parts.1.wf() && parts.2.wf(),
            parts.0.frames() == self.frames().filter(|f: int| f < other.start),
            parts.1.frames() == self.frames().intersect(other.frames()),
            parts.2.frames() == self.frames().filter(|f: int| f >= other.end()),
            parts.0.count > 0 ==> parts.0.start == self.start && parts.0.end() <= other.start
                && parts.0.end() <= self.end(),
            parts.2.count > 0 ==> parts.2.end() == self.end() && parts.2.start >= other.end()
                && parts.2.start >= self.start,
    {
        let self_end = self.start + self.count;
        let other_end = other.start + other.count;
        let lower = if other.start <= self.start {
            FrameRange { start: self.start, count: 0 }
        } else if other.start >= self_end {
            FrameRange { start: self.start, count: self.count }
        } else {
            FrameRange { start: self.start, count: other.start - self.start }
        };
        let mid_start = if self.start >= other.start { self.start } else { other.start };
        let mid_end = if self_end <= other_end { self_end } else { other_end };
        let middle = if mid_start < mid_end {
            FrameRange { start: mid_start, count: mid_end - mid_start }
        } else {
            FrameRange { start: mid_start, count: 0 }
        };
        let upper = if other_end >= self_end {
            FrameRange { start: self_end, count: 0 }
        } else if other_end <= self.start {
            FrameRange { start: self.start, count: self.count }
        } else {
            FrameRange { start: other_end, count: self_end - other_end }
        };
        assert(lower.frames() =~= self.frames().filter(|f: int| f < other.start));
        assert(middle.frames() =~= self.frames().intersect(other.frames()));
        assert(upper.frames() =~= self.frames().filter(|f: int| f >= other.end()));
        (lower, middle, upper)
    }
}

/// The union of the frames of a sequence of ranges.
pub open spec fn ranges_frames(ranges: Seq<FrameRange>) -> Set<int> {
    Set::new(|f: int| exists|i: int| 0 <= i < ranges.len() && (#[trigger] ranges[i]).frames().contains(f))
}

/// Every range is well formed and non-empty, ranges are sorted by their first frame, and any
/// two ranges are separated by at least one frame.
pub open spec fn ranges_normalized(ranges: Seq<FrameRange>) -> bool {
    &&& forall|i: int| 0 <= i < ranges.len() ==> (#[trigger] ranges[i]).wf() && ranges[i].count > 0
    &&& forall|i: int, j: int| 0 <= i < j < ranges.len() ==> (#[trigger] ranges[i]).end() < (#[trigger] ranges[j]).start
}

/// Every range is well formed and the ranges are sorted by their first frame.
pub open spec fn ranges_sorted(ranges: Seq<FrameRange>) -> bool {
    &&& forall|i: int| 0 <= i < ranges.len() ==> (#[trigger] ranges[i]).wf()
    &&& forall|i: int, j: int| 0 <= i < j < ranges.len() ==> (#[trigger] ranges[i]).start <= (#[trigger] ranges[j]).start
}

/// Inserting a range adds its frames to the union.
proof fn lemma_frames_insert(s: Seq<FrameRange>, pos: int, r: FrameRange)
    requires
        0 <= pos <= s.len(),
    ensures
        ranges_frames(s.insert(pos, r)) == ranges_frames(s).union(r.frames()),
{
    let t = s.insert(pos, r);
    assert forall|f: int| ranges_frames(t).contains(f) implies ranges_frames(s).union(r.frames()).contains(f) by {
        let i = choose|i: int| 0 <= i < t.len() && (#[trigger] t[i]).frames().contains(f);
        if i < pos {
            assert(s[i] == t[i]);
        } else if i > pos {
            assert(s[i - 1] == t[i]);
        }
    }
    assert forall|f: int| ranges_frames(s).union(r.frames()).contains(f) implies ranges_frames(t).contains(f) by {
        if r.frames().contains(f) {
            assert(t[pos] == r);
        } else {
            let i = choose|i: int| 0 <= i < s.len() && (#[trigger] s[i]).frames().contains(f);
            if i < pos {
                assert(t[i] == s[i]);
            } else {
                assert(t[i + 1] == s[i]);
            }
        }
    }
    assert(ranges_frames(t) =~= ranges_frames(s).union(r.frames()));
}

/// Replacing two neighbours by a range that covers exactly their frames keeps the union.
proof fn lemma_frames_merge(s: Seq<FrameRange>, index: int, m: FrameRange)
    requires
        0 <= index,
        index + 1 < s.len(),
        m.frames() == s[index].frames().union(s[index + 1].frames()),
    ensures
        ranges_frames(s.update(index, m).remove(index + 1)) == ranges_frames(s),
{
    let t = s.update(index, m).remove(index + 1);
    assert forall|f: int| ranges_frames(t).contains(f) implies ranges_frames(s).contains(f) by {
        let i = choose|i: int| 0 <= i < t.len() && (#[trigger] t[i]).frames().contains(f);
        if i < index {
            assert(s[i] == t[i]);
        } else if i == index {
            if s[index].frames().contains(f) {
            } else {
                assert(s[index + 1].frames().contains(f));
            }
        } else {
            assert(s[i + 1] == t[i]);
        }
    }
    assert forall|f: int| ranges_frames(s).contains(f) implies ranges_frames(t).contains(f) by {
        let i = choose|i: int| 0 <= i < s.len() && (#[trigger] s[i]).frames().contains(f);
        if i < index {
            assert(t[i] == s[i]);
        } else if i == index || i == index + 1 {
            assert(t[index] == m);
            assert(m.frames().contains(f));
        } else {
            assert(t[i - 1] == s[i]);
        }
    }
    assert(ranges_frames(t) =~= ranges_frames(s));
}

/// Replaces the range at `index` by `parts`.
pub open spec fn splice(s: Seq<FrameRange>, index: int, parts: Seq<FrameRange>) -> Seq<FrameRange> {
    s.subrange(0, index) + parts + s.subrange(index + 1, s.len() as int)
}

/// Replacing a range by parts that hold what is left of it after taking out `removed` takes
/// exactly `removed` out of the union, and keeps the ranges normalized when the parts lie
/// inside the replaced range, in order and apart from each other.
proof fn lemma_splice(s: Seq<FrameRange>, index: int, parts: Seq<FrameRange>, removed: Set<int>)
    requires
        0 <= index < s.len(),
        ranges_normalized(s),
        removed.subset_of(s[index].frames()),
        ranges_frames(parts) == s[index].frames().difference(removed),
        ranges_normalized(parts),
        forall|k: int| 0 <= k < parts.len() ==> s[index].start <= (#[trigger] parts[k]).start
            && parts[k].end() <= s[index].end(),
    ensures
        ranges_frames(splice(s, index, parts)) == ranges_frames(s).difference(removed),
        ranges_normalized(splice(s, index, parts)),
{
    let t = splice(s, index, parts);
    let n = parts.len() as int;
    assert forall|i: int| 0 <= i < t.len() implies #[trigger] t[i] == if i < index {
        s[i]
    } else if i < index + n {
        parts[i - index]
    } else {
        s[i - n + 1]
    } by {}
    let lhs = ranges_frames(t);
    let rhs = ranges_frames(s).difference(removed);
    assert forall|f: int| lhs.contains(f) implies rhs.contains(f) by {
        let i = choose|i: int| 0 <= i < t.len() && (#[trigger] t[i]).frames().contains(f);
        if i < index {
            assert(s[i].frames().contains(f));
            assert(!removed.contains(f)) by {
                if removed.contains(f) {
                    assert(s[i].end() < s[index].start);
                }
            }
        } else if i < index + n {
            assert(parts[i - index].frames().contains(f));
            assert(ranges_frames(parts).contains(f));
            assert(s[index].frames().contains(f));
        } else {
            let j = i - n + 1;
            assert(s[j].frames().contains(f));
            assert(!removed.contains(f)) by {
                if removed.contains(f) {
                    assert(s[index].end() < s[j].start);
                }
            }
        }
    }
    assert forall|f: int| rhs.contains(f) implies lhs.contains(f) by {
        let j = choose|j: int| 0 <= j < s.len() && (#[trigger] s[j]).frames().contains(f);
        if j < index {
            assert(t[j] == s[j]);
        } else if j == index {
            assert(ranges_frames(parts).contains(f));
            let k = choose|k: int| 0 <= k < parts.len() && (#[trigger] parts[k]).frames().contains(f);
            assert(t[index + k] == parts[k]);
        } else {
            assert(t[j + n - 1] == s[j]);
        }
    }
    assert(lhs =~= rhs);
    assert forall|i: int, j: int| 0 <= i < j < t.len() implies (#[trigger] t[i]).end() < (#[trigger] t[j]).start by {
        if j < index + n && i >= index {
        } else if i < index && j >= index + n {
            assert(s[i].end() < s[j - n + 1].start);
        } else if i < index {
            assert(s[i].end() < s[index].start);
        } else if j >= index + n && i >= index + n {
            assert(s[i - n + 1].end() < s[j - n + 1].start);
        } else {
            assert(s[index].end() < s[j - n + 1].start);
        }
    }
}

/// Vector of all of the frame regions that have been allocated by the application.
#[derive(Debug)]
pub struct FrameVec {
    /// The frame regions, kept normalized.
    regions: Vec<FrameRange>,
}

impl View for FrameVec {
    type V = Set<int>;

    /// The set of frame numbers that the [`FrameVec`] holds.
    closed spec fn view(&self) -> Set<int> {
        ranges_frames(self.regions@)
    }
}

impl FrameVec {
    /// The stored regions are normalized.
    pub closed spec fn wf(&self) -> bool {
        ranges_normalized(self.regions@)
    }

    /// The stored regions, in ascending order.
    pub closed spec fn regions(&self) -> Seq<FrameRange> {
        self.regions@
    }

    /// Returns an empty [`FrameVec`].
    pub fn new() -> (frames: Self)
        ensures
            frames.wf(),
            frames@ == Set::<int>::empty(),
            frames.regions() == Seq::<FrameRange>::empty(),
    {
        let frames = FrameVec { regions: Vec::new() };
        assert(frames@ =~= Set::<int>::empty());
        frames
    }

    /// Adds the frame region into the set of allocated frames.
    pub fn add_region(&mut self, range: FrameRange)
        requires
            old(self).wf(),
            range.wf(),
        ensures
            final(self).wf(),
            final(self)@ == old(self)@.union(range.frames()),
    {
        if range.count == 0 {
            assert(range.frames() =~= Set::<int>::empty());
            assert(self@.union(range.frames()) =~= self@);
            return;
        }
        let ghost target = self@.union(range.frames());
        let mut pos: usize = 0;
        while pos < self.regions.len() && self.regions[pos].start <= range.start
            invariant
                pos <= self.regions.len(),
                ranges_normalized(self.regions@),
                forall|k: int| 0 <= k < pos ==> (#[trigger] self.regions@[k]).start <= range.start,
            decreases self.regions.len() - pos,
        {
            pos += 1;
        }
        proof {
            lemma_frames_insert(self.regions@, pos as int, range);
        }
        self.regions.insert(pos, range);
        assert(ranges_sorted(self.regions@)) by {
            assert forall|i: int, j: int| 0 <= i < j < self.regions@.len() implies
                (#[trigger] self.regions@[i]).start <= (#[trigger] self.regions@[j]).start by {
                if j == pos {
                } else if i == pos {
                    assert(self.regions@[pos as int + 1].start <= self.regions@[j].start || j == pos + 1);
                } else {
                }
            }
        }

        let mut index: usize = 0;
        while self.regions.len() > 0 && index < self.regions.len() - 1
            invariant
                index <= self.regions.len(),
                ranges_sorted(self.regions@),
                forall|i: int| 0 <= i < self.regions@.len() ==> (#[trigger] self.regions@[i]).count > 0,
                ranges_frames(self.regions@) == target,
                forall|i: int, j: int| 0 <= i < j < self.regions@.len() && i < index ==>
                    (#[trigger] self.regions@[i]).end() < (#[trigger] self.regions@[j]).start,
            decreases self.regions.len() - index,
        {
            let lower = self.regions[index];
            let upper = self.regions[index + 1];
            match lower.merge(upper) {
                Some(merged) => {
                    proof {
                        assert(merged.frames() =~= lower.frames().union(upper.frames()));
                        lemma_frames_merge(self.regions@, index as int, merged);
                    }
                    self.regions.set(index, merged);
                    self.regions.remove(index + 1);
                },
                None => {
                    index += 1;
                },
            }
        }
        assert(self.regions@.len() <= index + 1);
    }

    /// The frames of `range` can be released: the range is empty, or one stored region holds
    /// all of its frames.
    pub open spec fn removable(&self, range: FrameRange) -> bool {
        ||| range.count == 0
        ||| exists|i: int| 0 <= i < self.regions().len() && range.frames().subset_of(
            (#[trigger] self.regions()[i]).frames(),
        )
    }

    /// Removes a region of allocated frames from the set of allocated frames.
    ///
    /// The region containing `range` is shrunk, or split in two when `range` lies strictly
    /// inside it.
    pub fn remove_region(&mut self, range: FrameRange)
        requires
            old(self).wf(),
            range.wf(),
            old(self).removable(range),
        ensures
            final(self).wf(),
            final(self)@ == old(self)@.difference(range.frames()),
            old(self).regions().len() - 1 <= final(self).regions().len() <= old(self).regions().len() + 1,
    {
        let ghost old_regions = self.regions@;
        let mut index: usize = 0;
        while index < self.regions.len()
            invariant
                self.regions@ == old_regions,
                old(self).regions@ == old_regions,
                ranges_normalized(old_regions),
                range.wf(),
                self.removable(range),
                index <= self.regions.len(),
                forall|k: int| 0 <= k < index ==> range.frames().disjoint(
                    (#[trigger] old_regions[k]).frames(),
                ),
            decreases self.regions.len() - index,
        {
            let region = self.regions[index];
            if !range.overlaps(region) {
                assert(range.frames().disjoint(region.frames()));
                index += 1;
                continue;
            }
            proof {
                // `range` overlaps this region, so the region that holds all of `range` is this one.
                let f = choose|f: int| range.frames().contains(f) && region.frames().contains(f);
                assert(self@.contains(f));
                let j = choose|j: int| 0 <= j < old_regions.len() && range.frames().subset_of(
                    (#[trigger] old_regions[j]).frames(),
                );
                if j != index {
                    assert(old_regions[j].frames().contains(f));
                    if j < index {
                        assert(old_regions[j].end() < old_regions[index as int].start);
                    } else {
                        assert(old_regions[index as int].end() < old_regions[j].start);
                    }
                }
            }
            let (lower, overlap, upper) = region.partition_with(range);
            assert(overlap.frames() =~= range.frames());
            let ghost rest = region.frames().difference(range.frames());
            assert(rest =~= lower.frames().union(upper.frames()));
            let ghost parts: Seq<FrameRange>;
            if lower.is_empty() && upper.is_empty() {
                self.regions.remove(index);
                proof {
                    parts = seq![];
                    assert(ranges_frames(parts) =~= rest);
                }
            } else if lower.is_empty() {
                self.regions.set(index, upper);
                proof {
                    parts = seq![upper];
                    assert(ranges_frames(parts) =~= rest) by {
                        assert(lower.frames() =~= Set::<int>::empty());
                        assert forall|f: int| rest.contains(f) implies ranges_frames(parts).contains(f) by {
                            assert(parts[0].frames().contains(f));
                        }
                    }
                }
            } else if upper.is_empty() {
                self.regions.set(index, lower);
                proof {
                    parts = seq![lower];
                    assert(ranges_frames(parts) =~= rest) by {
                        assert(upper.frames() =~= Set::<int>::empty());
                        assert forall|f: int| rest.contains(f) implies ranges_frames(parts).contains(f) by {
                            assert(parts[0].frames().contains(f));
                        }
                    }
                }
            } else {
                self.regions.set(index, lower);
                self.regions.insert(index + 1, upper);
                proof {
                    parts = seq![lower, upper];
                    assert(lower.end() < upper.start);
                    assert(ranges_frames(parts) =~= rest) by {
                        assert forall|f: int| rest.contains(f) implies ranges_frames(parts).contains(f) by {
                            if lower.frames().contains(f) {
                                assert(parts[0].frames().contains(f));
                            } else {
                                assert(parts[1].frames().contains(f));
                            }
                        }
                    }
                }
            }
            proof {
                assert(self.regions@ =~= splice(old_regions, index as int, parts));
                lemma_splice(old_regions, index as int, parts, range.frames());
            }
            return;
        }
        assert(range.frames().disjoint(self@));
        assert(self@.difference(range.frames()) =~= self@);
    }

    /// Returns `true` if the region is completely contained within the [`FrameVec`].
    pub fn contains_region(&self, range: FrameRange) -> (result: bool)
        requires
            self.wf(),
            range.wf(),
        ensures
            result == range.frames().subset_of(self@),
    {
        if range.count == 0 {
            assert(range.frames() =~= Set::<int>::empty());
            return true;
        }
        let query_start = range.start;
        let query_end = range.start + range.count;
        let mut covered_until = query_start;
        let mut i: usize = 0;
        while i < self.regions.len()
            invariant
                self.wf(),
                range.wf(),
                range.count > 0,
                query_start == range.start,
                query_end == range.end(),
                i <= self.regions.len(),
                query_start <= covered_until < query_end,
                forall|f: int| query_start <= f < covered_until ==> self@.contains(f),
                forall|k: int| 0 <= k < i ==> (#[trigger] self.regions@[k]).end() <= covered_until,
            decreases self.regions.len() - i,
        {
            let region = self.regions[i];
            let region_start = region.start;
            let region_end = region.start + region.count;
            if region_end <= covered_until {
                i += 1;
                continue;
            }
            if region_start > covered_until {
                proof {
                    self.lemma_not_covered(i as int, covered_until as int);
                }
                return false;
            }
            proof {
                assert forall|f: int| covered_until <= f < region_end implies self@.contains(f) by {
                    assert(self.regions@[i as int].frames().contains(f));
                }
            }
            covered_until = region_end;
            if covered_until >= query_end {
                assert(range.frames().subset_of(self@));
                return true;
            }
            i += 1;
        }
        proof {
            self.lemma_not_covered(i as int, covered_until as int);
        }
        false
    }

    /// A frame that lies past the end of the first `i` regions and before the start of region
    /// `i` is not held.
    proof fn lemma_not_covered(&self, i: int, frame: int)
        requires
            self.wf(),
            0 <= i <= self.regions@.len(),
            forall|k: int| 0 <= k < i ==> (#[trigger] self.regions@[k]).end() <= frame,
            i < self.regions@.len() ==> self.regions@[i].start > frame,
        ensures
            !self@.contains(frame),
    {
        if self@.contains(frame) {
            let k = choose|k: int| 0 <= k < self.regions@.len() && (#[trigger] self.regions@[k]).frames().contains(frame);
            if k > i {
                assert(self.regions@[i].end() < self.regions@[k].start);
            }
        }
    }

    /// Returns the stored regions in ascending order.
    pub fn descriptors(&self) -> (regions: &[FrameRange])
        requires
            self.wf(),
        ensures
            regions@ == self.regions(),
            ranges_normalized(regions@),
            ranges_frames(regions@) == self@,
    {
        self.regions.as_slice()
    }
}

} // verus!
verus! {

/// The frames of normalized ranges past the first are those of all the ranges but the first's.
proof fn lemma_frames_rest(s: Seq<FrameRange>)
    requires
        ranges_normalized(s),
        s.len() > 0,
    ensures
        ranges_normalized(s.subrange(1, s.len() as int)),
        ranges_frames(s.subrange(1, s.len() as int)) == ranges_frames(s).difference(s[0].frames()),
{
    let t = s.subrange(1, s.len() as int);
    assert forall|f: int| ranges_frames(t).contains(f) implies ranges_frames(s).difference(s[0].frames()).contains(f) by {
        let i = choose|i: int| 0 <= i < t.len() && (#[trigger] t[i]).frames().contains(f);
        assert(s[i + 1] == t[i]);
        assert(s[0].end() < s[i + 1].start);
    }
    assert forall|f: int| ranges_frames(s).difference(s[0].frames()).contains(f) implies ranges_frames(t).contains(f) by {
        let i = choose|i: int| 0 <= i < s.len() && (#[trigger] s[i]).frames().contains(f);
        assert(i != 0);
        assert(t[i - 1] == s[i]);
    }
    assert(ranges_frames(t) =~= ranges_frames(s).difference(s[0].frames()));
}

/// Normalized ranges with the same frames are the same ranges.
proof fn lemma_one_representation(s: Seq<FrameRange>, t: Seq<FrameRange>)
    requires
        ranges_normalized(s),
        ranges_normalized(t),
        ranges_frames(s) == ranges_frames(t),
    ensures
        s == t,
    decreases s.len(),
{
    if s.len() == 0 || t.len() == 0 {
        if s.len() > 0 {
            assert(s[0].frames().contains(s[0].start as int));
            assert(ranges_frames(s).contains(s[0].start as int));
        }
        if t.len() > 0 {
            assert(t[0].frames().contains(t[0].start as int));
            assert(ranges_frames(t).contains(t[0].start as int));
        }
        assert(s =~= t);
    } else {
        let a = s[0].start as int;
        let b = t[0].start as int;
        assert(s[0].frames().contains(a));
        assert(ranges_frames(s).contains(a));
        let j = choose|j: int| 0 <= j < t.len() && (#[trigger] t[j]).frames().contains(a);
        if j > 0 {
            assert(t[0].end() < t[j].start);
        }
        assert(t[0].frames().contains(b));
        assert(ranges_frames(t).contains(b));
        let i = choose|i: int| 0 <= i < s.len() && (#[trigger] s[i]).frames().contains(b);
        if i > 0 {
            assert(s[0].end() < s[i].start);
        }
        assert(a == b);
        if s[0].end() < t[0].end() {
            let e = s[0].end();
            assert(t[0].frames().contains(e));
            assert(ranges_frames(t).contains(e));
            let k = choose|k: int| 0 <= k < s.len() && (#[trigger] s[k]).frames().contains(e);
            if k > 0 {
                assert(s[0].end() < s[k].start);
            }
        }
        if t[0].end() < s[0].end() {
            let e = t[0].end();
            assert(s[0].frames().contains(e));
            assert(ranges_frames(s).contains(e));
            let k = choose|k: int| 0 <= k < t.len() && (#[trigger] t[k]).frames().contains(e);
            if k > 0 {
                assert(t[0].end() < t[k].start);
            }
        }
        assert(s[0] == t[0]);
        lemma_frames_rest(s);
        lemma_frames_rest(t);
        lemma_one_representation(s.subrange(1, s.len() as int), t.subrange(1, t.len() as int));
        assert(s =~= seq![s[0]] + s.subrange(1, s.len() as int));
        assert(t =~= seq![t[0]] + t.subrange(1, t.len() as int));
    }
}

/// A set of frames has exactly one representation: two well-formed frame vectors that hold
/// the same frames store the same regions, so [`FrameVec::descriptors`] is fixed by the frames.
pub proof fn law_one_representation(a: &FrameVec, b: &FrameVec)
    requires
        a.wf(),
        b.wf(),
        a@ == b@,
    ensures
        a.regions() == b.regions(),
{
    lemma_one_representation(a.regions(), b.regions());
}

/// Once a range has been added, the frame vector holds all of its frames, so
/// [`FrameVec::contains_region`] answers `true` for it.
pub proof fn law_add_then_contains(before: &FrameVec, after: &FrameVec, range: FrameRange)
    requires
        after@ == before@.union(range.frames()),
    ensures
        range.frames().subset_of(after@),
{
}

/// Removing a range takes out exactly its frames: none of them stays, and every other frame
/// stays as it was.
pub proof fn law_remove_takes_out_exactly(before: &FrameVec, after: &FrameVec, range: FrameRange)
    requires
        after@ == before@.difference(range.frames()),
    ensures
        range.frames().disjoint(after@),
        forall|f: int| !range.frames().contains(f) ==> (after@.contains(f) <==> before@.contains(f)),
{
}

/// Adding a range of frames that were not held and then removing it gives back the frames
/// held before.
pub proof fn law_add_then_remove_restores(
    before: &FrameVec,
    middle: &FrameVec,
    after: &FrameVec,
    range: FrameRange,
)
    requires
        range.frames().disjoint(before@),
        middle@ == before@.union(range.frames()),
        after@ == middle@.difference(range.frames()),
    ensures
        after@ == before@,
{
    assert(after@ =~= before@);
}

/// Every range whose frames are all held lies inside one stored region, so it can be removed
/// again; in particular a range can always be removed right after it was added.
pub proof fn law_held_range_is_removable(frames: &FrameVec, range: FrameRange)
    requires
        frames.wf(),
        range.wf(),
        range.frames().subset_of(frames@),
    ensures
        frames.removable(range),
{
    if range.count > 0 {
        let s = frames.regions@;
        assert(range.frames().contains(range.start as int));
        let k = choose|k: int| 0 <= k < s.len() && (#[trigger] s[k]).frames().contains(range.start as int);
        if s[k].end() < range.end() {
            let f = s[k].end();
            assert(range.frames().contains(f));
            let j = choose|j: int| 0 <= j < s.len() && (#[trigger] s[j]).frames().contains(f);
            if j < k {
                assert(s[j].end() < s[k].start);
            } else if j > k {
                assert(s[k].end() < s[j].start);
            }
        }
        assert(range.frames().subset_of(frames.regions()[k].frames()));
    } else {
        assert(range.frames().disjoint(frames@));
    }
}

} // verus!
