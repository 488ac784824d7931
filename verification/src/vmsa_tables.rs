//! The tables of one VMSAv8 region as a tree: which table a walk reaches at each height, how a
//! walk reads them, and what writing one entry changes.
use vstd::prelude::*;

use crate::aarch64::{AddressSize, Granule};
use crate::physical_memory::PhysicalMemory64;
use crate::vmsa::{
    base_bit, descriptor_address, index_bits, index_mask, input_bits, lemma_geometry, lemma_index_bits, lemma_levels,
    lemma_same_page_bits, lemma_union_bits, level_count, page_bits, table_index, table_or_page, valid_descriptor, vmsa_walk,
};

verus! {

/// The shape of the tables of a region: the granule, the output address width and the size
/// offset of the region.
pub struct Geometry {
    /// The granule.
    pub granule: Granule,
    /// The output address width.
    pub size: AddressSize,
    /// The size offset of the region.
    pub txsz: u8,
}

impl Geometry {
    /// The region has at least one level and a size offset in the architectural range.
    pub open spec fn wf(self) -> bool {
        16 <= self.txsz <= 48 && input_bits(self.granule, self.txsz) >= 1
    }

    /// The number of levels.
    pub open spec fn levels(self) -> nat {
        level_count(self.granule, self.txsz) as nat
    }

    /// The size, in bytes, of a table and of a page.
    pub open spec fn table_bytes(self) -> int {
        match self.granule {
            Granule::Page4KiB => 4096,
            Granule::Page16KiB => 16384,
            Granule::Page64KiB => 65536,
        }
    }

    /// The index of `va` into the table at height `h`, the root being at height `levels`.
    pub open spec fn index(self, va: u64, h: nat) -> int {
        table_index(self.granule, self.txsz, va, (self.levels() - h) as u64) as int
    }

    /// `a` and `b` select the same entry in every table above height `h`.
    pub open spec fn same_path(self, a: u64, b: u64, h: nat) -> bool {
        forall|l: nat| h < l <= self.levels() ==> #[trigger] self.index(a, l) == self.index(b, l)
    }

    /// The table at height `h` that the walk for `va` reaches from the root `root`, or `None`
    /// where a descriptor above it is not a valid table descriptor.
    pub open spec fn frame(self, m: PhysicalMemory64, root: int, va: u64, h: nat) -> Option<int>
        decreases self.levels() - h,
    {
        if h >= self.levels() {
            if h == self.levels() {
                Some(root)
            } else {
                None
            }
        } else {
            match self.frame(m, root, va, h + 1) {
                None => None,
                Some(t) => {
                    let e = m.word(t / 8 + self.index(va, h + 1));
                    if valid_descriptor(e) && table_or_page(e) {
                        Some(descriptor_address(self.granule, self.size, e) as int)
                    } else {
                        None
                    }
                },
            }
        }
    }

    /// The descriptor at height `h` that the walk for `va` reads, if it reaches that height.
    pub open spec fn entry(self, m: PhysicalMemory64, root: int, va: u64, h: nat) -> Option<u64> {
        match self.frame(m, root, va, h) {
            None => None,
            Some(t) => Some(m.word(t / 8 + self.index(va, h))),
        }
    }

    /// The tables that walks from `root` reach are aligned tables below `next`, and a table is
    /// reached at one height for one path only.
    pub open spec fn tree_wf(self, m: PhysicalMemory64, root: int, next: int) -> bool {
        &&& forall|va: u64, h: nat| 1 <= h <= self.levels() && #[trigger] self.frame(m, root, va, h) is Some ==> {
            let f = self.frame(m, root, va, h)->0;
            &&& f % self.table_bytes() == 0
            &&& 0 <= f
            &&& f + self.table_bytes() <= next
        }
        &&& forall|va1: u64, va2: u64, h1: nat, h2: nat|
            1 <= h1 <= self.levels() && 1 <= h2 <= self.levels() && #[trigger] self.frame(m, root, va1, h1) is Some
                && #[trigger] self.frame(m, root, va2, h2) == self.frame(m, root, va1, h1) ==> h1 == h2 && self.same_path(
                va1,
                va2,
                h1,
            )
    }
}

/// Distinct words of aligned tables: word `i` of table `f1` is word `j` of table `f2` only for
/// the same table and index.
pub proof fn lemma_table_words(bytes: int, f1: int, i: int, f2: int, j: int)
    requires
        bytes == 4096 || bytes == 16384 || bytes == 65536,
        f1 % bytes == 0,
        f2 % bytes == 0,
        0 <= i < bytes / 8,
        0 <= j < bytes / 8,
        f1 / 8 + i == f2 / 8 + j,
    ensures
        f1 == f2,
        i == j,
{
    let n = bytes / 8;
    if bytes == 4096 {
        assert(f1 / 8 == 512 * (f1 / 4096));
        assert(f2 / 8 == 512 * (f2 / 4096));
    } else if bytes == 16384 {
        assert(f1 / 8 == 2048 * (f1 / 16384));
        assert(f2 / 8 == 2048 * (f2 / 16384));
    } else {
        assert(f1 / 8 == 8192 * (f1 / 65536));
        assert(f2 / 8 == 8192 * (f2 / 65536));
    }
    assert(f1 / bytes == f2 / bytes && i == j) by (nonlinear_arith)
        requires
            n * (f1 / bytes) + i == n * (f2 / bytes) + j,
            0 <= i < n,
            0 <= j < n,
    ;
}

/// An index into a table lies within it.
pub proof fn lemma_index_bound(geo: Geometry, va: u64, h: nat)
    requires
        geo.wf(),
        1 <= h <= geo.levels(),
    ensures
        0 <= geo.index(va, h) < geo.table_bytes() / 8,
{
    lemma_levels(geo.granule, geo.txsz);
    crate::vmsa::lemma_index_fits(geo.granule, geo.txsz, va, (geo.levels() - h) as u64);
}

/// The table that a walk reaches at a height depends only on the indices above it.
pub proof fn lemma_frame_path(geo: Geometry, m: PhysicalMemory64, root: int, a: u64, b: u64, h: nat)
    requires
        geo.same_path(a, b, h),
    ensures
        geo.frame(m, root, a, h) == geo.frame(m, root, b, h),
    decreases geo.levels() - h,
{
    if h < geo.levels() {
        assert(geo.same_path(a, b, h + 1));
        lemma_frame_path(geo, m, root, a, b, h + 1);
        assert(geo.index(a, h + 1) == geo.index(b, h + 1));
    }
}

/// Below a height that the walk does not reach, no height is reached.
pub proof fn lemma_unreached_below(geo: Geometry, m: PhysicalMemory64, root: int, va: u64, h: nat, hv: nat)
    requires
        h <= hv <= geo.levels(),
        geo.frame(m, root, va, hv) is None,
    ensures
        geo.frame(m, root, va, h) is None,
    decreases hv - h,
{
    if h < hv {
        lemma_unreached_below(geo, m, root, va, (h + 1) as nat, hv);
    }
}


impl Geometry {
    /// The mask of the offset of `va` within the region that a descriptor at height `h` maps:
    /// a page at height 1, a block above.
    pub open spec fn offset_mask(self, h: nat) -> u64 {
        if h == 1 {
            ((1u64 << page_bits(self.granule)) - 1) as u64
        } else {
            ((1u64 << (base_bit(self.granule, self.txsz, (self.levels() - h) as u64) + page_bits(self.granule)) as u64) - 1) as u64
        }
    }

    /// What the walk for `va` gives from height `h` down: the output address of the page or
    /// block that maps it, or `None`.
    pub open spec fn walk_from(self, m: PhysicalMemory64, root: int, va: u64, h: nat) -> Option<u64>
        decreases h,
    {
        if h == 0 || h > self.levels() {
            None
        } else {
            match self.frame(m, root, va, h) {
                None => None,
                Some(t) => {
                    let e = m.word(t / 8 + self.index(va, h));
                    let address = descriptor_address(self.granule, self.size, e);
                    if !valid_descriptor(e) {
                        None
                    } else if h == 1 {
                        if table_or_page(e) {
                            Some(address | (va & self.offset_mask(1)))
                        } else {
                            None
                        }
                    } else if table_or_page(e) {
                        self.walk_from(m, root, va, (h - 1) as nat)
                    } else {
                        Some(address | (va & self.offset_mask(h)))
                    }
                },
            }
        }
    }

    /// What the walk for `va` from the root `root` gives.
    pub open spec fn walk(self, m: PhysicalMemory64, root: int, va: u64) -> Option<u64> {
        self.walk_from(m, root, va, self.levels())
    }
}

/// The hardware walk from a table that the walk reaches is the walk from its height.
pub proof fn lemma_walk_from(geo: Geometry, m: PhysicalMemory64, root: int, va: u64, h: nat)
    requires
        geo.wf(),
        1 <= h <= geo.levels(),
        geo.frame(m, root, va, h) is Some,
    ensures
        vmsa_walk(m, geo.granule, geo.size, geo.txsz, geo.frame(m, root, va, h)->0, va, (geo.levels() - h) as u64)
            == geo.walk_from(m, root, va, h),
    decreases h,
{
    let t = geo.frame(m, root, va, h)->0;
    let l = (geo.levels() - h) as u64;
    assert((t + 8 * table_index(geo.granule, geo.txsz, va, l)) / 8 == t / 8 + geo.index(va, h));
    if h > 1 {
        let e = m.word(t / 8 + geo.index(va, h));
        if valid_descriptor(e) && table_or_page(e) {
            assert(geo.frame(m, root, va, (h - 1) as nat) == Some(descriptor_address(geo.granule, geo.size, e) as int)) by {
                assert(((h - 1) as nat) + 1 == h);
            }
            lemma_walk_from(geo, m, root, va, (h - 1) as nat);
            assert((geo.levels() - (h - 1)) as u64 == l + 1);
        }
    }
}

/// A walk that reaches height 1 gives what the descriptor there maps.
pub proof fn lemma_walk_to_leaf(geo: Geometry, m: PhysicalMemory64, root: int, va: u64, h: nat)
    requires
        1 <= h <= geo.levels(),
        geo.frame(m, root, va, 1) is Some,
    ensures
        geo.walk_from(m, root, va, h) == geo.walk_from(m, root, va, 1),
    decreases h,
{
    if h > 1 {
        lemma_unreached_contra(geo, m, root, va, (h - 1) as nat);
        lemma_walk_to_leaf(geo, m, root, va, (h - 1) as nat);
        assert(((h - 1) as nat) + 1 == h);
    }
}

/// A walk that reaches a height reaches every height above it.
proof fn lemma_unreached_contra(geo: Geometry, m: PhysicalMemory64, root: int, va: u64, h: nat)
    requires
        1 <= h <= geo.levels(),
        geo.frame(m, root, va, 1) is Some,
    ensures
        geo.frame(m, root, va, h) is Some,
{
    if geo.frame(m, root, va, h) is None {
        lemma_unreached_below(geo, m, root, va, 1, h);
    }
}

/// A walk that reaches an invalid descriptor at height `h` gives nothing.
pub proof fn lemma_walk_invalid(geo: Geometry, m: PhysicalMemory64, root: int, va: u64, h: nat, hv: nat)
    requires
        1 <= hv <= h <= geo.levels(),
        geo.frame(m, root, va, hv) is Some,
        !valid_descriptor(m.word(geo.frame(m, root, va, hv)->0 / 8 + geo.index(va, hv))),
    ensures
        geo.walk_from(m, root, va, h) is None,
    decreases h,
{
    if h > hv {
        if geo.frame(m, root, va, h) is None {
        } else {
            assert(geo.frame(m, root, va, (h - 1) as nat) is Some) by {
                if geo.frame(m, root, va, (h - 1) as nat) is None {
                    lemma_unreached_below(geo, m, root, va, hv, (h - 1) as nat);
                }
            }
            assert(((h - 1) as nat) + 1 == h);
            lemma_walk_invalid(geo, m, root, va, (h - 1) as nat, hv);
        }
    }
}

/// A walk that reaches a valid block descriptor at height `h` above the last gives its block.
pub proof fn lemma_walk_block(geo: Geometry, m: PhysicalMemory64, root: int, va: u64, h: nat, hv: nat)
    requires
        2 <= hv <= h <= geo.levels(),
        geo.frame(m, root, va, hv) is Some,
        valid_descriptor(m.word(geo.frame(m, root, va, hv)->0 / 8 + geo.index(va, hv))),
        !table_or_page(m.word(geo.frame(m, root, va, hv)->0 / 8 + geo.index(va, hv))),
    ensures
        geo.walk_from(m, root, va, h) is Some,
    decreases h,
{
    if h > hv {
        assert(geo.frame(m, root, va, h) is Some) by {
            if geo.frame(m, root, va, h) is None {
                lemma_unreached_below(geo, m, root, va, hv, h);
            }
        }
        assert(geo.frame(m, root, va, (h - 1) as nat) is Some) by {
            if geo.frame(m, root, va, (h - 1) as nat) is None {
                lemma_unreached_below(geo, m, root, va, hv, (h - 1) as nat);
            }
        }
        assert(((h - 1) as nat) + 1 == h);
        lemma_walk_block(geo, m, root, va, (h - 1) as nat, hv);
    }
}

/// Memory that keeps every descriptor that the walk for `va` reads keeps the tables that it
/// reaches.
pub proof fn lemma_untouched_frame(geo: Geometry, m1: PhysicalMemory64, m2: PhysicalMemory64, root: int, va: u64, h: nat)
    requires
        geo.wf(),
        1 <= h <= geo.levels(),
        forall|hh: nat| 1 <= hh <= geo.levels() && #[trigger] geo.frame(m1, root, va, hh) is Some ==> m2.word(
            geo.frame(m1, root, va, hh)->0 / 8 + geo.index(va, hh),
        ) == m1.word(geo.frame(m1, root, va, hh)->0 / 8 + geo.index(va, hh)),
    ensures
        geo.frame(m2, root, va, h) == geo.frame(m1, root, va, h),
    decreases geo.levels() - h,
{
    if h < geo.levels() {
        lemma_untouched_frame(geo, m1, m2, root, va, h + 1);
        if let Some(t) = geo.frame(m1, root, va, h + 1) {
            assert(m2.word(t / 8 + geo.index(va, h + 1)) == m1.word(t / 8 + geo.index(va, h + 1)));
        }
    }
}

/// Memory that keeps every descriptor that the walk for `va` reads keeps the walk.
pub proof fn lemma_untouched(geo: Geometry, m1: PhysicalMemory64, m2: PhysicalMemory64, root: int, va: u64, h: nat)
    requires
        geo.wf(),
        h <= geo.levels(),
        forall|hh: nat| 1 <= hh <= geo.levels() && #[trigger] geo.frame(m1, root, va, hh) is Some ==> m2.word(
            geo.frame(m1, root, va, hh)->0 / 8 + geo.index(va, hh),
        ) == m1.word(geo.frame(m1, root, va, hh)->0 / 8 + geo.index(va, hh)),
    ensures
        geo.walk_from(m2, root, va, h) == geo.walk_from(m1, root, va, h),
    decreases h,
{
    if h >= 1 {
        lemma_untouched_frame(geo, m1, m2, root, va, h);
        if let Some(t) = geo.frame(m1, root, va, h) {
            assert(m2.word(t / 8 + geo.index(va, h)) == m1.word(t / 8 + geo.index(va, h)));
            lemma_untouched(geo, m1, m2, root, va, (h - 1) as nat);
        }
    }
}


/// Writing one descriptor of a table that the walk for `target` reaches at height `hl` changes
/// no table that a walk reaches except below that descriptor.
pub proof fn lemma_write_reached(
    geo: Geometry,
    m1: PhysicalMemory64,
    m2: PhysicalMemory64,
    root: int,
    next: int,
    target: u64,
    hl: nat,
    j: int,
    va: u64,
    h: nat,
)
    requires
        geo.wf(),
        geo.tree_wf(m1, root, next),
        1 <= hl <= geo.levels(),
        geo.frame(m1, root, target, hl) is Some,
        0 <= j < geo.table_bytes() / 8,
        forall|k: int| k != geo.frame(m1, root, target, hl)->0 / 8 + j ==> #[trigger] m2.word(k) == m1.word(k),
        1 <= h <= geo.levels(),
        !(h < hl && geo.same_path(va, target, hl) && geo.index(va, hl) == j),
    ensures
        geo.frame(m2, root, va, h) == geo.frame(m1, root, va, h),
    decreases geo.levels() - h,
{
    if h < geo.levels() {
        lemma_write_reached(geo, m1, m2, root, next, target, hl, j, va, h + 1);
        if let Some(f) = geo.frame(m1, root, va, h + 1) {
            let g = geo.frame(m1, root, target, hl)->0;
            let k = f / 8 + geo.index(va, h + 1);
            lemma_index_bound(geo, va, h + 1);
            if k == g / 8 + j {
                lemma_table_words(geo.table_bytes(), f, geo.index(va, h + 1), g, j);
                assert(geo.frame(m1, root, va, h + 1) == geo.frame(m1, root, target, hl));
                assert(h + 1 == hl && geo.same_path(target, va, hl));
                assert(geo.same_path(va, target, hl));
                assert(false);
            }
            assert(m2.word(k) == m1.word(k));
        }
    }
}

/// Writing one descriptor keeps the walk of every address whose walk does not read it.
pub proof fn lemma_write_elsewhere(
    geo: Geometry,
    m1: PhysicalMemory64,
    m2: PhysicalMemory64,
    root: int,
    next: int,
    target: u64,
    hl: nat,
    j: int,
    va: u64,
)
    requires
        geo.wf(),
        geo.tree_wf(m1, root, next),
        1 <= hl <= geo.levels(),
        geo.frame(m1, root, target, hl) is Some,
        0 <= j < geo.table_bytes() / 8,
        forall|k: int| k != geo.frame(m1, root, target, hl)->0 / 8 + j ==> #[trigger] m2.word(k) == m1.word(k),
        !(geo.same_path(va, target, hl) && geo.index(va, hl) == j),
    ensures
        geo.walk(m2, root, va) == geo.walk(m1, root, va),
        forall|h: nat| 1 <= h <= geo.levels() ==> #[trigger] geo.frame(m2, root, va, h) == geo.frame(m1, root, va, h),
{
    let g = geo.frame(m1, root, target, hl)->0;
    assert forall|hh: nat| 1 <= hh <= geo.levels() && #[trigger] geo.frame(m1, root, va, hh) is Some implies m2.word(
        geo.frame(m1, root, va, hh)->0 / 8 + geo.index(va, hh),
    ) == m1.word(geo.frame(m1, root, va, hh)->0 / 8 + geo.index(va, hh)) by {
        let f = geo.frame(m1, root, va, hh)->0;
        lemma_index_bound(geo, va, hh);
        if f / 8 + geo.index(va, hh) == g / 8 + j {
            lemma_table_words(geo.table_bytes(), f, geo.index(va, hh), g, j);
            assert(geo.frame(m1, root, va, hh) == geo.frame(m1, root, target, hl));
            assert(hh == hl && geo.same_path(target, va, hl));
            assert(geo.same_path(va, target, hl));
        }
    }
    lemma_untouched(geo, m1, m2, root, va, geo.levels());
    assert forall|h: nat| 1 <= h <= geo.levels() implies #[trigger] geo.frame(m2, root, va, h) == geo.frame(m1, root, va, h) by {
        lemma_untouched_frame(geo, m1, m2, root, va, h);
    }
}


impl Geometry {
    /// What the walk for `va` gives once it reads the descriptor `v` at height 1.
    pub open spec fn leaf_result(self, v: u64, va: u64) -> Option<u64> {
        if valid_descriptor(v) && table_or_page(v) {
            Some(descriptor_address(self.granule, self.size, v) | (va & self.offset_mask(1)))
        } else {
            None
        }
    }
}

/// Tables with the same reached tables are laid out alike.
pub proof fn lemma_tree_wf_transfer(geo: Geometry, m1: PhysicalMemory64, m2: PhysicalMemory64, root: int, next: int)
    requires
        geo.tree_wf(m1, root, next),
        forall|va: u64, h: nat| 1 <= h <= geo.levels() ==> #[trigger] geo.frame(m2, root, va, h) == geo.frame(m1, root, va, h),
    ensures
        geo.tree_wf(m2, root, next),
{
    assert forall|va1: u64, va2: u64, h1: nat, h2: nat|
        1 <= h1 <= geo.levels() && 1 <= h2 <= geo.levels() && #[trigger] geo.frame(m2, root, va1, h1) is Some
            && #[trigger] geo.frame(m2, root, va2, h2) == geo.frame(m2, root, va1, h1) implies h1 == h2 && geo.same_path(
        va1,
        va2,
        h1,
    ) by {
        assert(geo.frame(m2, root, va1, h1) == geo.frame(m1, root, va1, h1));
        assert(geo.frame(m2, root, va2, h2) == geo.frame(m1, root, va2, h2));
    }
    assert forall|va: u64, h: nat| 1 <= h <= geo.levels() && #[trigger] geo.frame(m2, root, va, h) is Some implies {
        let f = geo.frame(m2, root, va, h)->0;
        &&& f % geo.table_bytes() == 0
        &&& 0 <= f
        &&& f + geo.table_bytes() <= next
    } by {
        assert(geo.frame(m2, root, va, h) == geo.frame(m1, root, va, h));
    }
}

/// Writing `v` to the descriptor at height 1 of the walk for `target` keeps every table, and
/// changes the walks of exactly the addresses whose path is that of `target`, to what `v`
/// maps.
pub proof fn lemma_write_leaf(geo: Geometry, m1: PhysicalMemory64, m2: PhysicalMemory64, root: int, next: int, target: u64, v: u64)
    requires
        geo.wf(),
        geo.tree_wf(m1, root, next),
        geo.frame(m1, root, target, 1) is Some,
        forall|k: int| k != geo.frame(m1, root, target, 1)->0 / 8 + geo.index(target, 1) ==> #[trigger] m2.word(k) == m1.word(k),
        m2.word(geo.frame(m1, root, target, 1)->0 / 8 + geo.index(target, 1)) == v,
    ensures
        geo.tree_wf(m2, root, next),
        forall|va: u64, h: nat| 1 <= h <= geo.levels() ==> #[trigger] geo.frame(m2, root, va, h) == geo.frame(m1, root, va, h),
        forall|va: u64| #[trigger] geo.walk(m2, root, va) == if geo.same_path(va, target, 0) {
            geo.leaf_result(v, va)
        } else {
            geo.walk(m1, root, va)
        },
{
    let j = geo.index(target, 1);
    lemma_levels(geo.granule, geo.txsz);
    lemma_index_bound(geo, target, 1);
    assert forall|va: u64, h: nat| 1 <= h <= geo.levels() implies #[trigger] geo.frame(m2, root, va, h) == geo.frame(m1, root, va, h) by {
        lemma_write_reached(geo, m1, m2, root, next, target, 1, j, va, h);
    }
    lemma_tree_wf_transfer(geo, m1, m2, root, next);
    assert forall|va: u64| #[trigger] geo.walk(m2, root, va) == if geo.same_path(va, target, 0) {
        geo.leaf_result(v, va)
    } else {
        geo.walk(m1, root, va)
    } by {
        if geo.same_path(va, target, 0) {
            assert(geo.same_path(va, target, 1));
            assert(geo.index(va, 1) == geo.index(target, 1));
            lemma_frame_path(geo, m1, root, va, target, 1);
            assert(geo.frame(m2, root, va, 1) == geo.frame(m1, root, va, 1));
            lemma_walk_to_leaf(geo, m2, root, va, geo.levels());
        } else {
            if geo.same_path(va, target, 1) && geo.index(va, 1) == j {
                assert forall|l: nat| 0 < l <= geo.levels() implies #[trigger] geo.index(va, l) == geo.index(target, l) by {
                    if l > 1 {
                        assert(geo.index(va, l) == geo.index(target, l));
                    }
                }
            }
            lemma_write_elsewhere(geo, m1, m2, root, next, target, 1, j, va);
        }
    }
}


/// Pointing the invalid descriptor at height `hl` of the walk for `target` to a zeroed table `z`
/// changes no walk: the walks through that descriptor now reach `z` and stop there.
pub proof fn lemma_link_table(
    geo: Geometry,
    m1: PhysicalMemory64,
    m2: PhysicalMemory64,
    root: int,
    next1: int,
    next2: int,
    target: u64,
    hl: nat,
    z: int,
    v: u64,
)
    requires
        geo.wf(),
        geo.tree_wf(m1, root, next1),
        2 <= hl <= geo.levels(),
        geo.frame(m1, root, target, hl) is Some,
        !valid_descriptor(m1.word(geo.frame(m1, root, target, hl)->0 / 8 + geo.index(target, hl))),
        z % geo.table_bytes() == 0,
        next1 <= z,
        z + geo.table_bytes() <= next2,
        forall|i: int| 0 <= i < geo.table_bytes() / 8 ==> #[trigger] m1.word(z / 8 + i) == 0,
        valid_descriptor(v),
        table_or_page(v),
        descriptor_address(geo.granule, geo.size, v) == z,
        forall|k: int| k != geo.frame(m1, root, target, hl)->0 / 8 + geo.index(target, hl) ==> #[trigger] m2.word(k)
            == m1.word(k),
        m2.word(geo.frame(m1, root, target, hl)->0 / 8 + geo.index(target, hl)) == v,
    ensures
        geo.tree_wf(m2, root, next2),
        forall|va: u64| #[trigger] geo.walk(m2, root, va) == geo.walk(m1, root, va),
        geo.frame(m2, root, target, (hl - 1) as nat) == Some(z),
        forall|va: u64, h: nat| hl <= h <= geo.levels() ==> #[trigger] geo.frame(m2, root, va, h) == geo.frame(m1, root, va, h),
        forall|va: u64, h: nat| 1 <= h <= geo.levels() && #[trigger] geo.frame(m2, root, va, h) is Some ==> geo.frame(m2, root, va, h)
            == geo.frame(m1, root, va, h) || geo.frame(m2, root, va, h) == Some(z),
{
    let g = geo.frame(m1, root, target, hl)->0;
    let j = geo.index(target, hl);
    lemma_index_bound(geo, target, hl);
    let hz = (hl - 1) as nat;
    let through = |va: u64| geo.same_path(va, target, hl) && geo.index(va, hl) == j;
    assert(0 <= g && g + geo.table_bytes() <= next1);
    assert(z / 8 >= g / 8 + geo.table_bytes() / 8);
    crate::pae::lemma_entry_values(0, 0, false, false);
    assert(!valid_descriptor(0));
    // The walks through the linked descriptor reach `z` and stop below it.
    assert forall|va: u64| #[trigger] through(va) implies geo.frame(m2, root, va, hz) == Some(z) by {
        lemma_write_reached(geo, m1, m2, root, next1, target, hl, j, va, hl);
        lemma_frame_path(geo, m1, root, va, target, hl);
        assert(hz + 1 == hl);
    }
    assert forall|va: u64, h: nat| 1 <= h < hz && #[trigger] through(va) implies #[trigger] geo.frame(m2, root, va, h) is None by {
        assert(geo.frame(m2, root, va, hz) == Some(z));
        lemma_index_bound(geo, va, hz);
        assert(m2.word(z / 8 + geo.index(va, hz)) == m1.word(z / 8 + geo.index(va, hz)));
        assert(((hz - 1) as nat) + 1 == hz);
        assert(geo.frame(m2, root, va, (hz - 1) as nat) is None);
        lemma_unreached_below(geo, m2, root, va, h, (hz - 1) as nat);
    }
    // Every other table is unchanged.
    assert forall|va: u64, h: nat| 1 <= h <= geo.levels() && !(h < hl && through(va)) implies #[trigger] geo.frame(m2, root, va, h)
        == geo.frame(m1, root, va, h) by {
        lemma_write_reached(geo, m1, m2, root, next1, target, hl, j, va, h);
    }
    assert(through(target));
    assert forall|va: u64, h: nat| hl <= h <= geo.levels() implies #[trigger] geo.frame(m2, root, va, h) == geo.frame(m1, root, va, h) by {
        lemma_write_reached(geo, m1, m2, root, next1, target, hl, j, va, h);
    }
    // The tables stay aligned tables below the bound, each for one height and path.
    assert forall|va: u64, h: nat| 1 <= h <= geo.levels() && #[trigger] geo.frame(m2, root, va, h) is Some implies {
        let f = geo.frame(m2, root, va, h)->0;
        &&& f % geo.table_bytes() == 0
        &&& 0 <= f
        &&& f + geo.table_bytes() <= next2
    } by {
        if h < hl && through(va) {
            if h < hz {
                assert(geo.frame(m2, root, va, h) is None);
            }
        } else {
            assert(geo.frame(m1, root, va, h) is Some);
        }
    }
    assert forall|va1: u64, va2: u64, h1: nat, h2: nat|
        1 <= h1 <= geo.levels() && 1 <= h2 <= geo.levels() && #[trigger] geo.frame(m2, root, va1, h1) is Some
            && #[trigger] geo.frame(m2, root, va2, h2) == geo.frame(m2, root, va1, h1) implies h1 == h2 && geo.same_path(
        va1,
        va2,
        h1,
    ) by {
        let a1 = h1 < hl && through(va1);
        let a2 = h2 < hl && through(va2);
        if a1 {
            if h1 < hz {
                assert(geo.frame(m2, root, va1, h1) is None);
            }
        }
        if a2 {
            if h2 < hz {
                assert(geo.frame(m2, root, va2, h2) is None);
            }
        }
        if a1 && a2 {
            assert forall|l: nat| h1 < l <= geo.levels() implies #[trigger] geo.index(va1, l) == geo.index(va2, l) by {
                if l > hl {
                    assert(geo.index(va1, l) == geo.index(target, l));
                    assert(geo.index(va2, l) == geo.index(target, l));
                }
            }
        } else if a1 && !a2 {
            assert(geo.frame(m1, root, va2, h2) is Some);
        } else if !a1 && a2 {
            assert(geo.frame(m1, root, va1, h1) is Some);
        } else {
            assert(geo.frame(m1, root, va1, h1) == geo.frame(m1, root, va2, h2));
        }
    }
    assert forall|va: u64, h: nat| 1 <= h <= geo.levels() && #[trigger] geo.frame(m2, root, va, h) is Some implies geo.frame(m2, root, va, h)
        == geo.frame(m1, root, va, h) || geo.frame(m2, root, va, h) == Some(z) by {
        if h < hl && through(va) {
            if h < hz {
                assert(geo.frame(m2, root, va, h) is None);
            }
        }
    }
    // No walk changes.
    assert forall|va: u64| #[trigger] geo.walk(m2, root, va) == geo.walk(m1, root, va) by {
        if through(va) {
            lemma_frame_path(geo, m1, root, va, target, hl);
            lemma_walk_invalid(geo, m1, root, va, geo.levels(), hl);
            assert(geo.frame(m2, root, va, hz) == Some(z));
            lemma_index_bound(geo, va, hz);
            assert(m2.word(z / 8 + geo.index(va, hz)) == m1.word(z / 8 + geo.index(va, hz)));
            lemma_walk_invalid(geo, m2, root, va, geo.levels(), hz);
        } else {
            lemma_write_elsewhere(geo, m1, m2, root, next1, target, hl, j, va);
        }
    }
}


/// The bits of `va` and `vb` above the page offset agree under the masks of the indices of the
/// levels from `l` down to the last, when their indices at those levels agree.
proof fn lemma_path_bits(geo: Geometry, va: u64, vb: u64, l: u64)
    requires
        geo.wf(),
        l < geo.levels(),
        forall|k: u64| k <= l ==> table_index(geo.granule, geo.txsz, va, k) == #[trigger] table_index(geo.granule, geo.txsz, vb, k),
    ensures
        (va & index_mask(page_bits(geo.granule), base_bit(geo.granule, geo.txsz, l), input_bits(geo.granule, geo.txsz)))
            == (vb & index_mask(page_bits(geo.granule), base_bit(geo.granule, geo.txsz, l), input_bits(geo.granule, geo.txsz))),
    decreases l,
{
    let g = geo.granule;
    let t = geo.txsz;
    let pb = page_bits(g);
    let it = input_bits(g, t);
    lemma_geometry(g, t, va, l, 0);
    let base = base_bit(g, t, l);
    let top = if base + index_bits(g) < it { (base + index_bits(g)) as u64 } else { it };
    assert(table_index(g, t, va, l) == table_index(g, t, vb, l));
    lemma_index_bits(va, vb, pb, base, top);
    if l > 0 {
        lemma_path_bits(geo, va, vb, (l - 1) as u64);
        lemma_geometry(g, t, va, (l - 1) as u64, 0);
        assert(base_bit(g, t, (l - 1) as u64) == base + index_bits(g));
        lemma_union_bits(va, vb, pb, base_bit(g, t, (l - 1) as u64), it, base);
    }
}

/// Two addresses with the same path and the same bits above their region lie in the same page.
pub proof fn lemma_path_page(geo: Geometry, va: u64, vb: u64)
    requires
        geo.wf(),
        geo.same_path(va, vb, 0),
        va >> (page_bits(geo.granule) + input_bits(geo.granule, geo.txsz)) as u64 == vb >> (page_bits(geo.granule)
            + input_bits(geo.granule, geo.txsz)) as u64,
    ensures
        va >> page_bits(geo.granule) == vb >> page_bits(geo.granule),
{
    let g = geo.granule;
    let t = geo.txsz;
    lemma_levels(g, t);
    let last = (geo.levels() - 1) as u64;
    assert forall|k: u64| k <= last implies table_index(g, t, va, k) == #[trigger] table_index(g, t, vb, k) by {
        let h = (geo.levels() - k) as nat;
        assert(geo.index(va, h) == geo.index(vb, h));
        assert((geo.levels() - h) as u64 == k);
    }
    lemma_path_bits(geo, va, vb, last);
    lemma_geometry(g, t, va, last, 0);
    crate::vmsa::lemma_region_page_bits(va, vb, page_bits(g), input_bits(g, t));
}

/// Two addresses of the same page have the same path.
pub proof fn lemma_page_path(geo: Geometry, va: u64, vb: u64)
    requires
        geo.wf(),
        va >> page_bits(geo.granule) == vb >> page_bits(geo.granule),
    ensures
        geo.same_path(va, vb, 0),
{
    let g = geo.granule;
    let t = geo.txsz;
    assert forall|h: nat| 0 < h <= geo.levels() implies #[trigger] geo.index(va, h) == geo.index(vb, h) by {
        let l = (geo.levels() - h) as u64;
        lemma_geometry(g, t, va, l, 0);
        let base = base_bit(g, t, l);
        let top = if base + index_bits(g) < input_bits(g, t) { (base + index_bits(g)) as u64 } else { input_bits(g, t) };
        lemma_same_page_bits(va, vb, page_bits(g), base, top);
    }
}

} // verus!
