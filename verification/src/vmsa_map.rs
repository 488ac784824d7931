//! Mapping and unmapping pages in the VMSAv8 tables of a configuration.
use vstd::prelude::*;

use crate::aarch64::{Granule, VmsaV8TranslationScheme};
use crate::paging::{MapError, MappingType, Permissions};
use crate::physical_memory::{FrameAllocator, PhysicalMemory64};
use crate::vmsa::{
    address_limit, base_bit, granule_bytes, granule_page_bits, index_bits, index_of, input_bits, lemma_descriptors,
    lemma_geometry, lemma_levels, level_count, make_page_descriptor, make_table_descriptor, output_width, page_descriptor,
    read_descriptor_address, table_descriptor, table_index,
};
use crate::vmsa_tables::{lemma_table_words, lemma_untouched, lemma_unreached_below, lemma_walk_from, lemma_index_bound, Geometry};

verus! {

/// No table that a walk of the tree at `ra` reaches is one that a walk of the tree at `rb`
/// reaches.
pub open spec fn apart(ga: Geometry, ra: int, gb: Geometry, rb: int, m: PhysicalMemory64) -> bool {
    forall|va1: u64, va2: u64, h1: nat, h2: nat|
        1 <= h1 <= ga.levels() && 1 <= h2 <= gb.levels() && #[trigger] ga.frame(m, ra, va1, h1) is Some
            && #[trigger] gb.frame(m, rb, va2, h2) is Some ==> ga.frame(m, ra, va1, h1)->0 != gb.frame(m, rb, va2, h2)->0
}

/// Changing only words that no walk of a tree reads keeps its tables and walks.
pub proof fn lemma_tree_untouched(geo: Geometry, m1: PhysicalMemory64, m2: PhysicalMemory64, root: int, next: int, changed: spec_fn(int) -> bool)
    requires
        geo.wf(),
        geo.tree_wf(m1, root, next),
        forall|va: u64, h: nat| 1 <= h <= geo.levels() && #[trigger] geo.frame(m1, root, va, h) is Some ==> !changed(
            geo.frame(m1, root, va, h)->0 / 8 + geo.index(va, h),
        ),
        forall|k: int| !changed(k) ==> #[trigger] m2.word(k) == m1.word(k),
    ensures
        geo.tree_wf(m2, root, next),
        forall|va: u64, h: nat| 1 <= h <= geo.levels() ==> #[trigger] geo.frame(m2, root, va, h) == geo.frame(m1, root, va, h),
        forall|va: u64| #[trigger] geo.walk(m2, root, va) == geo.walk(m1, root, va),
{
    assert forall|va: u64, h: nat| 1 <= h <= geo.levels() implies #[trigger] geo.frame(m2, root, va, h) == geo.frame(m1, root, va, h) by {
        crate::vmsa_tables::lemma_untouched_frame(geo, m1, m2, root, va, h);
    }
    assert forall|va: u64| #[trigger] geo.walk(m2, root, va) == geo.walk(m1, root, va) by {
        lemma_untouched(geo, m1, m2, root, va, geo.levels());
    }
    crate::vmsa_tables::lemma_tree_wf_transfer(geo, m1, m2, root, next);
}

/// Zeroing a table at or above `next` keeps every tree of tables below `next`.
pub proof fn lemma_tree_fresh(geo: Geometry, m1: PhysicalMemory64, m2: PhysicalMemory64, root: int, next: int, z: int)
    requires
        geo.wf(),
        geo.tree_wf(m1, root, next),
        next <= z,
        forall|k: int| !(z / 8 <= k < z / 8 + geo.table_bytes() / 8) ==> #[trigger] m2.word(k) == m1.word(k),
    ensures
        geo.tree_wf(m2, root, next),
        forall|va: u64, h: nat| 1 <= h <= geo.levels() ==> #[trigger] geo.frame(m2, root, va, h) == geo.frame(m1, root, va, h),
        forall|va: u64| #[trigger] geo.walk(m2, root, va) == geo.walk(m1, root, va),
{
    let changed = |k: int| z / 8 <= k < z / 8 + geo.table_bytes() / 8;
    assert forall|va: u64, h: nat| 1 <= h <= geo.levels() && #[trigger] geo.frame(m1, root, va, h) is Some implies !changed(
        geo.frame(m1, root, va, h)->0 / 8 + geo.index(va, h),
    ) by {
        lemma_index_bound(geo, va, h);
        let f = geo.frame(m1, root, va, h)->0;
        assert(f / 8 + geo.table_bytes() / 8 <= z / 8);
    }
    lemma_tree_untouched(geo, m1, m2, root, next, changed);
}

/// Writing a word of a table of one tree keeps every tree apart from it.
pub proof fn lemma_tree_other(
    ga: Geometry,
    ra: int,
    gb: Geometry,
    rb: int,
    m1: PhysicalMemory64,
    m2: PhysicalMemory64,
    next: int,
    target: u64,
    hl: nat,
    j: int,
)
    requires
        ga.wf(),
        gb.wf(),
        ga.granule == gb.granule,
        ga.tree_wf(m1, ra, next),
        gb.tree_wf(m1, rb, next),
        apart(ga, ra, gb, rb, m1),
        1 <= hl <= ga.levels(),
        ga.frame(m1, ra, target, hl) is Some,
        0 <= j < ga.table_bytes() / 8,
        forall|k: int| k != ga.frame(m1, ra, target, hl)->0 / 8 + j ==> #[trigger] m2.word(k) == m1.word(k),
    ensures
        gb.tree_wf(m2, rb, next),
        forall|va: u64, h: nat| 1 <= h <= gb.levels() ==> #[trigger] gb.frame(m2, rb, va, h) == gb.frame(m1, rb, va, h),
        forall|va: u64| #[trigger] gb.walk(m2, rb, va) == gb.walk(m1, rb, va),
{
    let w = ga.frame(m1, ra, target, hl)->0 / 8 + j;
    let changed = |k: int| k == w;
    assert forall|va: u64, h: nat| 1 <= h <= gb.levels() && #[trigger] gb.frame(m1, rb, va, h) is Some implies !changed(
        gb.frame(m1, rb, va, h)->0 / 8 + gb.index(va, h),
    ) by {
        lemma_index_bound(gb, va, h);
        let f = gb.frame(m1, rb, va, h)->0;
        let g = ga.frame(m1, ra, target, hl)->0;
        if f / 8 + gb.index(va, h) == w {
            lemma_table_words(ga.table_bytes(), f, gb.index(va, h), g, j);
        }
    }
    lemma_tree_untouched(gb, m1, m2, rb, next, changed);
}

/// Trees apart are apart either way round.
pub proof fn lemma_apart_sym(ga: Geometry, ra: int, gb: Geometry, rb: int, m: PhysicalMemory64)
    requires
        apart(ga, ra, gb, rb, m),
    ensures
        apart(gb, rb, ga, ra, m),
{
    assert forall|va1: u64, va2: u64, h1: nat, h2: nat|
        1 <= h1 <= gb.levels() && 1 <= h2 <= ga.levels() && #[trigger] gb.frame(m, rb, va1, h1) is Some
            && #[trigger] ga.frame(m, ra, va2, h2) is Some implies gb.frame(m, rb, va1, h1)->0 != ga.frame(m, ra, va2, h2)->0 by {
        assert(ga.frame(m, ra, va2, h2)->0 != gb.frame(m, rb, va1, h1)->0);
    }
}

/// Trees whose tables are unchanged stay apart; so do trees where one gains a table at or above
/// the bound below which the other's tables lie.
pub proof fn lemma_apart_keep(
    ga: Geometry,
    ra: int,
    gb: Geometry,
    rb: int,
    m1: PhysicalMemory64,
    m2: PhysicalMemory64,
    next: int,
    z: int,
)
    requires
        apart(ga, ra, gb, rb, m1),
        gb.tree_wf(m1, rb, next),
        next <= z,
        forall|va: u64, h: nat| 1 <= h <= ga.levels() && #[trigger] ga.frame(m2, ra, va, h) is Some ==> ga.frame(m2, ra, va, h)
            == ga.frame(m1, ra, va, h) || ga.frame(m2, ra, va, h) == Some(z),
        forall|va: u64, h: nat| 1 <= h <= gb.levels() ==> #[trigger] gb.frame(m2, rb, va, h) == gb.frame(m1, rb, va, h),
    ensures
        apart(ga, ra, gb, rb, m2),
{
    assert forall|va1: u64, va2: u64, h1: nat, h2: nat|
        1 <= h1 <= ga.levels() && 1 <= h2 <= gb.levels() && #[trigger] ga.frame(m2, ra, va1, h1) is Some
            && #[trigger] gb.frame(m2, rb, va2, h2) is Some implies ga.frame(m2, ra, va1, h1)->0 != gb.frame(m2, rb, va2, h2)->0 by {
        assert(gb.frame(m2, rb, va2, h2) == gb.frame(m1, rb, va2, h2));
        if ga.frame(m2, ra, va1, h1) == ga.frame(m1, ra, va1, h1) {
        } else {
            assert(gb.frame(m1, rb, va2, h2)->0 + gb.table_bytes() <= next);
        }
    }
}

/// A tree laid out below a bound is laid out below any larger bound.
pub proof fn lemma_tree_grow(geo: Geometry, m: PhysicalMemory64, root: int, next: int, next2: int)
    requires
        geo.tree_wf(m, root, next),
        next <= next2,
    ensures
        geo.tree_wf(m, root, next2),
{
}

/// The tree at `ra` is laid out below `next` and, where the tree at `rb` is in use, so is it,
/// apart from the first.
pub open spec fn trees_from(m: PhysicalMemory64, next: int, ga: Geometry, ra: int, gb: Geometry, rb: int, eb: bool) -> bool {
    &&& ga.tree_wf(m, ra, next)
    &&& eb ==> gb.tree_wf(m, rb, next) && apart(ga, ra, gb, rb, m)
}

/// Zeroing a table at or above the bound keeps both trees and their walks.
pub proof fn lemma_step_fresh(
    m0: PhysicalMemory64,
    m1: PhysicalMemory64,
    next: int,
    next2: int,
    z: int,
    ga: Geometry,
    ra: int,
    gb: Geometry,
    rb: int,
    eb: bool,
)
    requires
        ga.wf(),
        eb ==> gb.wf(),
        ga.granule == gb.granule,
        trees_from(m0, next, ga, ra, gb, rb, eb),
        next <= z,
        z + ga.table_bytes() <= next2,
        forall|k: int| !(z / 8 <= k < z / 8 + ga.table_bytes() / 8) ==> #[trigger] m1.word(k) == m0.word(k),
    ensures
        trees_from(m1, next, ga, ra, gb, rb, eb),
        trees_from(m1, next2, ga, ra, gb, rb, eb),
        forall|va: u64, h: nat| 1 <= h <= ga.levels() ==> #[trigger] ga.frame(m1, ra, va, h) == ga.frame(m0, ra, va, h),
        forall|va: u64| #[trigger] ga.walk(m1, ra, va) == ga.walk(m0, ra, va),
        eb ==> forall|va: u64| #[trigger] gb.walk(m1, rb, va) == gb.walk(m0, rb, va),
{
    lemma_tree_fresh(ga, m0, m1, ra, next, z);
    lemma_tree_grow(ga, m1, ra, next, next2);
    if eb {
        lemma_tree_fresh(gb, m0, m1, rb, next, z);
        lemma_tree_grow(gb, m1, rb, next, next2);
        lemma_apart_keep(ga, ra, gb, rb, m0, m1, next, z);
    }
    assert(trees_from(m1, next, ga, ra, gb, rb, eb));
}

/// Linking a zeroed table into the walk for `va` keeps both trees and their walks.
pub proof fn lemma_step_link(
    m1: PhysicalMemory64,
    m2: PhysicalMemory64,
    next: int,
    next2: int,
    va: u64,
    h: nat,
    z: int,
    v: u64,
    ga: Geometry,
    ra: int,
    gb: Geometry,
    rb: int,
    eb: bool,
)
    requires
        ga.wf(),
        eb ==> gb.wf(),
        ga.granule == gb.granule,
        trees_from(m1, next, ga, ra, gb, rb, eb),
        2 <= h <= ga.levels(),
        ga.frame(m1, ra, va, h) is Some,
        !crate::vmsa::valid_descriptor(m1.word(ga.frame(m1, ra, va, h)->0 / 8 + ga.index(va, h))),
        z % ga.table_bytes() == 0,
        next <= z,
        z + ga.table_bytes() <= next2,
        forall|i: int| 0 <= i < ga.table_bytes() / 8 ==> #[trigger] m1.word(z / 8 + i) == 0,
        crate::vmsa::valid_descriptor(v),
        crate::vmsa::table_or_page(v),
        crate::vmsa::descriptor_address(ga.granule, ga.size, v) == z,
        forall|k: int| k != ga.frame(m1, ra, va, h)->0 / 8 + ga.index(va, h) ==> #[trigger] m2.word(k) == m1.word(k),
        m2.word(ga.frame(m1, ra, va, h)->0 / 8 + ga.index(va, h)) == v,
    ensures
        trees_from(m2, next2, ga, ra, gb, rb, eb),
        ga.frame(m2, ra, va, (h - 1) as nat) == Some(z),
        forall|vb: u64| #[trigger] ga.walk(m2, ra, vb) == ga.walk(m1, ra, vb),
        eb ==> forall|vb: u64| #[trigger] gb.walk(m2, rb, vb) == gb.walk(m1, rb, vb),
{
    crate::vmsa_tables::lemma_link_table(ga, m1, m2, ra, next, next2, va, h, z, v);
    if eb {
        lemma_index_bound(ga, va, h);
        lemma_tree_grow(gb, m1, rb, next, next2);
        lemma_tree_grow(ga, m1, ra, next, next2);
        lemma_tree_other(ga, ra, gb, rb, m1, m2, next2, va, h, ga.index(va, h));
        lemma_apart_keep(ga, ra, gb, rb, m1, m2, next, z);
    }
}

/// Writing the descriptor at height 1 of the walk for `va` keeps both trees, changes the walks
/// of the addresses whose path is that of `va` to what `v` maps and keeps every other walk.
pub proof fn lemma_step_leaf(
    m1: PhysicalMemory64,
    m2: PhysicalMemory64,
    next: int,
    va: u64,
    v: u64,
    ga: Geometry,
    ra: int,
    gb: Geometry,
    rb: int,
    eb: bool,
)
    requires
        ga.wf(),
        eb ==> gb.wf(),
        ga.granule == gb.granule,
        trees_from(m1, next, ga, ra, gb, rb, eb),
        ga.frame(m1, ra, va, 1) is Some,
        forall|k: int| k != ga.frame(m1, ra, va, 1)->0 / 8 + ga.index(va, 1) ==> #[trigger] m2.word(k) == m1.word(k),
        m2.word(ga.frame(m1, ra, va, 1)->0 / 8 + ga.index(va, 1)) == v,
    ensures
        trees_from(m2, next, ga, ra, gb, rb, eb),
        forall|vb: u64| #[trigger] ga.walk(m2, ra, vb) == if ga.same_path(vb, va, 0) {
            ga.leaf_result(v, vb)
        } else {
            ga.walk(m1, ra, vb)
        },
        eb ==> forall|vb: u64| #[trigger] gb.walk(m2, rb, vb) == gb.walk(m1, rb, vb),
{
    crate::vmsa_tables::lemma_write_leaf(ga, m1, m2, ra, next, va, v);
    if eb {
        crate::vmsa::lemma_levels(ga.granule, ga.txsz);
        lemma_index_bound(ga, va, 1);
        lemma_tree_other(ga, ra, gb, rb, m1, m2, next, va, 1, ga.index(va, 1));
        lemma_apart_keep(ga, ra, gb, rb, m1, m2, next, next);
    }
}

impl VmsaV8TranslationScheme {
    /// The geometry of the region whose size offset is `txsz`.
    pub open spec fn geometry(&self, txsz: u8) -> Geometry {
        Geometry { granule: self.settings().granule, size: output_width(self.settings().output), txsz }
    }

    /// No table that a walk of the lower region reaches is one that a walk of the upper region
    /// reaches.
    pub open spec fn trees_apart(&self, m: PhysicalMemory64) -> bool {
        let s = self.settings();
        apart(self.geometry(s.t0sz), s.ttbr0 as int, self.geometry(s.t1sz), s.ttbr1 as int, m)
    }

    /// The tables of this configuration, held in `memory` with tables from `allocator`, are laid
    /// out as this library builds them: each enabled region is a tree of aligned tables below
    /// the allocator's next frame, and the two trees share no table.
    pub open spec fn tables_wf(&self, memory: PhysicalMemory64, allocator: FrameAllocator) -> bool {
        &&& self.walkable()
        &&& allocator.wf()
        &&& allocator.next as int % granule_bytes(self.settings().granule) == 0
        &&& allocator.end <= memory.byte_len()
        &&& self.trees_wf(memory, allocator.next as int)
    }

    /// Each enabled region is a tree of aligned tables below `next`, and the two trees share no
    /// table.
    pub open spec fn trees_wf(&self, memory: PhysicalMemory64, next: int) -> bool {
        let s = self.settings();
        &&& s.ttbr0_enable ==> self.geometry(s.t0sz).tree_wf(memory, s.ttbr0 as int, next)
        &&& s.ttbr1_enable ==> self.geometry(s.t1sz).tree_wf(memory, s.ttbr1 as int, next)
        &&& s.ttbr0_enable && s.ttbr1_enable ==> self.trees_apart(memory)
    }

    /// The geometry, root and use of the tree of the region other than that of `va`.
    pub open spec fn other_tree(&self, va: u64) -> (Geometry, int, bool) {
        let s = self.settings();
        if self.in_lower_region(va) {
            (self.geometry(s.t1sz), s.ttbr1 as int, s.ttbr1_enable)
        } else {
            (self.geometry(s.t0sz), s.ttbr0 as int, s.ttbr0_enable)
        }
    }

    /// Seen from the region of `va`, the trees are laid out as built exactly when the tree of
    /// that region is, and the other tree is, apart from it.
    pub proof fn lemma_view(&self, memory: PhysicalMemory64, next: int, va: u64, root: u64, txsz: u8)
        requires
            self.walkable(),
            self.region_of(va) == Some((root, txsz)),
        ensures
            self.trees_wf(memory, next) <==> trees_from(
                memory,
                next,
                self.geometry(txsz),
                root as int,
                self.other_tree(va).0,
                self.other_tree(va).1,
                self.other_tree(va).2,
            ),
    {
        let s = self.settings();
        let g0 = self.geometry(s.t0sz);
        let g1 = self.geometry(s.t1sz);
        if self.in_lower_region(va) {
        } else {
            if s.ttbr0_enable && s.ttbr1_enable {
                if self.trees_apart(memory) {
                    lemma_apart_sym(g0, s.ttbr0 as int, g1, s.ttbr1 as int, memory);
                }
                if apart(g1, s.ttbr1 as int, g0, s.ttbr0 as int, memory) {
                    lemma_apart_sym(g1, s.ttbr1 as int, g0, s.ttbr0 as int, memory);
                }
            }
        }
    }

    /// What translating `address` gives, by the walk of the tables of its region.
    pub open spec fn region_translate(&self, memory: PhysicalMemory64, address: u64) -> Option<(Permissions, MappingType, u64)> {
        match self.region_of(address) {
            None => None,
            Some((root, txsz)) => match self.geometry(txsz).walk(memory, root as int, address) {
                Some(physical_address) => Some((Permissions::Read, MappingType::Normal, physical_address)),
                None => None,
            },
        }
    }

    /// Translating walks the tables of the region.
    pub proof fn lemma_translate_walk(&self, memory: PhysicalMemory64, address: u64)
        requires
            self.walkable(),
        ensures
            self.spec_translate(memory, address) == self.region_translate(memory, address),
    {
        if let Some((root, txsz)) = self.region_of(address) {
            let geo = self.geometry(txsz);
            crate::vmsa::lemma_levels(geo.granule, geo.txsz);
            lemma_walk_from(geo, memory, root as int, address, geo.levels());
            assert((geo.levels() - geo.levels()) as u64 == 0);
        }
    }
}


/// The number of 4 KiB frames of a table of `granule`.
pub open spec fn table_frames(granule: Granule) -> u64 {
    (granule_bytes(granule) / 4096) as u64
}

/// Hands out a table of `granule` bytes from `allocator`, at or below `inclusive_max`, and
/// zeroes it in `memory`.
pub fn allocate_table(memory: &mut PhysicalMemory64, allocator: &mut FrameAllocator, granule: Granule, inclusive_max: u64) -> (table: Option<u64>)
    requires
        old(allocator).wf(),
        old(allocator).next as int % granule_bytes(granule) == 0,
        old(allocator).end <= old(memory).byte_len(),
    ensures
        final(allocator).wf(),
        final(allocator).end == old(allocator).end,
        final(allocator).next as int % granule_bytes(granule) == 0,
        final(memory).words@.len() == old(memory).words@.len(),
        match table {
            Some(t) => {
                &&& old(allocator).can_allocate_frames(table_frames(granule), inclusive_max)
                &&& t == old(allocator).next
                &&& final(allocator).next == t + granule_bytes(granule)
                &&& forall|k: int| t / 8 <= k < t / 8 + granule_bytes(granule) / 8 ==> #[trigger] final(memory).word(k) == 0
                &&& forall|k: int| !(t / 8 <= k < t / 8 + granule_bytes(granule) / 8) ==> #[trigger] final(memory).word(k)
                    == old(memory).word(k)
            },
            None => !old(allocator).can_allocate_frames(table_frames(granule), inclusive_max) && *final(memory) == *old(memory)
                && *final(allocator) == *old(allocator),
        },
{
    let (frames, words): (u64, u64) = match granule {
        Granule::Page4KiB => (1, 512),
        Granule::Page16KiB => (4, 2048),
        Granule::Page64KiB => (16, 8192),
    };
    let table = match allocator.allocate_frames(frames, inclusive_max) {
        Some(table) => table,
        None => return None,
    };
    let mut i: u64 = 0;
    while i < words
        invariant
            i <= words,
            words * 8 == granule_bytes(granule),
            table == old(allocator).next,
            table as int % granule_bytes(granule) == 0,
            table + granule_bytes(granule) <= old(memory).byte_len(),
            memory.words@.len() == old(memory).words@.len(),
            forall|k: int| table / 8 <= k < table / 8 + i ==> #[trigger] memory.word(k) == 0,
            forall|k: int| !(table / 8 <= k < table / 8 + i) ==> #[trigger] memory.word(k) == old(memory).word(k),
        decreases words - i,
    {
        let address = table + i * 8;
        assert(address / 8 == table / 8 + i);
        let ghost before = *memory;
        memory.write_u64(address, 0);
        assert forall|k: int| #[trigger] memory.word(k) == if k == table / 8 + i { 0 } else { before.word(k) } by {}
        i += 1;
    }
    Some(table)
}


/// Trees apart have distinct roots.
pub proof fn lemma_roots_apart(ga: Geometry, ra: int, gb: Geometry, rb: int, m: PhysicalMemory64)
    requires
        ga.wf(),
        gb.wf(),
        apart(ga, ra, gb, rb, m),
    ensures
        ra != rb,
{
    lemma_levels(ga.granule, ga.txsz);
    lemma_levels(gb.granule, gb.txsz);
    assert(ga.frame(m, ra, 0, ga.levels()) == Some(ra));
    assert(gb.frame(m, rb, 0, gb.levels()) == Some(rb));
}

impl VmsaV8TranslationScheme {
    /// Where the walks of both trees are unchanged, so is every translation.
    proof fn lemma_same_translate(&self, m0: PhysicalMemory64, m: PhysicalMemory64, root: u64, txsz: u8, va: u64)
        requires
            self.walkable(),
            self.region_of(va) == Some((root, txsz)),
            forall|vb: u64| #[trigger] self.geometry(txsz).walk(m, root as int, vb) == self.geometry(txsz).walk(m0, root as int, vb),
            self.other_tree(va).2 ==> forall|vb: u64| #[trigger] self.other_tree(va).0.walk(m, self.other_tree(va).1, vb)
                == self.other_tree(va).0.walk(m0, self.other_tree(va).1, vb),
        ensures
            forall|vb: u64| #[trigger] self.region_translate(m, vb) == self.region_translate(m0, vb),
    {
        assert forall|vb: u64| #[trigger] self.region_translate(m, vb) == self.region_translate(m0, vb) by {
            if let Some((r, t)) = self.region_of(vb) {
                if (r, t) == (root, txsz) {
                    assert(self.geometry(txsz).walk(m, root as int, vb) == self.geometry(txsz).walk(m0, root as int, vb));
                } else {
                    assert(self.other_tree(va).0 == self.geometry(t));
                    assert(self.other_tree(va).1 == r as int);
                    assert(self.other_tree(va).0.walk(m, self.other_tree(va).1, vb) == self.other_tree(va).0.walk(
                        m0,
                        self.other_tree(va).1,
                        vb,
                    ));
                }
            }
        }
    }

    /// Once the page descriptor `v` of `out` is written for `va`, the addresses with the path of
    /// `va` in its region translate into `out` and every other translation stays.
    proof fn lemma_map_result(
        &self,
        m0: PhysicalMemory64,
        m1: PhysicalMemory64,
        m2: PhysicalMemory64,
        root: u64,
        txsz: u8,
        va: u64,
        out: u64,
        v: u64,
    )
        requires
            self.walkable(),
            self.region_of(va) == Some((root, txsz)),
            forall|vb: u64| #[trigger] self.geometry(txsz).walk(m1, root as int, vb) == self.geometry(txsz).walk(m0, root as int, vb),
            self.other_tree(va).2 ==> forall|vb: u64| #[trigger] self.other_tree(va).0.walk(m1, self.other_tree(va).1, vb)
                == self.other_tree(va).0.walk(m0, self.other_tree(va).1, vb),
            forall|vb: u64| #[trigger] self.geometry(txsz).walk(m2, root as int, vb) == if self.geometry(txsz).same_path(vb, va, 0) {
                self.geometry(txsz).leaf_result(v, vb)
            } else {
                self.geometry(txsz).walk(m1, root as int, vb)
            },
            self.other_tree(va).2 ==> forall|vb: u64| #[trigger] self.other_tree(va).0.walk(m2, self.other_tree(va).1, vb)
                == self.other_tree(va).0.walk(m1, self.other_tree(va).1, vb),
            self.other_tree(va).2 ==> self.other_tree(va).1 != root as int,
            crate::vmsa::valid_descriptor(v),
            crate::vmsa::table_or_page(v),
            crate::vmsa::descriptor_address(self.settings().granule, output_width(self.settings().output), v) == out,
        ensures
            forall|vb: u64| #[trigger] self.region_translate(m2, vb) == if self.page_mapped(root, txsz, va, out, vb) {
                Some((Permissions::Read, MappingType::Normal, out | (vb & self.geometry(txsz).offset_mask(1))))
            } else {
                self.region_translate(m0, vb)
            },
    {
        let ga = self.geometry(txsz);
        assert forall|vb: u64| #[trigger] self.region_translate(m2, vb) == if self.page_mapped(root, txsz, va, out, vb) {
            Some((Permissions::Read, MappingType::Normal, out | (vb & ga.offset_mask(1))))
        } else {
            self.region_translate(m0, vb)
        } by {
            if let Some((r, t)) = self.region_of(vb) {
                if (r, t) == (root, txsz) {
                    assert(ga.walk(m2, root as int, vb) == if ga.same_path(vb, va, 0) {
                        ga.leaf_result(v, vb)
                    } else {
                        ga.walk(m1, root as int, vb)
                    });
                    assert(ga.walk(m1, root as int, vb) == ga.walk(m0, root as int, vb));
                } else {
                    assert(self.other_tree(va).0 == self.geometry(t));
                    assert(self.other_tree(va).1 == r as int);
                    assert(self.other_tree(va).0.walk(m2, self.other_tree(va).1, vb) == self.other_tree(va).0.walk(
                        m1,
                        self.other_tree(va).1,
                        vb,
                    ));
                    assert(self.other_tree(va).0.walk(m1, self.other_tree(va).1, vb) == self.other_tree(va).0.walk(
                        m0,
                        self.other_tree(va).1,
                        vb,
                    ));
                }
            }
        }
    }
}

impl VmsaV8TranslationScheme {
    /// Two addresses of the same region have the same bits above the region.
    pub proof fn lemma_region_high_bits(&self, va: u64, vb: u64, root: u64, txsz: u8)
        requires
            self.walkable(),
            self.region_of(va) == Some((root, txsz)),
            self.region_of(vb) == Some((root, txsz)),
            self.in_lower_region(va) == self.in_lower_region(vb),
        ensures
            va >> (64 - txsz) as u64 == vb >> (64 - txsz) as u64,
    {
        let sbits = (64 - txsz) as u64;
        vstd::bits::lemma_u64_shr_is_div(va, sbits);
        vstd::bits::lemma_u64_shr_is_div(vb, sbits);
        vstd::arithmetic::power2::lemma2_to64();
        vstd::arithmetic::power2::lemma2_to64_rest();
        vstd::arithmetic::power2::lemma_pow2_pos(sbits as nat);
        let p = pow2_of(sbits as nat);
        if self.in_lower_region(va) {
            vstd::arithmetic::div_mod::lemma_fundamental_div_mod_converse(va as int, p, 0, va as int);
            vstd::arithmetic::div_mod::lemma_fundamental_div_mod_converse(vb as int, p, 0, vb as int);
        } else {
            let q = pow2_of((64 - sbits) as nat);
            vstd::arithmetic::power2::lemma_pow2_adds(sbits as nat, (64 - sbits) as nat);
            assert(p * q == pow2_of(64));
            assert((q - 1) * p == p * q - p) by (nonlinear_arith);
            vstd::arithmetic::div_mod::lemma_fundamental_div_mod_converse(va as int, p, q - 1, va - (q - 1) * p);
            vstd::arithmetic::div_mod::lemma_fundamental_div_mod_converse(vb as int, p, q - 1, vb - (q - 1) * p);
        }
    }
}

/// `2^e`, as an integer.
pub open spec fn pow2_of(e: nat) -> int {
    vstd::arithmetic::power2::pow2(e) as int
}

impl VmsaV8TranslationScheme {
    /// What translating `vb` gives once the page of `va`, in the region at `root`, maps `out`.
    pub open spec fn page_mapped(&self, root: u64, txsz: u8, va: u64, out: u64, vb: u64) -> bool {
        self.region_of(vb) == Some((root, txsz)) && self.geometry(txsz).same_path(vb, va, 0)
    }

    /// Maps the page of `va`, in the region whose root is `root` and size offset `txsz`, to the
    /// page at `out`, adding the missing tables from `allocator` at or below `inclusive_max`.
    #[verifier::rlimit(60)]
    #[verifier::spinoff_prover]
    pub(crate) fn map_page(
        &self,
        memory: &mut PhysicalMemory64,
        allocator: &mut FrameAllocator,
        root: u64,
        txsz: u8,
        va: u64,
        out: u64,
        inclusive_max: u64,
    ) -> (result: Result<(), MapError>)
        requires
            self.tables_wf(*old(memory), *old(allocator)),
            self.region_of(va) == Some((root, txsz)),
            self.geometry(txsz).walk(*old(memory), root as int, va) is None,
            out as int % granule_bytes(self.settings().granule) == 0,
            out < address_limit(output_width(self.settings().output)),
            inclusive_max <= address_limit(output_width(self.settings().output)),
        ensures
            self.tables_wf(*final(memory), *final(allocator)),
            final(allocator).end == old(allocator).end,
            match result {
                Ok(()) => forall|vb: u64| #[trigger] self.region_translate(*final(memory), vb) == if self.page_mapped(root, txsz, va, out, vb) {
                    Some((Permissions::Read, MappingType::Normal, out | (vb & self.geometry(txsz).offset_mask(1))))
                } else {
                    self.region_translate(*old(memory), vb)
                },
                Err(error) => {
                    &&& error == MapError::FrameAllocation
                    &&& !final(allocator).can_allocate_frames(table_frames(self.settings().granule), inclusive_max)
                    &&& self.geometry(txsz).frame(*old(memory), root as int, va, 1) is None
                    &&& self.geometry(txsz).frame(*final(memory), root as int, va, 1) is None
                    &&& forall|vb: u64| #[trigger] self.region_translate(*final(memory), vb) == self.region_translate(*old(memory), vb)
                },
            },
    {
        let ghost ga = self.geometry(txsz);
        let ghost ra = root as int;
        let ghost (gb, rb, eb) = self.other_tree(va);
        let ghost m0 = *old(memory);
        proof {
            self.lemma_view(m0, old(allocator).next as int, va, root, txsz);
            lemma_levels(ga.granule, ga.txsz);
            if eb {
                lemma_levels(gb.granule, gb.txsz);
            }
        }
        let granule = self.granule();
        let size = self.output_size();
        let offset_bits = granule_page_bits(granule);
        let bits_per_level = offset_bits - 3;
        let target_bits = 64 - txsz as u64 - offset_bits;
        let levels = (target_bits + bits_per_level - 1) / bits_per_level;
        assert(levels == level_count(granule, txsz));
        proof {
            lemma_geometry(granule, txsz, va, 0, 0);
            assert((levels - 1) * bits_per_level <= 39) by (nonlinear_arith)
                requires
                    1 <= levels <= 4,
                    bits_per_level <= 13,
            ;
        }
        let mut level: u64 = 0;
        let mut base = (levels - 1) * bits_per_level;
        let mut table = root;
        let ghost mut needs_table = false;
        loop
            invariant
                !needs_table ==> *memory == m0,
                needs_table ==> ga.frame(m0, ra, va, 1) is None,
                ga == self.geometry(txsz),
                ga.wf(),
                eb ==> gb.wf(),
                ga.granule == gb.granule,
                ra == root as int,
                (gb, rb, eb) == self.other_tree(va),
                self.walkable(),
                self.region_of(va) == Some((root, txsz)),
                granule == self.settings().granule,
                size == output_width(self.settings().output),
                offset_bits == crate::vmsa::page_bits(granule),
                bits_per_level == index_bits(granule),
                target_bits == input_bits(granule, txsz),
                levels == level_count(granule, txsz),
                levels == ga.levels(),
                level < levels,
                base == base_bit(granule, txsz, level),
                m0 == *old(memory),
                allocator.wf(),
                allocator.next as int % granule_bytes(granule) == 0,
                allocator.end == old(allocator).end,
                allocator.end <= memory.byte_len(),
                memory.words@.len() == old(memory).words@.len(),
                trees_from(*memory, allocator.next as int, ga, ra, gb, rb, eb),
                ga.frame(*memory, ra, va, (levels - level) as nat) == Some(table as int),
                ga.walk(*memory, ra, va) is None,
                forall|vb: u64| #[trigger] ga.walk(*memory, ra, vb) == ga.walk(m0, ra, vb),
                eb ==> forall|vb: u64| #[trigger] gb.walk(*memory, rb, vb) == gb.walk(m0, rb, vb),
                out as int % granule_bytes(granule) == 0,
                out < crate::vmsa::address_limit(size),
                inclusive_max <= crate::vmsa::address_limit(size),
            decreases levels - level,
        {
            let ghost h = (levels - level) as nat;
            proof {
                lemma_geometry(granule, txsz, va, level, 0);
                crate::vmsa::lemma_index_fits(granule, txsz, va, level);
                assert(ga.index(va, h) == table_index(granule, txsz, va, level));
                assert(table as int % ga.table_bytes() == 0 && table + ga.table_bytes() <= allocator.next);
            }
            let top_bit = if base + bits_per_level < target_bits { base + bits_per_level } else { target_bits };
            let index = index_of(va, offset_bits, base, top_bit);
            assert(index == table_index(granule, txsz, va, level));
            let entry_address = table + index * 8;
            assert(entry_address / 8 == table / 8 + index);
            if level == levels - 1 {
                let descriptor = make_page_descriptor(granule, size, out);
                let ghost m1 = *memory;
                memory.write_u64(entry_address, descriptor);
                proof {
                    let m2 = *memory;
                    assert(h == 1);
                    assert forall|k: int| k != table / 8 + index implies #[trigger] m2.word(k) == m1.word(k) by {}
                    lemma_step_leaf(m1, m2, allocator.next as int, va, descriptor, ga, ra, gb, rb, eb);
                    lemma_descriptors(granule, size, out);
                    self.lemma_view(m2, allocator.next as int, va, root, txsz);
                    if eb {
                        lemma_roots_apart(ga, ra, gb, rb, m1);
                    }
                    self.lemma_map_result(m0, m1, m2, root, txsz, va, out, descriptor);
                }
                return Ok(());
            }
            let e = memory.read_u64(entry_address);
            if e & 1 != 1 {
                proof {
                    if !needs_table {
                        assert(ga.frame(m0, ra, va, h) == Some(table as int));
                        assert(m0.word(table / 8 + ga.index(va, h)) == e);
                        assert(ga.frame(m0, ra, va, (h - 1) as nat) is None);
                        lemma_unreached_below(ga, m0, ra, va, 1, (h - 1) as nat);
                    }
                    needs_table = true;
                }
                let ghost m0_step = *memory;
                let ghost next0 = allocator.next as int;
                let z = match allocate_table(memory, allocator, granule, inclusive_max) {
                    Some(z) => z,
                    None => {
                        proof {
                            assert(memory.word(table / 8 + ga.index(va, h)) == e);
                            assert(ga.frame(*memory, ra, va, (h - 1) as nat) is None);
                            lemma_unreached_below(ga, *memory, ra, va, 1, (h - 1) as nat);
                            self.lemma_view(*memory, allocator.next as int, va, root, txsz);
                            self.lemma_same_translate(m0, *memory, root, txsz, va);
                        }
                        return Err(MapError::FrameAllocation);
                    },
                };
                let ghost m1 = *memory;
                proof {
                    lemma_step_fresh(m0_step, m1, next0, allocator.next as int, z as int, ga, ra, gb, rb, eb);
                    assert(z as int % ga.table_bytes() == 0);
                    assert(z + ga.table_bytes() - 1 <= inclusive_max);
                    lemma_descriptors(granule, size, z);
                    assert(m1.word(table / 8 + index) == e);
                    assert forall|i: int| 0 <= i < ga.table_bytes() / 8 implies #[trigger] m1.word(z / 8 + i) == 0 by {}
                }
                let descriptor = make_table_descriptor(granule, size, z);
                memory.write_u64(entry_address, descriptor);
                proof {
                    let m2 = *memory;
                    assert forall|k: int| k != table / 8 + index implies #[trigger] m2.word(k) == m1.word(k) by {}
                    assert(ga.frame(m1, ra, va, h) == Some(table as int));
                    lemma_step_link(m1, m2, next0, allocator.next as int, va, h, z as int, descriptor, ga, ra, gb, rb, eb);
                    assert(((levels - (level + 1)) as nat) == (h - 1) as nat);
                }
                table = z;
            } else {
                proof {
                    if e & 2 != 2 {
                        crate::vmsa_tables::lemma_walk_block(ga, *memory, ra, va, ga.levels(), h);
                    }
                    lemma_geometry(granule, txsz, va, level, e);
                    assert(((levels - (level + 1)) as nat) + 1 == h);
                }
                table = read_descriptor_address(granule, size, e);
            }
            base = base - bits_per_level;
            level += 1;
        }
    }
}

} // verus!
