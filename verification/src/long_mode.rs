//! The 4-level and 5-level page tables of `x86_64` long mode.
//!
//! A table is a 4 KiB frame of 512 entries of 8 bytes. An entry of a table above the last level
//! points to the table of the next level; an entry of a last-level table maps a 4 KiB page.
use vstd::prelude::*;

use crate::address_space::{MapError, NoMapping, NotFound, ProtectionFlags, PROTECTION_EXEC, PROTECTION_READ, PROTECTION_WRITE};
use crate::physical_memory::{FrameAllocator, PhysicalMemory64};

verus! {

/// The bits of an entry that hold a physical address.
pub const ADDRESS_MASK: u64 = 0x000F_FFFF_FFFF_F000;

/// The entry is present.
pub open spec fn present64(e: u64) -> bool {
    e & 1 == 1
}

/// The entry allows writes.
pub open spec fn writable64(e: u64) -> bool {
    e & 2 == 2
}

/// The entry forbids execution.
pub open spec fn xd64(e: u64) -> bool {
    e & 0x8000_0000_0000_0000 == 0x8000_0000_0000_0000
}

/// The physical address that the entry holds.
pub open spec fn address64(e: u64) -> u64 {
    e & ADDRESS_MASK
}

/// The index, within the table of level `level`, of the entry that translates `va`.
pub open spec fn index_at(va: u64, level: nat) -> int {
    ((va >> ((12 + 9 * (level - 1)) as u64)) & 0x1FF) as int
}

/// `a` and `b` select the same entry in every table of a level above `level`, up to `top`.
pub open spec fn same_path(a: u64, b: u64, level: nat, top: nat) -> bool {
    forall|l: nat| level < l <= top ==> #[trigger] index_at(a, l) == index_at(b, l)
}

/// The table of level `level` that the walk for `va` reaches from the table `root` of level
/// `top`, or `None` if an entry above it is not present.
pub open spec fn frame_at(memory: PhysicalMemory64, root: int, top: nat, va: u64, level: nat) -> Option<int>
    decreases top - level,
{
    if level >= top {
        if level == top {
            Some(root)
        } else {
            None
        }
    } else {
        match frame_at(memory, root, top, va, level + 1) {
            None => None,
            Some(table) => {
                let e = memory.word(table / 8 + index_at(va, level + 1));
                if present64(e) {
                    Some(address64(e) as int)
                } else {
                    None
                }
            },
        }
    }
}

/// The last-level entry that maps the page of `va`, if the walk reaches a present one.
pub open spec fn leaf_entry(memory: PhysicalMemory64, root: int, top: nat, va: u64) -> Option<u64> {
    match frame_at(memory, root, top, va, 1) {
        None => None,
        Some(table) => {
            let e = memory.word(table / 8 + index_at(va, 1));
            if present64(e) {
                Some(e)
            } else {
                None
            }
        },
    }
}

/// The entry maps a large page instead of pointing to a table.
pub open spec fn block64(e: u64) -> bool {
    e & 0x80 == 0x80
}

/// The present entry of level `level` on the walk for `va`, if the walk reaches one.
pub open spec fn entry_at(memory: PhysicalMemory64, root: int, top: nat, va: u64, level: nat) -> Option<u64> {
    match frame_at(memory, root, top, va, level) {
        None => None,
        Some(table) => {
            let e = memory.word(table / 8 + index_at(va, level));
            if present64(e) {
                Some(e)
            } else {
                None
            }
        },
    }
}

/// The level at which the hardware walk for `va` stops: 3 or 2 where a present entry of that
/// level maps a large page, else the last level.
pub open spec fn end_level(memory: PhysicalMemory64, root: int, top: nat, va: u64) -> nat {
    if entry_at(memory, root, top, va, 3) matches Some(e) && block64(e) {
        3
    } else if entry_at(memory, root, top, va, 2) matches Some(e) && block64(e) {
        2
    } else {
        1
    }
}

/// The physical address that the entry `e` of level `level`, where the walk stops, maps `va`
/// to: a 1 GiB page at level 3, a 2 MiB page at level 2 and a 4 KiB page at level 1.
pub open spec fn entry_target(e: u64, level: nat, va: u64) -> int {
    if level == 3 {
        (e & 0x000F_FFFF_C000_0000) + va % 0x4000_0000
    } else if level == 2 {
        (e & 0x000F_FFFF_FFE0_0000) + va % 0x20_0000
    } else {
        (e & ADDRESS_MASK) + va % 4096
    }
}

/// Every present entry of the walk for `va` from level `level` up allows writes.
pub open spec fn path_writable(memory: PhysicalMemory64, root: int, top: nat, va: u64, level: nat) -> bool {
    forall|k: nat| level <= k <= top && #[trigger] entry_at(memory, root, top, va, k) is Some ==> writable64(
        entry_at(memory, root, top, va, k)->0,
    )
}

/// No present entry of the walk for `va` from level `level` up forbids execution.
pub open spec fn path_no_xd(memory: PhysicalMemory64, root: int, top: nat, va: u64, level: nat) -> bool {
    forall|k: nat| level <= k <= top && #[trigger] entry_at(memory, root, top, va, k) is Some ==> !xd64(
        entry_at(memory, root, top, va, k)->0,
    )
}

/// What the hardware walk for `va` gives: whether the page is writable, whether it is
/// executable (always without `nxe`, which leaves the execute-disable bit unused, and else
/// where no entry on the way sets that bit), and the physical address; `None` where an entry
/// on the way is not present.
pub open spec fn walk(memory: PhysicalMemory64, root: int, top: nat, nxe: bool, va: u64) -> Option<(bool, bool, int)> {
    let level = end_level(memory, root, top, va);
    match entry_at(memory, root, top, va, level) {
        None => None,
        Some(e) => Some(
            (
                path_writable(memory, root, top, va, level),
                !nxe || path_no_xd(memory, root, top, va, level),
                entry_target(e, level, va),
            ),
        ),
    }
}

/// The permissions of the walk from level `level` up are those from the level above, narrowed
/// by the entry of level `level`.
pub proof fn lemma_path_step(memory: PhysicalMemory64, root: int, top: nat, va: u64, level: nat)
    requires
        entry_at(memory, root, top, va, level) is Some,
    ensures
        path_writable(memory, root, top, va, level) == (path_writable(memory, root, top, va, level + 1)
            && writable64(entry_at(memory, root, top, va, level)->0)),
        path_no_xd(memory, root, top, va, level) == (path_no_xd(memory, root, top, va, level + 1) && !xd64(
            entry_at(memory, root, top, va, level)->0,
        )),
{
    if level <= top {
        if path_writable(memory, root, top, va, level + 1) && writable64(entry_at(memory, root, top, va, level)->0) {
            assert forall|k: nat| level <= k <= top && #[trigger] entry_at(memory, root, top, va, k) is Some implies writable64(
                entry_at(memory, root, top, va, k)->0,
            ) by {
                if k > level {
                    assert(level + 1 <= k);
                }
            }
        }
        if path_no_xd(memory, root, top, va, level + 1) && !xd64(entry_at(memory, root, top, va, level)->0) {
            assert forall|k: nat| level <= k <= top && #[trigger] entry_at(memory, root, top, va, k) is Some implies !xd64(
                entry_at(memory, root, top, va, k)->0,
            ) by {
                if k > level {
                    assert(level + 1 <= k);
                }
            }
        }
    } else {
        assert(frame_at(memory, root, top, va, level) is None);
    }
}

/// The entry points to a table and neither forbids writes nor execution below it.
pub open spec fn table_link(e: u64) -> bool {
    !block64(e) && writable64(e) && !xd64(e)
}

/// Every present entry above the last level that points to a table (at levels 2 and 3, where
/// an entry may map a large page) allows writes and execution below it.
pub open spec fn upper_permissive(memory: PhysicalMemory64, root: int, top: nat) -> bool {
    forall|va: u64, l: nat| 2 <= l && #[trigger] entry_at(memory, root, top, va, l) is Some && (l > 3 || !block64(
        entry_at(memory, root, top, va, l)->0,
    )) ==> writable64(entry_at(memory, root, top, va, l)->0) && !xd64(entry_at(memory, root, top, va, l)->0)
}

/// Upper entries kept from permissive tables are permissive.
pub proof fn lemma_permissive_kept(m1: PhysicalMemory64, m2: PhysicalMemory64, root: int, top: nat)
    requires
        upper_permissive(m1, root, top),
        upper_entries_kept(m1, m2, root, top),
    ensures
        upper_permissive(m2, root, top),
{
    assert forall|va: u64, l: nat| 2 <= l && #[trigger] entry_at(m2, root, top, va, l) is Some && (l > 3 || !block64(
        entry_at(m2, root, top, va, l)->0,
    )) implies writable64(entry_at(m2, root, top, va, l)->0) && !xd64(entry_at(m2, root, top, va, l)->0) by {
        if entry_at(m2, root, top, va, l) == entry_at(m1, root, top, va, l) {
            assert(entry_at(m1, root, top, va, l) is Some);
        }
    }
}

/// Every entry above the last level that a walk reaches in `m2` was reached in `m1` too, or
/// is a permissive link to a table.
pub open spec fn upper_entries_kept(m1: PhysicalMemory64, m2: PhysicalMemory64, root: int, top: nat) -> bool {
    forall|va: u64, l: nat| 2 <= l && #[trigger] entry_at(m2, root, top, va, l) is Some ==> entry_at(m2, root, top, va, l)
        == entry_at(m1, root, top, va, l) || table_link(entry_at(m2, root, top, va, l)->0)
}

/// Every entry above the last level that a walk reaches in `m1` is reached, unchanged, in
/// `m2`.
pub open spec fn upper_entries_persist(m1: PhysicalMemory64, m2: PhysicalMemory64, root: int, top: nat) -> bool {
    forall|va: u64, l: nat| 2 <= l && #[trigger] entry_at(m1, root, top, va, l) is Some ==> entry_at(m2, root, top, va, l)
        == entry_at(m1, root, top, va, l)
}

/// Persisting upper entries composes.
pub proof fn lemma_persist_trans(m1: PhysicalMemory64, m2: PhysicalMemory64, m3: PhysicalMemory64, root: int, top: nat)
    requires
        upper_entries_persist(m1, m2, root, top),
        upper_entries_persist(m2, m3, root, top),
    ensures
        upper_entries_persist(m1, m3, root, top),
{
    assert forall|va: u64, l: nat| 2 <= l && #[trigger] entry_at(m1, root, top, va, l) is Some implies entry_at(m3, root, top, va, l)
        == entry_at(m1, root, top, va, l) by {
        assert(entry_at(m2, root, top, va, l) == entry_at(m1, root, top, va, l));
    }
}

/// Keeping the upper entries composes.
pub proof fn lemma_kept_trans(m1: PhysicalMemory64, m2: PhysicalMemory64, m3: PhysicalMemory64, root: int, top: nat)
    requires
        upper_entries_kept(m1, m2, root, top),
        upper_entries_kept(m2, m3, root, top),
    ensures
        upper_entries_kept(m1, m3, root, top),
{
    assert forall|va: u64, l: nat| 2 <= l && #[trigger] entry_at(m3, root, top, va, l) is Some implies entry_at(m3, root, top, va, l)
        == entry_at(m1, root, top, va, l) || table_link(entry_at(m3, root, top, va, l)->0) by {
        if entry_at(m3, root, top, va, l) == entry_at(m2, root, top, va, l) {
            assert(entry_at(m2, root, top, va, l) is Some);
        }
    }
}

/// The tables that walks reach are aligned frames below `next`, and a frame is reached only
/// as the table of one level for one path.
pub open spec fn tables_wf(memory: PhysicalMemory64, root: int, top: nat, next: int) -> bool {
    &&& forall|va: u64, l: nat| 1 <= l <= top && #[trigger] frame_at(memory, root, top, va, l) is Some ==> {
        let f = frame_at(memory, root, top, va, l)->0;
        &&& f % 4096 == 0
        &&& 0 <= f
        &&& f + 4096 <= next
    }
    &&& forall|va1: u64, va2: u64, l1: nat, l2: nat|
        1 <= l1 <= top && 1 <= l2 <= top && #[trigger] frame_at(memory, root, top, va1, l1) is Some
            && #[trigger] frame_at(memory, root, top, va2, l2) == frame_at(memory, root, top, va1, l1) ==> l1 == l2
            && same_path(va1, va2, l1, top)
}

/// An index into a table is below 512.
pub proof fn lemma_index_bound(va: u64, level: nat)
    ensures
        0 <= index_at(va, level) < 512,
{
    let s = (12 + 9 * (level - 1)) as u64;
    assert((va >> s) & 0x1FF < 512) by (bit_vector);
}

/// Distinct words of aligned frames: word `i` of frame `f1` is word `j` of frame `f2` only for
/// the same frame and index.
pub proof fn lemma_frame_words(f1: int, i: int, f2: int, j: int)
    requires
        f1 % 4096 == 0,
        f2 % 4096 == 0,
        0 <= i < 512,
        0 <= j < 512,
        f1 / 8 + i == f2 / 8 + j,
    ensures
        f1 == f2,
        i == j,
{
    assert(f1 / 8 == 512 * (f1 / 4096));
    assert(f2 / 8 == 512 * (f2 / 4096));
    assert(f1 / 4096 == f2 / 4096 && i == j) by (nonlinear_arith)
        requires
            512 * (f1 / 4096) + i == 512 * (f2 / 4096) + j,
            0 <= i < 512,
            0 <= j < 512,
    ;
}

/// The table that a walk reaches at a level depends only on the indices of the levels above.
pub proof fn lemma_frame_at_path(memory: PhysicalMemory64, root: int, top: nat, a: u64, b: u64, level: nat)
    requires
        same_path(a, b, level, top),
    ensures
        frame_at(memory, root, top, a, level) == frame_at(memory, root, top, b, level),
    decreases top - level,
{
    if level < top {
        assert(same_path(a, b, level + 1, top));
        lemma_frame_at_path(memory, root, top, a, b, level + 1);
        assert(index_at(a, level + 1) == index_at(b, level + 1));
    }
}


/// Writing one entry of a table that a walk reaches changes no walk except the walks through
/// that entry.
proof fn lemma_write_reached(
    m1: PhysicalMemory64,
    m2: PhysicalMemory64,
    root: int,
    top: nat,
    next: int,
    target: u64,
    l: nat,
    j: int,
    va: u64,
    level: nat,
)
    requires
        tables_wf(m1, root, top, next),
        1 <= l <= top,
        frame_at(m1, root, top, target, l) is Some,
        0 <= j < 512,
        forall|k: int| k != frame_at(m1, root, top, target, l)->0 / 8 + j ==> #[trigger] m2.word(k) == m1.word(k),
        1 <= level <= top,
        !(level < l && same_path(va, target, l, top) && index_at(va, l) == j),
    ensures
        frame_at(m2, root, top, va, level) == frame_at(m1, root, top, va, level),
    decreases top - level,
{
    if level < top {
        lemma_write_reached(m1, m2, root, top, next, target, l, j, va, level + 1);
        if let Some(h) = frame_at(m1, root, top, va, level + 1) {
            let g = frame_at(m1, root, top, target, l)->0;
            let k = h / 8 + index_at(va, level + 1);
            lemma_index_bound(va, level + 1);
            if k == g / 8 + j {
                lemma_frame_words(h, index_at(va, level + 1), g, j);
                assert(frame_at(m1, root, top, va, level + 1) == frame_at(m1, root, top, target, l));
                assert(level + 1 == l && same_path(target, va, l, top));
                assert(same_path(va, target, l, top));
                assert(false);
            }
            assert(m2.word(k) == m1.word(k));
        }
    }
}

/// Writes at or above word `bound` change no walk when every reached table lies below
/// `8 * bound`.
proof fn lemma_write_outside(m1: PhysicalMemory64, m2: PhysicalMemory64, root: int, top: nat, next: int, va: u64, level: nat)
    requires
        tables_wf(m1, root, top, next),
        forall|k: int| k < next / 8 ==> #[trigger] m2.word(k) == m1.word(k),
        1 <= level <= top,
    ensures
        frame_at(m2, root, top, va, level) == frame_at(m1, root, top, va, level),
    decreases top - level,
{
    if level < top {
        lemma_write_outside(m1, m2, root, top, next, va, level + 1);
        if let Some(h) = frame_at(m1, root, top, va, level + 1) {
            lemma_index_bound(va, level + 1);
            assert(h / 8 + index_at(va, level + 1) < next / 8);
            assert(m2.word(h / 8 + index_at(va, level + 1)) == m1.word(h / 8 + index_at(va, level + 1)));
        }
    }
}

/// Writes at or above word `next / 8` change no mapping.
proof fn lemma_write_outside_leaf(m1: PhysicalMemory64, m2: PhysicalMemory64, root: int, top: nat, next: int, va: u64)
    requires
        tables_wf(m1, root, top, next),
        forall|k: int| k < next / 8 ==> #[trigger] m2.word(k) == m1.word(k),
        1 <= top,
    ensures
        leaf_entry(m2, root, top, va) == leaf_entry(m1, root, top, va),
{
    lemma_write_outside(m1, m2, root, top, next, va, 1);
    if let Some(h) = frame_at(m1, root, top, va, 1) {
        lemma_index_bound(va, 1);
        assert(h / 8 + index_at(va, 1) < next / 8);
    }
}


/// Writes at or above word `next / 8` change no entry that a walk reaches.
proof fn lemma_write_outside_entries(m1: PhysicalMemory64, m2: PhysicalMemory64, root: int, top: nat, next: int)
    requires
        tables_wf(m1, root, top, next),
        forall|k: int| k < next / 8 ==> #[trigger] m2.word(k) == m1.word(k),
    ensures
        forall|va: u64, l: nat| 1 <= l ==> #[trigger] entry_at(m2, root, top, va, l) == entry_at(m1, root, top, va, l),
{
    assert forall|va: u64, l: nat| 1 <= l implies #[trigger] entry_at(m2, root, top, va, l) == entry_at(m1, root, top, va, l) by {
        if l <= top {
            lemma_write_outside(m1, m2, root, top, next, va, l);
            if let Some(t) = frame_at(m1, root, top, va, l) {
                lemma_index_bound(va, l);
                assert(t / 8 + index_at(va, l) < next / 8);
            }
        }
    }
}

/// Writing above the reached tables keeps the tables well formed, for any larger bound.
proof fn lemma_write_outside_wf(m1: PhysicalMemory64, m2: PhysicalMemory64, root: int, top: nat, next: int, next2: int)
    requires
        tables_wf(m1, root, top, next),
        forall|k: int| k < next / 8 ==> #[trigger] m2.word(k) == m1.word(k),
        next <= next2,
    ensures
        tables_wf(m2, root, top, next2),
{
    assert forall|va: u64, l: nat| 1 <= l <= top implies #[trigger] frame_at(m2, root, top, va, l) == frame_at(
        m1, root, top, va, l) by {
        lemma_write_outside(m1, m2, root, top, next, va, l);
    }
}

/// Writing the leaf entry `j` of the last-level table reached for `target` changes no table
/// and changes the mapping of exactly the pages whose path is that of `target`.
proof fn lemma_write_leaf(m1: PhysicalMemory64, m2: PhysicalMemory64, root: int, top: nat, next: int, target: u64, value: u64)
    requires
        tables_wf(m1, root, top, next),
        1 <= top,
        frame_at(m1, root, top, target, 1) is Some,
        forall|k: int| k != frame_at(m1, root, top, target, 1)->0 / 8 + index_at(target, 1) ==> #[trigger] m2.word(k)
            == m1.word(k),
        m2.word(frame_at(m1, root, top, target, 1)->0 / 8 + index_at(target, 1)) == value,
    ensures
        tables_wf(m2, root, top, next),
        forall|va: u64, l: nat| 2 <= l ==> #[trigger] entry_at(m2, root, top, va, l) == entry_at(m1, root, top, va, l),
        forall|va: u64, l: nat| 1 <= l <= top ==> #[trigger] frame_at(m2, root, top, va, l) == frame_at(m1, root, top, va, l),
        forall|va: u64| #[trigger] leaf_entry(m2, root, top, va) == if same_path(va, target, 0, top) {
            if present64(value) {
                Some(value)
            } else {
                None
            }
        } else {
            leaf_entry(m1, root, top, va)
        },
{
    let g = frame_at(m1, root, top, target, 1)->0;
    let j = index_at(target, 1);
    lemma_index_bound(target, 1);
    assert forall|va: u64, l: nat| 1 <= l <= top implies #[trigger] frame_at(m2, root, top, va, l) == frame_at(
        m1, root, top, va, l) by {
        lemma_write_reached(m1, m2, root, top, next, target, 1, j, va, l);
    }
    assert forall|va: u64| #[trigger] leaf_entry(m2, root, top, va) == if same_path(va, target, 0, top) {
        if present64(value) {
            Some(value)
        } else {
            None
        }
    } else {
        leaf_entry(m1, root, top, va)
    } by {
        lemma_write_reached(m1, m2, root, top, next, target, 1, j, va, 1);
        if same_path(va, target, 0, top) {
            assert(same_path(va, target, 1, top));
            lemma_frame_at_path(m1, root, top, va, target, 1);
            assert(index_at(va, 1) == index_at(target, 1));
        } else {
            if let Some(h) = frame_at(m1, root, top, va, 1) {
                lemma_index_bound(va, 1);
                if h / 8 + index_at(va, 1) == g / 8 + j {
                    lemma_frame_words(h, index_at(va, 1), g, j);
                    assert(same_path(va, target, 1, top));
                    assert forall|l: nat| 0 < l <= top implies #[trigger] index_at(va, l) == index_at(target, l) by {
                        if l > 1 {
                            assert(index_at(va, l) == index_at(target, l));
                        }
                    }
                    assert(false);
                }
            }
        }
    }
    assert forall|va: u64, l: nat| 2 <= l implies #[trigger] entry_at(m2, root, top, va, l) == entry_at(m1, root, top, va, l) by {
        if l <= top {
            if let Some(t) = frame_at(m1, root, top, va, l) {
                lemma_index_bound(va, l);
                if t / 8 + index_at(va, l) == g / 8 + j {
                    lemma_frame_words(t, index_at(va, l), g, j);
                    assert(frame_at(m1, root, top, va, l) == frame_at(m1, root, top, target, 1));
                    assert(false);
                }
            }
        }
    }
}


/// Below a level that the walk does not reach, no level is reached.
pub proof fn lemma_unreached_below(m: PhysicalMemory64, root: int, top: nat, va: u64, l: nat, lv: nat)
    requires
        l <= lv <= top,
        frame_at(m, root, top, va, lv) is None,
    ensures
        frame_at(m, root, top, va, l) is None,
    decreases lv - l,
{
    if l < lv {
        lemma_unreached_below(m, root, top, va, (l + 1) as nat, lv);
    }
}

/// Linking a zeroed table `z` into the non-present entry `j` of the table of level `lv` reached
/// for `target` changes no mapping: the walks through that entry now reach `z` at the next
/// level and stop there, and every other walk is unchanged.
proof fn lemma_link_table(
    m1: PhysicalMemory64,
    m2: PhysicalMemory64,
    root: int,
    top: nat,
    next1: int,
    next2: int,
    target: u64,
    lv: nat,
    z: int,
    value: u64,
)
    requires
        tables_wf(m1, root, top, next1),
        2 <= lv <= top,
        frame_at(m1, root, top, target, lv) is Some,
        !present64(m1.word(frame_at(m1, root, top, target, lv)->0 / 8 + index_at(target, lv))),
        z % 4096 == 0,
        next1 <= z,
        z + 4096 <= next2,
        forall|i: int| 0 <= i < 512 ==> #[trigger] m1.word(z / 8 + i) == 0,
        present64(value),
        address64(value) == z,
        forall|k: int| k != frame_at(m1, root, top, target, lv)->0 / 8 + index_at(target, lv) ==> #[trigger] m2.word(k)
            == m1.word(k),
        m2.word(frame_at(m1, root, top, target, lv)->0 / 8 + index_at(target, lv)) == value,
        table_link(value),
    ensures
        tables_wf(m2, root, top, next2),
        upper_entries_kept(m1, m2, root, top),
        upper_entries_persist(m1, m2, root, top),
        forall|va: u64| #[trigger] leaf_entry(m2, root, top, va) == leaf_entry(m1, root, top, va),
        frame_at(m2, root, top, target, (lv - 1) as nat) == Some(z),
        forall|va: u64, l: nat| 1 <= l <= top && l >= lv ==> #[trigger] frame_at(m2, root, top, va, l) == frame_at(
            m1, root, top, va, l),
{
    let g = frame_at(m1, root, top, target, lv)->0;
    let j = index_at(target, lv);
    lemma_index_bound(target, lv);
    let lz = (lv - 1) as nat;
    // The walks through the linked entry.
    assert forall|va: u64| same_path(va, target, lv, top) && index_at(va, lv) == j implies #[trigger] frame_at(
        m2, root, top, va, lz) == Some(z) by {
        lemma_write_reached(m1, m2, root, top, next1, target, lv, j, va, lv);
        lemma_frame_at_path(m1, root, top, va, target, lv);
    }
    assert forall|va: u64, l: nat| 1 <= l < lz && same_path(va, target, lv, top) && index_at(va, lv) == j implies #[trigger] frame_at(
        m2, root, top, va, l) is None by {
        assert(frame_at(m2, root, top, va, lz) == Some(z));
        lemma_index_bound(va, lz);
        assert(m2.word(z / 8 + index_at(va, lz)) == m1.word(z / 8 + index_at(va, lz)));
        assert(m1.word(z / 8 + index_at(va, lz)) == 0);
        assert(!present64(0)) by (bit_vector);
        assert(((lz - 1) as nat) + 1 == lz);
        assert(frame_at(m2, root, top, va, (lz - 1) as nat) is None);
        lemma_unreached_below(m2, root, top, va, l, (lz - 1) as nat);
    }
    // Every other walk is unchanged.
    assert forall|va: u64, l: nat| 1 <= l <= top && !(l < lv && same_path(va, target, lv, top) && index_at(va, lv) == j)
        implies #[trigger] frame_at(m2, root, top, va, l) == frame_at(m1, root, top, va, l) by {
        lemma_write_reached(m1, m2, root, top, next1, target, lv, j, va, l);
    }
    assert(same_path(target, target, lv, top));
    // The tables stay aligned frames below the bound, each for one level and path.
    assert forall|va: u64, l: nat| 1 <= l <= top && #[trigger] frame_at(m2, root, top, va, l) is Some implies {
        let f = frame_at(m2, root, top, va, l)->0;
        &&& f % 4096 == 0
        &&& 0 <= f
        &&& f + 4096 <= next2
    } by {
        if l < lv && same_path(va, target, lv, top) && index_at(va, lv) == j {
            if l < lz {
                assert(frame_at(m2, root, top, va, l) is None);
            }
        } else {
            assert(frame_at(m1, root, top, va, l) is Some);
        }
    }
    assert forall|va1: u64, va2: u64, l1: nat, l2: nat|
        1 <= l1 <= top && 1 <= l2 <= top && #[trigger] frame_at(m2, root, top, va1, l1) is Some
            && #[trigger] frame_at(m2, root, top, va2, l2) == frame_at(m2, root, top, va1, l1) implies l1 == l2
        && same_path(va1, va2, l1, top) by {
        let a1 = l1 < lv && same_path(va1, target, lv, top) && index_at(va1, lv) == j;
        let a2 = l2 < lv && same_path(va2, target, lv, top) && index_at(va2, lv) == j;
        if a1 {
            if l1 < lz {
                assert(frame_at(m2, root, top, va1, l1) is None);
            }
        }
        if a2 {
            if l2 < lz {
                assert(frame_at(m2, root, top, va2, l2) is None);
            }
        }
        if a1 && a2 {
            assert forall|l: nat| l1 < l <= top implies #[trigger] index_at(va1, l) == index_at(va2, l) by {
                if l > lv {
                    assert(index_at(va1, l) == index_at(target, l));
                    assert(index_at(va2, l) == index_at(target, l));
                }
            }
        } else if a1 && !a2 {
            assert(frame_at(m1, root, top, va2, l2) is Some);
        } else if !a1 && a2 {
            assert(frame_at(m1, root, top, va1, l1) is Some);
        } else {
            assert(frame_at(m1, root, top, va1, l1) == frame_at(m1, root, top, va2, l2));
        }
    }
    // No mapping changes.
    assert forall|va: u64| #[trigger] leaf_entry(m2, root, top, va) == leaf_entry(m1, root, top, va) by {
        if 1 < lv && same_path(va, target, lv, top) && index_at(va, lv) == j {
            lemma_write_reached(m1, m2, root, top, next1, target, lv, j, va, lv);
            lemma_frame_at_path(m1, root, top, va, target, lv);
            assert(frame_at(m1, root, top, va, lz) is None);
            lemma_unreached_below(m1, root, top, va, 1, lz);
            if lz == 1 {
                lemma_index_bound(va, 1);
                assert(m2.word(z / 8 + index_at(va, 1)) == m1.word(z / 8 + index_at(va, 1)));
                assert(m1.word(z / 8 + index_at(va, 1)) == 0);
                assert(!present64(0)) by (bit_vector);
            } else {
                assert(frame_at(m2, root, top, va, 1) is None);
            }
        } else {
            assert(frame_at(m2, root, top, va, 1) == frame_at(m1, root, top, va, 1));
            if let Some(h) = frame_at(m1, root, top, va, 1) {
                lemma_index_bound(va, 1);
                if h / 8 + index_at(va, 1) == g / 8 + j {
                    lemma_frame_words(h, index_at(va, 1), g, j);
                    assert(frame_at(m1, root, top, va, 1) == frame_at(m1, root, top, target, lv));
                    assert(false);
                }
            }
        }
    }
    // Every reached entry above the last level is the old one, or the new link.
    assert forall|va: u64, l: nat| 2 <= l && #[trigger] entry_at(m2, root, top, va, l) is Some implies entry_at(
        m2, root, top, va, l) == entry_at(m1, root, top, va, l) || table_link(entry_at(m2, root, top, va, l)->0) by {
        if l < lv && same_path(va, target, lv, top) && index_at(va, lv) == j {
            if l < lz {
                assert(frame_at(m2, root, top, va, l) is None);
            } else {
                lemma_index_bound(va, l);
                assert(frame_at(m2, root, top, va, l) == Some(z));
                assert(g / 8 + j < next1 / 8) by {
                    assert(frame_at(m1, root, top, target, lv) is Some);
                }
                assert(m2.word(z / 8 + index_at(va, l)) == m1.word(z / 8 + index_at(va, l)));
                assert(!present64(0)) by (bit_vector);
            }
        } else if l <= top {
            lemma_write_reached(m1, m2, root, top, next1, target, lv, j, va, l);
            if let Some(t) = frame_at(m1, root, top, va, l) {
                lemma_index_bound(va, l);
                if t / 8 + index_at(va, l) != g / 8 + j {
                    assert(m2.word(t / 8 + index_at(va, l)) == m1.word(t / 8 + index_at(va, l)));
                }
            }
        }
    }
    // Every present entry above the last level stays.
    assert forall|va: u64, l: nat| 2 <= l && #[trigger] entry_at(m1, root, top, va, l) is Some implies entry_at(
        m2, root, top, va, l) == entry_at(m1, root, top, va, l) by {
        if l < lv && same_path(va, target, lv, top) && index_at(va, lv) == j {
            lemma_frame_at_path(m1, root, top, va, target, lv);
            assert(frame_at(m1, root, top, va, lz) is None);
            lemma_unreached_below(m1, root, top, va, l, lz);
        } else if l <= top {
            lemma_write_reached(m1, m2, root, top, next1, target, lv, j, va, l);
            let t = frame_at(m1, root, top, va, l)->0;
            lemma_index_bound(va, l);
            if t / 8 + index_at(va, l) == g / 8 + j {
                lemma_frame_words(t, index_at(va, l), g, j);
                assert(frame_at(m1, root, top, va, l) == frame_at(m1, root, top, target, lv));
                assert(l == lv && same_path(va, target, lv, top));
                assert(false);
            }
            assert(m2.word(t / 8 + index_at(va, l)) == m1.word(t / 8 + index_at(va, l)));
        }
    }
}


/// An error that indicates that no frame could be allocated for a page table.
#[derive(Clone, Copy, Debug, PartialEq, Eq, Structural)]
pub struct OutOfMemory;

/// The largest physical address that an entry can hold, plus one.
pub open spec fn physical_limit() -> int {
    0x10_0000_0000_0000
}

/// Long mode page tables whose frames live in `memory` and come from `allocator`.
pub struct X86_64AddressSpace {
    /// The physical address of the root table.
    physical_address: u64,
    /// The tables have five levels instead of four.
    la57: bool,
    /// Pages that are not executable carry the execute-disable bit.
    nxe: bool,
    /// The physical memory that holds the tables.
    memory: PhysicalMemory64,
    /// The allocator of table frames.
    allocator: FrameAllocator,
}

impl X86_64AddressSpace {
    /// The number of levels of the tables.
    pub open spec fn top(&self) -> nat {
        if self.spec_la57() { 5 } else { 4 }
    }

    /// The `la57` setting.
    pub closed spec fn spec_la57(&self) -> bool {
        self.la57
    }

    /// The `nxe` setting.
    pub closed spec fn spec_nxe(&self) -> bool {
        self.nxe
    }

    /// The root table's address.
    pub closed spec fn root(&self) -> int {
        self.physical_address as int
    }

    /// The memory that holds the tables.
    pub closed spec fn spec_memory(&self) -> PhysicalMemory64 {
        self.memory
    }

    /// The frame allocator.
    pub closed spec fn spec_allocator(&self) -> FrameAllocator {
        self.allocator
    }

    /// The tables are laid out as this library builds them.
    pub closed spec fn wf(&self) -> bool {
        &&& self.allocator.wf()
        &&& self.allocator.end <= self.memory.byte_len()
        &&& self.allocator.end <= physical_limit()
        &&& self.physical_address % 4096 == 0
        &&& self.physical_address + 4096 <= self.allocator.next
        &&& tables_wf(self.memory, self.physical_address as int, self.top(), self.allocator.next as int)
        &&& upper_permissive(self.memory, self.physical_address as int, self.top())
    }

    /// The last-level entry that maps the page of `va`.
    pub open spec fn mapping(&self, va: u64) -> Option<u64> {
        leaf_entry(self.spec_memory(), self.root(), self.top(), va)
    }

    /// The physical address that `va` translates to, as the hardware walks the tables.
    pub open spec fn translation(&self, va: u64) -> Option<int> {
        match self.mapping(va) {
            Some(e) => Some(address64(e) + va % 4096),
            None => None,
        }
    }

    /// The two spaces have the same settings and root.
    pub open spec fn same_settings(&self, other: &Self) -> bool {
        &&& self.spec_la57() == other.spec_la57()
        &&& self.spec_nxe() == other.spec_nxe()
        &&& self.root() == other.root()
    }

    /// Hands out and zeroes a table frame.
    fn allocate_zeroed_table(&mut self) -> (result: Result<u64, OutOfMemory>)
        requires
            old(self).wf(),
        ensures
            final(self).wf(),
            final(self).same_settings(old(self)),
            final(self).spec_allocator().end == old(self).spec_allocator().end,
            forall|va: u64, l: nat| 1 <= l <= old(self).top() ==> #[trigger] frame_at(final(self).spec_memory(), final(self).root(),
                final(self).top(), va, l) == frame_at(old(self).spec_memory(), old(self).root(), old(self).top(), va, l),
            forall|va: u64| #[trigger] final(self).mapping(va) == old(self).mapping(va),
            match result {
                Ok(z) => {
                    &&& z % 4096 == 0
                    &&& old(self).spec_allocator().next <= z
                    &&& z + 4096 == final(self).spec_allocator().next
                    &&& z + 4096 <= physical_limit()
                    &&& forall|i: int| 0 <= i < 512 ==> #[trigger] final(self).spec_memory().word(z / 8 + i) == 0
                    &&& forall|k: int| k < old(self).spec_allocator().next / 8 ==> #[trigger] final(self).spec_memory().word(k)
                        == old(self).spec_memory().word(k)
                    &&& tables_wf(final(self).spec_memory(), final(self).root(), final(self).top(), old(self).spec_allocator().next as int)
                },
                Err(_) => !old(self).spec_allocator().can_allocate() && *final(self) == *old(self),
            },
    {
        if self.allocator.next > self.allocator.end || self.allocator.end - self.allocator.next < 4096 {
            return Err(OutOfMemory);
        }
        let z = self.allocator.next;
        let ghost m0 = self.memory;
        self.allocator.next = z + 4096;
        let mut i: u64 = 0;
        while i < 512
            invariant
                i <= 512,
                z == old(self).allocator.next,
                z % 4096 == 0,
                self.allocator.next == z + 4096,
                self.allocator.end == old(self).allocator.end,
                self.physical_address == old(self).physical_address,
                self.la57 == old(self).la57,
                self.nxe == old(self).nxe,
                z + 4096 <= self.allocator.end,
                self.allocator.end <= self.memory.byte_len(),
                self.memory.words@.len() == m0.words@.len(),
                forall|k: int| (k < z / 8 || k >= z / 8 + i) ==> #[trigger] self.memory.word(k) == m0.word(k),
                forall|k: int| z / 8 <= k < z / 8 + i ==> #[trigger] self.memory.word(k) == 0,
            decreases 512 - i,
        {
            let address = z + i * 8;
            assert(address / 8 == z / 8 + i);
            let ghost before = self.memory;
            self.memory.write_u64(address, 0);
            assert(self.memory.words@ == before.words@.update(z / 8 + i, 0));
            assert forall|k: int| (k < z / 8 || k >= z / 8 + i + 1) implies #[trigger] self.memory.word(k) == m0.word(k) by {
                assert(self.memory.word(k) == before.word(k));
            }
            assert forall|k: int| z / 8 <= k < z / 8 + i + 1 implies #[trigger] self.memory.word(k) == 0 by {
                if k < z / 8 + i {
                    assert(self.memory.word(k) == before.word(k));
                }
            }
            i += 1;
        }
        proof {
            assert forall|k: int| k < old(self).allocator.next / 8 implies #[trigger] self.memory.word(k) == m0.word(k) by {
                assert(k < z / 8);
            }
            lemma_write_outside_wf(m0, self.memory, self.physical_address as int, self.top(), old(self).allocator.next as int,
                self.allocator.next as int);
            lemma_write_outside_wf(m0, self.memory, self.physical_address as int, self.top(), old(self).allocator.next as int,
                old(self).allocator.next as int);
            assert forall|va: u64, l: nat| 1 <= l <= old(self).top() implies #[trigger] frame_at(self.memory, self.physical_address as int,
                self.top(), va, l) == frame_at(m0, self.physical_address as int, self.top(), va, l) by {
                lemma_write_outside(m0, self.memory, self.physical_address as int, self.top(), old(self).allocator.next as int, va, l);
            }
            assert forall|va: u64| #[trigger] self.mapping(va) == old(self).mapping(va) by {
                lemma_write_outside_leaf(m0, self.memory, self.physical_address as int, self.top(), old(self).allocator.next as int, va);
            }
            assert forall|i: int| 0 <= i < 512 implies #[trigger] self.memory.word(z / 8 + i) == 0 by {}
            assert forall|va: u64, l: nat| 2 <= l implies #[trigger] entry_at(self.memory, self.physical_address as int,
                self.top(), va, l) == entry_at(m0, self.physical_address as int, self.top(), va, l) by {
                if l <= self.top() {
                    if let Some(t) = frame_at(m0, self.physical_address as int, self.top(), va, l) {
                        lemma_index_bound(va, l);
                        assert(frame_at(self.memory, self.physical_address as int, self.top(), va, l) == Some(t));
                        assert(self.memory.word(t / 8 + index_at(va, l)) == m0.word(t / 8 + index_at(va, l)));
                    }
                }
            }
            assert(upper_entries_kept(m0, self.memory, self.physical_address as int, self.top()));
            lemma_permissive_kept(m0, self.memory, self.physical_address as int, self.top());
        }
        Ok(z)
    }
}


/// Returns the lowest and the highest address of the non-canonical hole in the middle of the
/// virtual address space, with 5-level tables when `level_5` is set.
fn virtual_region_bounds(level_5: bool) -> (bounds: (u64, u64))
    ensures
        bounds == if level_5 {
            (0x0100_0000_0000_0000u64, 0xFEFF_FFFF_FFFF_FFFFu64)
        } else {
            (0x0000_8000_0000_0000u64, 0xFFFF_7FFF_FFFF_FFFFu64)
        },
{
    if level_5 {
        (0x0100_0000_0000_0000, 0xFEFF_FFFF_FFFF_FFFF)
    } else {
        (0x0000_8000_0000_0000, 0xFFFF_7FFF_FFFF_FFFF)
    }
}

/// Returns an entry that points to the table at `table`, present and writable.
fn table_entry(table: u64) -> (e: u64)
    requires
        table % 4096 == 0,
        table < physical_limit(),
    ensures
        present64(e),
        address64(e) == table,
        table_link(e),
{
    assert(table % 4096 == 0 && table < 0x10_0000_0000_0000 ==> (table | 3) & 1 == 1 && (table | 3)
        & 0x000F_FFFF_FFFF_F000 == table && (table | 3) & 0x80 != 0x80 && (table | 3) & 2 == 2 && (table | 3)
        & 0x8000_0000_0000_0000 != 0x8000_0000_0000_0000) by (bit_vector);
    table | 3
}

/// The last-level entry that maps the page at `physical_address` with `protection`: present
/// when readable, writable when writable, and execute-disabled when `nxe` is set and the page
/// is not executable.
pub open spec fn leaf_value(physical_address: u64, protection: ProtectionFlags, nxe: bool) -> u64 {
    (physical_address & ADDRESS_MASK) | (if protection.has(PROTECTION_READ) { 1u64 } else { 0u64 }) | (if protection.has(
        PROTECTION_WRITE,
    ) {
        2u64
    } else {
        0u64
    }) | (if nxe && !protection.has(PROTECTION_EXEC) {
        0x8000_0000_0000_0000u64
    } else {
        0u64
    })
}

/// Returns the last-level entry that maps the page at `physical_address` with `protection`.
fn page_entry(physical_address: u64, protection: ProtectionFlags, nxe: bool) -> (e: u64)
    ensures
        e == leaf_value(physical_address, protection, nxe),
{
    let present: u64 = if protection.readable() { 1 } else { 0 };
    let writable: u64 = if protection.writable() { 2 } else { 0 };
    let xd: u64 = if nxe && !protection.executable() { 0x8000_0000_0000_0000 } else { 0 };
    (physical_address & ADDRESS_MASK) | present | writable | xd
}

/// The bits that a leaf entry built for a page keeps.
pub proof fn lemma_leaf_value(physical_address: u64, protection: ProtectionFlags, nxe: bool)
    requires
        physical_address % 4096 == 0,
        physical_address < physical_limit(),
    ensures
        present64(leaf_value(physical_address, protection, nxe)) == protection.has(PROTECTION_READ),
        address64(leaf_value(physical_address, protection, nxe)) == physical_address,
        writable64(leaf_value(physical_address, protection, nxe)) == protection.has(PROTECTION_WRITE),
        xd64(leaf_value(physical_address, protection, nxe)) == (nxe && !protection.has(PROTECTION_EXEC)),
{
    let p: u64 = if protection.has(PROTECTION_READ) { 1u64 } else { 0u64 };
    let w: u64 = if protection.has(PROTECTION_WRITE) { 2u64 } else { 0u64 };
    let x: u64 = if nxe && !protection.has(PROTECTION_EXEC) { 0x8000_0000_0000_0000u64 } else { 0u64 };
    assert(physical_address % 4096 == 0 && physical_address < 0x10_0000_0000_0000 && (p == 0 || p == 1) && (w == 0 || w
        == 2) && (x == 0 || x == 0x8000_0000_0000_0000) ==> ((physical_address & 0x000F_FFFF_FFFF_F000) | p | w | x) & 1
        == p && ((physical_address & 0x000F_FFFF_FFFF_F000) | p | w | x) & 0x000F_FFFF_FFFF_F000 == physical_address && (((
        physical_address & 0x000F_FFFF_FFFF_F000) | p | w | x) & 2 == 2) == (w == 2) && (((physical_address
        & 0x000F_FFFF_FFFF_F000) | p | w | x) & 0x8000_0000_0000_0000 == 0x8000_0000_0000_0000) == (x
        == 0x8000_0000_0000_0000)) by (bit_vector);
}

impl X86_64AddressSpace {
    /// Creates new tables with the given settings, whose root table is the first frame that
    /// `allocator` hands out from `memory`. Where no frame is left, `memory` comes back
    /// unwritten with the error.
    pub fn new(la57: bool, nxe: bool, memory: PhysicalMemory64, allocator: FrameAllocator) -> (result: Result<
        Self,
        (OutOfMemory, PhysicalMemory64),
    >)
        requires
            allocator.wf(),
            allocator.end <= memory.byte_len(),
            allocator.end <= physical_limit(),
        ensures
            match result {
                Ok(space) => {
                    &&& allocator.can_allocate()
                    &&& space.wf()
                    &&& space.root() == allocator.next
                    &&& space.spec_la57() == la57
                    &&& space.spec_nxe() == nxe
                    &&& space.spec_allocator().next == allocator.next + 4096
                    &&& space.spec_allocator().end == allocator.end
                    &&& forall|va: u64| #[trigger] space.mapping(va) is None
                    &&& forall|k: int| #[trigger] space.spec_memory().word(k) == if allocator.next / 8 <= k < allocator.next / 8
                        + 512 {
                        0
                    } else {
                        memory.word(k)
                    }
                },
                Err((_, unchanged)) => !allocator.can_allocate() && unchanged == memory,
            },
    {
        if allocator.next > allocator.end || allocator.end - allocator.next < 4096 {
            return Err((OutOfMemory, memory));
        }
        let root = allocator.next;
        let mut space = X86_64AddressSpace {
            physical_address: root,
            la57,
            nxe,
            memory,
            allocator: FrameAllocator { next: root + 4096, end: allocator.end },
        };
        let mut i: u64 = 0;
        while i < 512
            invariant
                i <= 512,
                root % 4096 == 0,
                root == allocator.next,
                allocator.wf(),
                allocator.end <= physical_limit(),
                space.physical_address == root,
                space.la57 == la57,
                space.nxe == nxe,
                space.allocator.next == root + 4096,
                space.allocator.end == allocator.end,
                root + 4096 <= allocator.end,
                allocator.end <= space.memory.byte_len(),
                space.memory.words@.len() == memory.words@.len(),
                forall|k: int| root / 8 <= k < root / 8 + i ==> #[trigger] space.memory.word(k) == 0,
                forall|k: int| !(root / 8 <= k < root / 8 + i) ==> #[trigger] space.memory.word(k) == memory.word(k),
            decreases 512 - i,
        {
            let address = root + i * 8;
            assert(address / 8 == root / 8 + i);
            let ghost before = space.memory;
            space.memory.write_u64(address, 0);
            assert forall|k: int| #[trigger] space.memory.word(k) == if k == root / 8 + i { 0 } else { before.word(k) } by {}
            assert forall|k: int| root / 8 <= k < root / 8 + i + 1 implies #[trigger] space.memory.word(k) == 0 by {
                if k < root / 8 + i {
                    assert(space.memory.word(k) == before.word(k));
                }
            }
            i += 1;
        }
        proof {
            let top = space.top();
            let m = space.memory;
            assert(!present64(0)) by (bit_vector);
            assert forall|va: u64, l: nat| 1 <= l <= top implies #[trigger] frame_at(m, root as int, top, va, l) == if l == top {
                Some(root as int)
            } else {
                None::<int>
            } by {
                if l < top {
                    lemma_index_bound(va, top);
                    assert(m.word(root / 8 + index_at(va, top)) == 0);
                    assert(((top - 1) as nat) + 1 == top);
                    assert(frame_at(m, root as int, top, va, top) == Some(root as int));
                    assert(frame_at(m, root as int, top, va, (top - 1) as nat) is None);
                    lemma_unreached_below(m, root as int, top, va, l, (top - 1) as nat);
                }
            }
            assert forall|va: u64| #[trigger] space.mapping(va) is None by {
                assert(frame_at(m, root as int, top, va, 1) is None);
            }
            assert forall|va: u64, l: nat| 2 <= l implies #[trigger] entry_at(m, root as int, top, va, l) is None by {
                if l == top {
                    lemma_index_bound(va, top);
                    assert(m.word(root / 8 + index_at(va, top)) == 0);
                }
            }
        }
        Ok(space)
    }

    /// Tables rooted at `physical_address`, with the given settings, held in `memory`, whose
    /// frames come from `allocator`.
    pub closed spec fn spec_from_parts(
        physical_address: u64,
        la57: bool,
        nxe: bool,
        memory: PhysicalMemory64,
        allocator: FrameAllocator,
    ) -> Self {
        X86_64AddressSpace { physical_address, la57, nxe, memory, allocator }
    }

    /// The parts of [`X86_64AddressSpace::spec_from_parts`] are those it was given.
    pub proof fn lemma_from_parts(
        physical_address: u64,
        la57: bool,
        nxe: bool,
        memory: PhysicalMemory64,
        allocator: FrameAllocator,
    )
        ensures
            Self::spec_from_parts(physical_address, la57, nxe, memory, allocator).root() == physical_address,
            Self::spec_from_parts(physical_address, la57, nxe, memory, allocator).spec_la57() == la57,
            Self::spec_from_parts(physical_address, la57, nxe, memory, allocator).spec_nxe() == nxe,
            Self::spec_from_parts(physical_address, la57, nxe, memory, allocator).spec_memory() == memory,
            Self::spec_from_parts(physical_address, la57, nxe, memory, allocator).spec_allocator() == allocator,
    {
    }

    /// The root table of well-formed tables lies below the largest physical address.
    pub proof fn lemma_wf_root(&self)
        requires
            self.wf(),
        ensures
            self.root() % 4096 == 0,
            self.root() + 4096 <= physical_limit(),
            self.top() <= 5,
    {
    }

    /// Every link to a table in well-formed tables allows writes and execution below it.
    pub proof fn lemma_wf_permissive(&self)
        requires
            self.wf(),
        ensures
            upper_permissive(self.spec_memory(), self.root(), self.top()),
    {
    }

    /// The value that [`X86_64AddressSpace::cr3`] reports of well-formed tables, as `new`
    /// builds them and `map` and `unmap` keep them, is 4 KiB aligned, and every call that keeps
    /// the settings (`map`, `unmap`; `find_region` and `translate_virt` only borrow the tables)
    /// keeps it.
    pub proof fn law_root_kept(&self, after: &Self)
        requires
            self.wf(),
            after.same_settings(self),
        ensures
            self.root() % 4096 == 0,
            after.root() == self.root(),
            after.root() % 4096 == 0,
    {
        self.lemma_wf_root();
    }

    /// Through any sequence of calls, each of which keeps the settings of the tables it was
    /// given, [`X86_64AddressSpace::cr3`] stays the first value and stays 4 KiB aligned.
    pub proof fn law_cr3_through_calls(spaces: Seq<Self>)
        requires
            spaces.len() > 0,
            spaces[0].wf(),
            forall|i: int| 0 < i < spaces.len() ==> #[trigger] spaces[i].same_settings(&spaces[i - 1]),
        ensures
            forall|i: int| 0 <= i < spaces.len() ==> #[trigger] spaces[i].root() == spaces[0].root() && spaces[i].root()
                % 4096 == 0,
        decreases spaces.len(),
    {
        spaces[0].lemma_wf_root();
        if spaces.len() > 1 {
            let shorter = spaces.drop_last();
            Self::law_cr3_through_calls(shorter);
            assert forall|i: int| 0 <= i < spaces.len() implies #[trigger] spaces[i].root() == spaces[0].root() && spaces[i].root()
                % 4096 == 0 by {
                if i < spaces.len() - 1 {
                    assert(shorter[i] == spaces[i]);
                } else {
                    assert(spaces[i].same_settings(&spaces[i - 1]));
                    assert(shorter[i - 1] == spaces[i - 1]);
                }
            }
        }
    }

    /// The allocator of well-formed tables is well formed and hands out frames of their memory.
    pub proof fn lemma_wf_allocator(&self)
        requires
            self.wf(),
        ensures
            self.spec_allocator().wf(),
            self.spec_allocator().end <= self.spec_memory().byte_len(),
            self.spec_allocator().end <= physical_limit(),
    {
    }

    /// Tables whose root is a zeroed frame handed out by `allocator` are well formed and map
    /// nothing.
    pub proof fn lemma_zeroed_root(
        physical_address: u64,
        la57: bool,
        nxe: bool,
        memory: PhysicalMemory64,
        allocator: FrameAllocator,
    )
        requires
            allocator.wf(),
            allocator.end <= memory.byte_len(),
            allocator.end <= physical_limit(),
            physical_address % 4096 == 0,
            physical_address + 4096 <= allocator.next,
            forall|k: int| physical_address / 8 <= k < physical_address / 8 + 512 ==> #[trigger] memory.word(k) == 0,
        ensures
            Self::spec_from_parts(physical_address, la57, nxe, memory, allocator).wf(),
            forall|va: u64| #[trigger] Self::spec_from_parts(physical_address, la57, nxe, memory, allocator).mapping(va) is None,
            forall|va: u64, l: nat| 1 <= l <= Self::spec_from_parts(physical_address, la57, nxe, memory, allocator).top()
                ==> #[trigger] entry_at(
                memory,
                physical_address as int,
                Self::spec_from_parts(physical_address, la57, nxe, memory, allocator).top(),
                va,
                l,
            ) is None,
    {
        let space = Self::spec_from_parts(physical_address, la57, nxe, memory, allocator);
        let root = physical_address as int;
        let top = space.top();
        assert(!present64(0)) by (bit_vector);
        assert forall|va: u64, l: nat| 1 <= l <= top implies #[trigger] frame_at(memory, root, top, va, l) == if l == top {
            Some(root)
        } else {
            None::<int>
        } by {
            if l < top {
                lemma_index_bound(va, top);
                assert(memory.word(root / 8 + index_at(va, top)) == 0);
                assert(((top - 1) as nat) + 1 == top);
                assert(frame_at(memory, root, top, va, top) == Some(root));
                assert(frame_at(memory, root, top, va, (top - 1) as nat) is None);
                lemma_unreached_below(memory, root, top, va, l, (top - 1) as nat);
            }
        }
        assert forall|va: u64| #[trigger] space.mapping(va) is None by {
            assert(frame_at(memory, root, top, va, 1) is None);
        }
        assert forall|va: u64, l: nat| 1 <= l <= top implies #[trigger] entry_at(memory, root, top, va, l) is None by {
            lemma_index_bound(va, top);
            assert(memory.word(root / 8 + index_at(va, top)) == 0);
        }
    }

    /// Assembles the tables rooted at `physical_address` from the memory that holds them and the
    /// allocator of their frames.
    pub fn from_parts(
        physical_address: u64,
        la57: bool,
        nxe: bool,
        memory: PhysicalMemory64,
        allocator: FrameAllocator,
    ) -> (space: Self)
        ensures
            space == Self::spec_from_parts(physical_address, la57, nxe, memory, allocator),
    {
        X86_64AddressSpace { physical_address, la57, nxe, memory, allocator }
    }

    /// Takes the tables apart into the memory that holds them and the allocator of their frames.
    pub fn into_parts(self) -> (parts: (PhysicalMemory64, FrameAllocator))
        ensures
            parts.0 == self.spec_memory(),
            parts.1 == self.spec_allocator(),
            self == Self::spec_from_parts(self.root() as u64, self.spec_la57(), self.spec_nxe(), parts.0, parts.1),
    {
        (self.memory, self.allocator)
    }

    /// Translates `virtual_address` to its physical address by walking the tables.
    pub fn translate_virt(&self, virtual_address: u64) -> (result: Result<u64, NoMapping>)
        requires
            self.wf(),
        ensures
            match self.translation(virtual_address) {
                Some(pa) => result == Ok::<u64, NoMapping>(pa as u64) && pa <= u64::MAX,
                None => result is Err,
            },
    {
        let top: u64 = if self.la57 { 5 } else { 4 };
        let mut level: u64 = top;
        let mut frame = self.physical_address;
        while level > 1
            invariant
                self.wf(),
                top == self.top(),
                1 <= level <= top,
                frame_at(self.memory, self.physical_address as int, self.top(), virtual_address, level as nat) == Some(frame as int),
            decreases level,
        {
            proof {
                lemma_index_bound(virtual_address, level as nat);
            }
            let index = (virtual_address >> (12 + 9 * (level - 1))) & 0x1FF;
            assert(frame % 4096 == 0);
            let address = frame + index * 8;
            assert(address / 8 == frame / 8 + index);
            let e = self.memory.read_u64(address);
            if e & 1 != 1 {
                proof {
                    assert(frame_at(self.memory, self.physical_address as int, self.top(), virtual_address, (level - 1) as nat) is None);
                    lemma_unreached_below(self.memory, self.physical_address as int, self.top(), virtual_address, 1, (level - 1) as nat);
                }
                return Err(NoMapping);
            }
            frame = e & ADDRESS_MASK;
            level -= 1;
        }
        proof {
            lemma_index_bound(virtual_address, 1);
        }
        let index = (virtual_address >> 12) & 0x1FF;
        assert(frame % 4096 == 0);
        let address = frame + index * 8;
        assert(address / 8 == frame / 8 + index);
        let e = self.memory.read_u64(address);
        if e & 1 != 1 {
            return Err(NoMapping);
        }
        let page = e & ADDRESS_MASK;
        assert(page <= 0x000F_FFFF_FFFF_F000) by (bit_vector)
            requires page == e & 0x000F_FFFF_FFFF_F000;
        assert(virtual_address & 0xFFF == virtual_address % 4096) by (bit_vector);
        Ok(page + (virtual_address & 0xFFF))
    }
}


impl X86_64AddressSpace {
    /// Writes `value` into the last-level entry for the page of `virtual_address`, allocating
    /// the missing tables on the way.
    fn map_page(&mut self, virtual_address: u64, value: u64) -> (result: Result<(), MapError>)
        requires
            old(self).wf(),
        ensures
            final(self).wf(),
            final(self).same_settings(old(self)),
            upper_entries_kept(old(self).spec_memory(), final(self).spec_memory(), old(self).root(), old(self).top()),
            upper_entries_persist(old(self).spec_memory(), final(self).spec_memory(), old(self).root(), old(self).top()),
            final(self).spec_allocator().end == old(self).spec_allocator().end,
            match result {
                Ok(()) => forall|va: u64| #[trigger] final(self).mapping(va) == if same_path(va, virtual_address, 0, old(self).top()) {
                    if present64(value) {
                        Some(value)
                    } else {
                        None
                    }
                } else {
                    old(self).mapping(va)
                },
                Err(error) => {
                    &&& error == MapError::AllocationError
                    &&& !final(self).spec_allocator().can_allocate()
                    &&& frame_at(final(self).spec_memory(), final(self).root(), final(self).top(), virtual_address, 1) is None
                    &&& forall|va: u64| #[trigger] final(self).mapping(va) == old(self).mapping(va)
                },
            },
    {
        let top: u64 = if self.la57 { 5 } else { 4 };
        let mut level: u64 = top;
        let mut frame = self.physical_address;
        while level > 1
            invariant
                self.wf(),
                self.same_settings(old(self)),
                self.allocator.end == old(self).allocator.end,
                top == self.top(),
                1 <= level <= top,
                frame_at(self.memory, self.physical_address as int, self.top(), virtual_address, level as nat) == Some(frame as int),
                forall|va: u64| #[trigger] self.mapping(va) == old(self).mapping(va),
                upper_entries_kept(old(self).memory, self.memory, self.physical_address as int, self.top()),
                upper_entries_persist(old(self).memory, self.memory, self.physical_address as int, self.top()),
            decreases level,
        {
            proof {
                lemma_index_bound(virtual_address, level as nat);
            }
            let index = (virtual_address >> (12 + 9 * (level - 1))) & 0x1FF;
            assert(frame % 4096 == 0);
            let address = frame + index * 8;
            assert(address / 8 == frame / 8 + index);
            let e = self.memory.read_u64(address);
            if e & 1 != 1 {
                let ghost s0 = *self;
                let ghost m0 = self.memory;
                let ghost next0 = self.allocator.next;
                let table = match self.allocate_zeroed_table() {
                    Ok(table) => table,
                    Err(_) => {
                        proof {
                            assert(frame_at(self.memory, self.physical_address as int, self.top(), virtual_address, (level - 1) as nat)
                                is None);
                            lemma_unreached_below(self.memory, self.physical_address as int, self.top(), virtual_address, 1, (level
                                - 1) as nat);
                        }
                        return Err(MapError::AllocationError);
                    },
                };
                let ghost m1 = self.memory;
                let ghost s1 = *self;
                assert(frame_at(m1, self.physical_address as int, self.top(), virtual_address, level as nat) == Some(frame as int));
                assert(frame / 8 + index < next0 / 8);
                assert(m1.word(frame / 8 + index) == m0.word(frame / 8 + index));
                let entry = table_entry(table);
                self.memory.write_u64(address, entry);
                proof {
                    assert(address / 8 < m1.words@.len());
                    assert forall|k: int| k != frame / 8 + index_at(virtual_address, level as nat) implies #[trigger] self.memory.word(k)
                        == m1.word(k) by {}
                    lemma_link_table(m1, self.memory, self.physical_address as int, self.top(), next0 as int,
                        self.allocator.next as int, virtual_address, level as nat, table as int, entry);
                    lemma_write_outside_entries(m0, m1, self.physical_address as int, self.top(), next0 as int);
                    assert(upper_entries_kept(m0, m1, self.physical_address as int, self.top())) by {
                        assert forall|va: u64, l: nat| 2 <= l && #[trigger] entry_at(m1, self.physical_address as int, self.top(), va, l) is Some
                            implies entry_at(m1, self.physical_address as int, self.top(), va, l) == entry_at(m0, self.physical_address as int, self.top(), va, l)
                            || table_link(entry_at(m1, self.physical_address as int, self.top(), va, l)->0) by {}
                    }
                    lemma_kept_trans(old(self).memory, m0, m1, self.physical_address as int, self.top());
                    lemma_kept_trans(old(self).memory, m1, self.memory, self.physical_address as int, self.top());
                    assert(upper_entries_persist(m0, m1, self.physical_address as int, self.top()));
                    lemma_persist_trans(old(self).memory, m0, m1, self.physical_address as int, self.top());
                    lemma_persist_trans(old(self).memory, m1, self.memory, self.physical_address as int, self.top());
                    assert forall|va: u64| #[trigger] self.mapping(va) == old(self).mapping(va) by {
                        assert(leaf_entry(self.memory, self.physical_address as int, self.top(), va) == leaf_entry(
                            m1, self.physical_address as int, self.top(), va));
                        assert(s1.mapping(va) == s0.mapping(va));
                        assert(leaf_entry(m1, self.physical_address as int, self.top(), va) == s0.mapping(va));
                        assert(s0.mapping(va) == old(self).mapping(va));
                    }
                }
                frame = table;
            } else {
                frame = e & ADDRESS_MASK;
            }
            level -= 1;
        }
        proof {
            lemma_index_bound(virtual_address, 1);
        }
        let index = (virtual_address >> 12) & 0x1FF;
        assert(frame % 4096 == 0);
        let address = frame + index * 8;
        assert(address / 8 == frame / 8 + index);
        let ghost m0 = self.memory;
        let ghost s0 = *self;
        self.memory.write_u64(address, value);
        proof {
            assert(address / 8 < m0.words@.len());
            assert forall|k: int| k != frame / 8 + index_at(virtual_address, 1) implies #[trigger] self.memory.word(k) == m0.word(k) by {}
            lemma_write_leaf(m0, self.memory, self.physical_address as int, self.top(), self.allocator.next as int,
                virtual_address, value);
            assert(upper_entries_kept(m0, self.memory, self.physical_address as int, self.top()));
            lemma_kept_trans(old(self).memory, m0, self.memory, self.physical_address as int, self.top());
            assert(upper_entries_persist(m0, self.memory, self.physical_address as int, self.top()));
            lemma_persist_trans(old(self).memory, m0, self.memory, self.physical_address as int, self.top());
            assert forall|va: u64| #[trigger] self.mapping(va) == if same_path(va, virtual_address, 0, old(self).top()) {
                if present64(value) {
                    Some(value)
                } else {
                    None
                }
            } else {
                old(self).mapping(va)
            } by {
                assert(leaf_entry(m0, self.physical_address as int, self.top(), va) == s0.mapping(va));
            }
        }
        Ok(())
    }
}


impl X86_64AddressSpace {
    /// The lowest and highest address of the non-canonical hole in the middle of the address
    /// space.
    pub open spec fn hole(&self) -> (u64, u64) {
        if self.spec_la57() {
            (0x0100_0000_0000_0000, 0xFEFF_FFFF_FFFF_FFFF)
        } else {
            (0x0000_8000_0000_0000, 0xFFFF_7FFF_FFFF_FFFF)
        }
    }

    /// The `count` pages from `virtual_address` start on a page boundary and lie on one side of
    /// the non-canonical hole.
    pub open spec fn pages_in_one_half(&self, virtual_address: u64, count: nat) -> bool {
        &&& virtual_address % 4096 == 0
        &&& count > 0 ==> {
            &&& virtual_address + (count - 1) * 4096 <= u64::MAX
            &&& (virtual_address + (count - 1) * 4096 < self.hole().0 || virtual_address > self.hole().1)
        }
    }

    /// The largest physical address that a mapping may reach.
    pub open spec fn spec_max_physical_address() -> u64 {
        0xF_FFFF_FFFF_FFFF
    }

    /// The error that [`X86_64AddressSpace::map`] returns before changing any table, if any.
    pub open spec fn map_precheck(&self, virtual_address: u64, physical_address: u64, count: u64) -> Option<MapError> {
        let size = count * 4096;
        if virtual_address % 4096 != 0 || physical_address % 4096 != 0 {
            Some(MapError::AlignmentError)
        } else if size > u64::MAX {
            Some(MapError::InvalidSize)
        } else if physical_address + size > Self::spec_max_physical_address() {
            Some(MapError::WrapAroundError)
        } else if virtual_address + size > u64::MAX {
            Some(MapError::WrapAroundError)
        } else if virtual_address <= self.hole().1 && self.hole().0 <= virtual_address + size {
            Some(MapError::InvalidAddress)
        } else {
            None
        }
    }

    /// The mapping of `va` once the first `done` pages of a mapping of pages from
    /// `virtual_address` to frames from `physical_address` with `protection` are written in
    /// order.
    pub open spec fn mapped_after(
        &self,
        virtual_address: u64,
        physical_address: u64,
        protection: ProtectionFlags,
        done: nat,
        va: u64,
    ) -> Option<u64>
        decreases done,
    {
        if done == 0 {
            self.mapping(va)
        } else {
            let k = done - 1;
            if same_path(va, (virtual_address + k * 4096) as u64, 0, self.top()) {
                let v = leaf_value((physical_address + k * 4096) as u64, protection, self.spec_nxe());
                if present64(v) {
                    Some(v)
                } else {
                    None
                }
            } else {
                self.mapped_after(virtual_address, physical_address, protection, k as nat, va)
            }
        }
    }

    /// Every page of these tables maps as in `old` once the first `done` pages of the mapping
    /// are written.
    pub open spec fn shows_mapping(
        &self,
        old: &Self,
        virtual_address: u64,
        physical_address: u64,
        protection: ProtectionFlags,
        done: nat,
    ) -> bool {
        forall|va: u64| #[trigger] self.mapping(va) == old.mapped_after(virtual_address, physical_address, protection, done, va)
    }

    /// Returns the size of a page in bytes.
    pub fn page_size(&self) -> (size: u64)
        ensures
            size == 4096,
    {
        4096
    }

    /// Returns the maximum virtual address (inclusive).
    pub fn max_virtual_address(&self) -> (address: u64)
        ensures
            address == u64::MAX,
    {
        u64::MAX
    }

    /// Returns the maximum physical address (inclusive).
    pub fn max_physical_address(&self) -> (address: u64)
        ensures
            address == Self::spec_max_physical_address(),
    {
        0xF_FFFF_FFFF_FFFF
    }

    /// Returns the value of the `CR3` register that selects these tables.
    pub fn cr3(&self) -> (value: u64)
        ensures
            value == self.root(),
    {
        self.physical_address
    }

    /// Returns the physical memory that holds the tables.
    pub fn memory(&self) -> (memory: &PhysicalMemory64)
        ensures
            *memory == self.spec_memory(),
    {
        &self.memory
    }

    /// Maps `count` pages from `virtual_address` to the frames from `physical_address` with
    /// `protection`, allocating the missing tables.
    ///
    /// A page is present when readable. Mappings already in place are overwritten.
    pub fn map(&mut self, virtual_address: u64, physical_address: u64, count: u64, protection: ProtectionFlags) -> (result: Result<(), MapError>)
        requires
            old(self).wf(),
        ensures
            final(self).wf(),
            final(self).same_settings(old(self)),
            match old(self).map_precheck(virtual_address, physical_address, count) {
                Some(error) => result == Err::<(), MapError>(error) && *final(self) == *old(self),
                None => match result {
                    Ok(()) => forall|va: u64| #[trigger] final(self).mapping(va) == old(self).mapped_after(
                        virtual_address, physical_address, protection, count as nat, va),
                    Err(error) => {
                        &&& error == MapError::AllocationError
                        &&& !final(self).spec_allocator().can_allocate()
                        &&& exists|done: nat| done < count && #[trigger] final(self).shows_mapping(
                            old(self), virtual_address, physical_address, protection, done) && frame_at(
                            final(self).spec_memory(), final(self).root(), final(self).top(), (virtual_address + done * 4096) as u64,
                            1) is None
                    },
                },
            },
    {
        if virtual_address % 4096 != 0 || physical_address % 4096 != 0 {
            return Err(MapError::AlignmentError);
        }
        let size = match count.checked_mul(4096u64) {
            Some(size) => size,
            None => return Err(MapError::InvalidSize),
        };
        match physical_address.checked_add(size) {
            Some(end) => {
                if end > self.max_physical_address() {
                    return Err(MapError::WrapAroundError);
                }
            },
            None => return Err(MapError::WrapAroundError),
        }
        let virtual_end = match virtual_address.checked_add(size) {
            Some(end) => end,
            None => return Err(MapError::WrapAroundError),
        };
        let (hole_start, hole_end) = virtual_region_bounds(self.la57);
        if virtual_address <= hole_end && hole_start <= virtual_end {
            return Err(MapError::InvalidAddress);
        }
        assert(old(self).map_precheck(virtual_address, physical_address, count) is None);
        self.map_unchecked(virtual_address, physical_address, count, protection)
    }

    /// Maps `count` pages from `virtual_address` to the frames from `physical_address` with
    /// `protection`, page by page, allocating the missing tables; the arguments are not checked.
    pub(crate) fn map_unchecked(
        &mut self,
        virtual_address: u64,
        physical_address: u64,
        count: u64,
        protection: ProtectionFlags,
    ) -> (result: Result<(), MapError>)
        requires
            old(self).wf(),
            count == 0 || virtual_address + (count - 1) * 4096 <= u64::MAX,
            count == 0 || physical_address + (count - 1) * 4096 <= u64::MAX,
        ensures
            final(self).wf(),
            final(self).same_settings(old(self)),
            upper_entries_kept(old(self).spec_memory(), final(self).spec_memory(), old(self).root(), old(self).top()),
            upper_entries_persist(old(self).spec_memory(), final(self).spec_memory(), old(self).root(), old(self).top()),
            match result {
                Ok(()) => forall|va: u64| #[trigger] final(self).mapping(va) == old(self).mapped_after(
                    virtual_address, physical_address, protection, count as nat, va),
                Err(error) => {
                    &&& error == MapError::AllocationError
                    &&& !final(self).spec_allocator().can_allocate()
                    &&& exists|done: nat| done < count && #[trigger] final(self).shows_mapping(
                        old(self), virtual_address, physical_address, protection, done) && frame_at(final(self).spec_memory(),
                        final(self).root(), final(self).top(), (virtual_address + done * 4096) as u64, 1) is None
                },
            },
    {
        let nxe = self.nxe;
        let mut index: u64 = 0;
        while index < count
            invariant
                self.wf(),
                self.same_settings(old(self)),
                nxe == old(self).spec_nxe(),
                index <= count,
                count == 0 || virtual_address + (count - 1) * 4096 <= u64::MAX,
                count == 0 || physical_address + (count - 1) * 4096 <= u64::MAX,
                forall|va: u64| #[trigger] self.mapping(va) == old(self).mapped_after(
                    virtual_address, physical_address, protection, index as nat, va),
                upper_entries_kept(old(self).memory, self.memory, self.physical_address as int, self.top()),
                upper_entries_persist(old(self).memory, self.memory, self.physical_address as int, self.top()),
            decreases count - index,
        {
            let page = virtual_address + index * 4096;
            let frame = physical_address + index * 4096;
            let value = page_entry(frame, protection, nxe);
            let ghost before = *self;
            let result = self.map_page(page, value);
            proof {
                lemma_kept_trans(old(self).memory, before.memory, self.memory, self.physical_address as int, self.top());
                lemma_persist_trans(old(self).memory, before.memory, self.memory, self.physical_address as int, self.top());
            }
            match result {
                Ok(()) => {},
                Err(error) => {
                    proof {
                        assert forall|va: u64| #[trigger] self.mapping(va) == old(self).mapped_after(
                            virtual_address, physical_address, protection, index as nat, va) by {
                            assert(before.mapping(va) == old(self).mapped_after(
                                virtual_address, physical_address, protection, index as nat, va));
                        }
                        assert(self.shows_mapping(old(self), virtual_address, physical_address, protection, index as nat));
                        assert(page == (virtual_address + index * 4096) as u64);
                    }
                    return Err(error);
                },
            }
            proof {
                assert forall|va: u64| #[trigger] self.mapping(va) == old(self).mapped_after(
                    virtual_address, physical_address, protection, (index + 1) as nat, va) by {
                    assert(before.mapping(va) == old(self).mapped_after(
                        virtual_address, physical_address, protection, index as nat, va));
                }
            }
            index += 1;
        }
        Ok(())
    }
}


impl X86_64AddressSpace {
    /// The mapping of `va` once the first `done` pages from `virtual_address` are unmapped.
    pub open spec fn unmapped_after(&self, virtual_address: u64, done: nat, va: u64) -> Option<u64>
        decreases done,
    {
        if done == 0 {
            self.mapping(va)
        } else if same_path(va, (virtual_address + (done - 1) * 4096) as u64, 0, self.top()) {
            None
        } else {
            self.unmapped_after(virtual_address, (done - 1) as nat, va)
        }
    }

    /// Clears the last-level entry for the page of `virtual_address`, if the walk reaches it.
    fn unmap_page(&mut self, virtual_address: u64)
        requires
            old(self).wf(),
        ensures
            final(self).wf(),
            final(self).same_settings(old(self)),
            final(self).spec_allocator() == old(self).spec_allocator(),
            forall|va: u64, l: nat| 2 <= l ==> #[trigger] entry_at(final(self).spec_memory(), final(self).root(), final(self).top(),
                va, l) == entry_at(old(self).spec_memory(), old(self).root(), old(self).top(), va, l),
            forall|va: u64| #[trigger] final(self).mapping(va) == if same_path(va, virtual_address, 0, old(self).top()) {
                None
            } else {
                old(self).mapping(va)
            },
    {
        let top: u64 = if self.la57 { 5 } else { 4 };
        let mut level: u64 = top;
        let mut frame = self.physical_address;
        while level > 1
            invariant
                self.wf(),
                *self == *old(self),
                top == self.top(),
                1 <= level <= top,
                frame_at(self.memory, self.physical_address as int, self.top(), virtual_address, level as nat) == Some(frame as int),
            decreases level,
        {
            proof {
                lemma_index_bound(virtual_address, level as nat);
            }
            let index = (virtual_address >> (12 + 9 * (level - 1))) & 0x1FF;
            assert(frame % 4096 == 0);
            let address = frame + index * 8;
            assert(address / 8 == frame / 8 + index);
            let e = self.memory.read_u64(address);
            if e & 1 != 1 {
                proof {
                    let m = self.memory;
                    let root = self.physical_address as int;
                    assert(frame_at(m, root, self.top(), virtual_address, (level - 1) as nat) is None);
                    lemma_unreached_below(m, root, self.top(), virtual_address, 1, (level - 1) as nat);
                    assert forall|va: u64| same_path(va, virtual_address, 0, self.top()) implies #[trigger] self.mapping(va) is None by {
                        assert(same_path(va, virtual_address, 1, self.top()));
                        lemma_frame_at_path(m, root, self.top(), va, virtual_address, 1);
                    }
                }
                return;
            }
            frame = e & ADDRESS_MASK;
            level -= 1;
        }
        proof {
            lemma_index_bound(virtual_address, 1);
        }
        let index = (virtual_address >> 12) & 0x1FF;
        assert(frame % 4096 == 0);
        let address = frame + index * 8;
        assert(address / 8 == frame / 8 + index);
        let ghost m0 = self.memory;
        let ghost s0 = *self;
        self.memory.write_u64(address, 0);
        proof {
            assert(address / 8 < m0.words@.len());
            assert forall|k: int| k != frame / 8 + index_at(virtual_address, 1) implies #[trigger] self.memory.word(k) == m0.word(k) by {}
            lemma_write_leaf(m0, self.memory, self.physical_address as int, self.top(), self.allocator.next as int,
                virtual_address, 0);
            assert(!present64(0)) by (bit_vector);
            assert forall|va: u64| #[trigger] self.mapping(va) == if same_path(va, virtual_address, 0, old(self).top()) {
                None
            } else {
                old(self).mapping(va)
            } by {
                assert(leaf_entry(m0, self.physical_address as int, self.top(), va) == s0.mapping(va));
            }
        }
    }

    /// Unmaps `count` pages starting at `virtual_address`.
    pub fn unmap(&mut self, virtual_address: u64, count: u64)
        requires
            old(self).wf(),
            count == 0 || virtual_address + (count - 1) * 4096 <= u64::MAX,
        ensures
            final(self).wf(),
            final(self).same_settings(old(self)),
            final(self).spec_allocator() == old(self).spec_allocator(),
            forall|va: u64, l: nat| 2 <= l ==> #[trigger] entry_at(final(self).spec_memory(), final(self).root(), final(self).top(),
                va, l) == entry_at(old(self).spec_memory(), old(self).root(), old(self).top(), va, l),
            forall|va: u64| #[trigger] final(self).mapping(va) == old(self).unmapped_after(virtual_address, count as nat, va),
    {
        let mut index: u64 = 0;
        while index < count
            invariant
                self.wf(),
                self.same_settings(old(self)),
                self.spec_allocator() == old(self).spec_allocator(),
                forall|va: u64, l: nat| 2 <= l ==> #[trigger] entry_at(self.memory, self.physical_address as int, self.top(),
                    va, l) == entry_at(old(self).memory, old(self).physical_address as int, old(self).top(), va, l),
                index <= count,
                count == 0 || virtual_address + (count - 1) * 4096 <= u64::MAX,
                forall|va: u64| #[trigger] self.mapping(va) == old(self).unmapped_after(virtual_address, index as nat, va),
            decreases count - index,
        {
            let ghost before = *self;
            self.unmap_page(virtual_address + index * 4096);
            proof {
                assert forall|va: u64, l: nat| 2 <= l implies #[trigger] entry_at(self.memory, self.physical_address as int,
                    self.top(), va, l) == entry_at(old(self).memory, old(self).physical_address as int, old(self).top(), va, l) by {
                    assert(entry_at(before.memory, before.physical_address as int, before.top(), va, l) == entry_at(
                        old(self).memory, old(self).physical_address as int, old(self).top(), va, l));
                }
                assert forall|va: u64| #[trigger] self.mapping(va) == old(self).unmapped_after(virtual_address, (index + 1) as nat, va) by {
                    assert(before.mapping(va) == old(self).unmapped_after(virtual_address, index as nat, va));
                }
            }
            index += 1;
        }
    }

    /// `count` pages from `virtual_address` are all unmapped.
    pub open spec fn region_free(&self, virtual_address: int, count: int) -> bool {
        forall|i: int| 0 <= i < count ==> #[trigger] self.translation((virtual_address + i * 4096) as u64) is None
    }

    /// A region of `count` pages at `virtual_address` is a candidate for
    /// [`X86_64AddressSpace::find_region`]: it starts on a page boundary past the first page and
    /// ends within the address space.
    pub open spec fn region_candidate(virtual_address: int, count: int) -> bool {
        &&& virtual_address % 4096 == 0
        &&& 4096 <= virtual_address
        &&& virtual_address + count * 4096 <= u64::MAX
    }

    /// Returns the lowest page-aligned virtual address past the first page at which `count`
    /// unmapped pages fit.
    pub fn find_region(&self, count: u64) -> (result: Result<u64, NotFound>)
        requires
            self.wf(),
        ensures
            match result {
                Ok(address) => {
                    &&& Self::region_candidate(address as int, count as int)
                    &&& self.region_free(address as int, count as int)
                    &&& forall|a: int| Self::region_candidate(a, count as int) && a < address
                        ==> !#[trigger] self.region_free(a, count as int)
                },
                Err(_) => forall|a: int| #[trigger] Self::region_candidate(a, count as int)
                    ==> !self.region_free(a, count as int),
            },
    {
        let max_va = self.max_virtual_address();
        let page_size = self.page_size();
        let mut current = page_size;
        loop
            invariant
                self.wf(),
                max_va == u64::MAX,
                page_size == 4096,
                current % 4096 == 0,
                4096 <= current,
                forall|a: int| Self::region_candidate(a, count as int) && a < current
                    ==> !#[trigger] self.region_free(a, count as int),
            decreases u64::MAX - current,
        {
            let fits = match count.checked_mul(page_size) {
                Some(size) => match current.checked_add(size) {
                    Some(max_region_va) => max_region_va <= max_va,
                    None => false,
                },
                None => false,
            };
            if !fits {
                assert forall|a: int| #[trigger] Self::region_candidate(a, count as int) implies !self.region_free(
                    a,
                    count as int,
                ) by {
                    assert(a < current);
                }
                return Err(NotFound);
            }
            let mut free = true;
            let mut i: u64 = 0;
            while free && i < count
                invariant
                    self.wf(),
                    page_size == 4096,
                    i <= count,
                    current + count * 4096 <= u64::MAX,
                    forall|k: int| 0 <= k < i ==> #[trigger] self.translation((current + k * 4096) as u64) is None,
                    !free ==> i < count && self.translation((current + i * 4096) as u64) is Some,
                decreases count - i + if free { 1int } else { 0int },
            {
                if self.translate_virt(current + i * page_size).is_ok() {
                    free = false;
                } else {
                    i += 1;
                }
            }
            if free {
                assert(self.region_free(current as int, count as int));
                return Ok(current);
            }
            let mapped = current + i * page_size;
            assert(self.translation(mapped) is Some);
            proof {
                assert forall|a: int| Self::region_candidate(a, count as int) && a < current + (i + 1) * 4096
                    implies !#[trigger] self.region_free(a, count as int) by {
                    if a >= current {
                        let k = (mapped - a) / 4096;
                        assert(mapped - a == k * 4096);
                        assert(0 <= k < count);
                        assert((a + k * 4096) as u64 == mapped);
                    }
                }
            }
            current = current + (i + 1) * page_size;
        }
    }
}


/// An address and its page start select the same entries at every level.
pub proof fn lemma_offset_path(page: u64, offset: u64, top: nat)
    requires
        page % 4096 == 0,
        offset < 4096,
        page + offset <= u64::MAX,
        top <= 5,
    ensures
        same_path((page + offset) as u64, page, 0, top),
{
    let a = (page + offset) as u64;
    assert forall|l: nat| 0 < l <= top implies #[trigger] index_at(a, l) == index_at(page, l) by {
        assert(12 + 9 * (l - 1) <= 48);
        let sh = (12 + 9 * (l - 1)) as u64;
        assert(sh >= 12);
        assert(page % 4096 == 0 && offset < 4096 && sh >= 12 && a == page + offset ==> (a >> sh) & 0x1FF == (page >> sh)
            & 0x1FF) by (bit_vector);
    }
}

/// Two page starts on the same side of the non-canonical hole that select the same entries at
/// every level are the same page.
pub proof fn lemma_pages_distinct(a: u64, b: u64, la57: bool)
    requires
        a % 4096 == 0,
        b % 4096 == 0,
        same_path(a, b, 0, if la57 { 5nat } else { 4nat }),
        !la57 ==> (a < 0x0000_8000_0000_0000 && b < 0x0000_8000_0000_0000) || (a > 0xFFFF_7FFF_FFFF_FFFF && b
            > 0xFFFF_7FFF_FFFF_FFFF),
        la57 ==> (a < 0x0100_0000_0000_0000 && b < 0x0100_0000_0000_0000) || (a > 0xFEFF_FFFF_FFFF_FFFF && b
            > 0xFEFF_FFFF_FFFF_FFFF),
    ensures
        a == b,
{
    let top: nat = if la57 { 5 } else { 4 };
    assert(index_at(a, 1) == index_at(b, 1));
    assert(index_at(a, 2) == index_at(b, 2));
    assert(index_at(a, 3) == index_at(b, 3));
    assert(index_at(a, 4) == index_at(b, 4));
    if la57 {
        assert(index_at(a, 5) == index_at(b, 5));
        assert(a % 4096 == 0 && b % 4096 == 0 && (a >> 12u64) & 0x1FF == (b >> 12u64) & 0x1FF && (a >> 21u64) & 0x1FF == (b
            >> 21u64) & 0x1FF && (a >> 30u64) & 0x1FF == (b >> 30u64) & 0x1FF && (a >> 39u64) & 0x1FF == (b >> 39u64) & 0x1FF
            && (a >> 48u64) & 0x1FF == (b >> 48u64) & 0x1FF && ((a < 0x0100_0000_0000_0000 && b < 0x0100_0000_0000_0000) || (a
            > 0xFEFF_FFFF_FFFF_FFFF && b > 0xFEFF_FFFF_FFFF_FFFF)) ==> a == b) by (bit_vector);
    } else {
        assert(a % 4096 == 0 && b % 4096 == 0 && (a >> 12u64) & 0x1FF == (b >> 12u64) & 0x1FF && (a >> 21u64) & 0x1FF == (b
            >> 21u64) & 0x1FF && (a >> 30u64) & 0x1FF == (b >> 30u64) & 0x1FF && (a >> 39u64) & 0x1FF == (b >> 39u64) & 0x1FF
            && ((a < 0x0000_8000_0000_0000 && b < 0x0000_8000_0000_0000) || (a > 0xFFFF_7FFF_FFFF_FFFF && b
            > 0xFFFF_7FFF_FFFF_FFFF)) ==> a == b) by (bit_vector);
    }
}

/// Later pages of a mapping on one side of the hole do not share the path of an earlier one.
pub proof fn lemma_mapped_after_page(
    space: &X86_64AddressSpace,
    virtual_address: u64,
    physical_address: u64,
    protection: ProtectionFlags,
    count: nat,
    k: nat,
    va: u64,
)
    requires
        space.pages_in_one_half(virtual_address, count),
        k < count,
        same_path(va, (virtual_address + k * 4096) as u64, 0, space.top()),
    ensures
        space.mapped_after(virtual_address, physical_address, protection, count, va) == {
            let v = leaf_value((physical_address + k * 4096) as u64, protection, space.spec_nxe());
            if present64(v) {
                Some(v)
            } else {
                None
            }
        },
    decreases count,
{
    let last = (count - 1) as nat;
    if last != k {
        let a = (virtual_address + last * 4096) as u64;
        let b = (virtual_address + k * 4096) as u64;
        if same_path(va, a, 0, space.top()) {
            assert(same_path(a, b, 0, space.top())) by {
                assert forall|l: nat| 0 < l <= space.top() implies #[trigger] index_at(a, l) == index_at(b, l) by {
                    assert(index_at(va, l) == index_at(a, l));
                    assert(index_at(va, l) == index_at(b, l));
                }
            }
            assert(a % 4096 == 0 && b % 4096 == 0) by {
                assert((virtual_address + last * 4096) % 4096 == 0);
                assert((virtual_address + k * 4096) % 4096 == 0);
            }
            lemma_pages_distinct(a, b, space.spec_la57());
            assert(false);
        }
        lemma_mapped_after_page(space, virtual_address, physical_address, protection, last, k, va);
    }
}

/// After a successful [`X86_64AddressSpace::map`] of readable pages, every address of the mapped
/// region translates to the matching physical address.
pub proof fn law_map_then_translate(
    before: &X86_64AddressSpace,
    after: &X86_64AddressSpace,
    virtual_address: u64,
    physical_address: u64,
    count: u64,
    protection: ProtectionFlags,
    address: u64,
)
    requires
        before.map_precheck(virtual_address, physical_address, count) is None,
        after.shows_mapping(before, virtual_address, physical_address, protection, count as nat),
        protection.has(PROTECTION_READ),
        virtual_address <= address < virtual_address + count * 4096,
    ensures
        after.translation(address) == Some(physical_address + (address - virtual_address)),
{
    let d = address - virtual_address;
    let k = (d / 4096) as nat;
    let offset = (d % 4096) as u64;
    assert(d == k * 4096 + offset);
    assert(k < count) by (nonlinear_arith)
        requires d == k * 4096 + offset, 0 <= offset, d < count * 4096;
    let page = (virtual_address + k * 4096) as u64;
    assert(page % 4096 == 0) by {
        assert((virtual_address + k * 4096) % 4096 == 0);
    }
    assert(address == page + offset);
    lemma_offset_path(page, offset, before.top());
    assert(before.pages_in_one_half(virtual_address, count as nat));
    lemma_mapped_after_page(before, virtual_address, physical_address, protection, count as nat, k, address);
    let frame = (physical_address + k * 4096) as u64;
    assert(frame % 4096 == 0) by {
        assert((physical_address + k * 4096) % 4096 == 0);
    }
    lemma_leaf_value(frame, protection, before.spec_nxe());
    assert(after.mapping(address) == Some(leaf_value(frame, protection, before.spec_nxe())));
    assert(address % 4096 == offset);
}

/// After [`X86_64AddressSpace::unmap`], no address of the unmapped region translates.
pub proof fn law_unmap_then_translate(
    before: &X86_64AddressSpace,
    after: &X86_64AddressSpace,
    virtual_address: u64,
    count: u64,
    address: u64,
)
    requires
        virtual_address % 4096 == 0,
        after.top() == before.top(),
        forall|va: u64| #[trigger] after.mapping(va) == before.unmapped_after(virtual_address, count as nat, va),
        virtual_address <= address < virtual_address + count * 4096,
    ensures
        after.translation(address) is None,
{
    let d = address - virtual_address;
    let k = (d / 4096) as nat;
    let offset = (d % 4096) as u64;
    assert(d == k * 4096 + offset);
    assert(k < count) by (nonlinear_arith)
        requires d == k * 4096 + offset, 0 <= offset, d < count * 4096;
    let page = (virtual_address + k * 4096) as u64;
    assert(page % 4096 == 0) by {
        assert((virtual_address + k * 4096) % 4096 == 0);
    }
    lemma_offset_path(page, offset, before.top());
    lemma_unmapped_after_page(before, virtual_address, count as nat, k, address);
}

/// A page that one of the unmapped pages shares the path of is unmapped.
pub proof fn lemma_unmapped_after_page(space: &X86_64AddressSpace, virtual_address: u64, count: nat, k: nat, va: u64)
    requires
        k < count,
        same_path(va, (virtual_address + k * 4096) as u64, 0, space.top()),
    ensures
        space.unmapped_after(virtual_address, count, va) is None,
    decreases count,
{
    if (count - 1) as nat != k {
        if !same_path(va, (virtual_address + (count - 1) * 4096) as u64, 0, space.top()) {
            lemma_unmapped_after_page(space, virtual_address, (count - 1) as nat, k, va);
        }
    }
}

} // verus!
