//! PAE paging: the three-level tables of 64-bit entries that translate 32-bit addresses, how
//! the hardware walks them, and how mapping and unmapping edit them.
use vstd::prelude::*;

use crate::descriptor::AddressSpaceDescriptor;
use crate::long_mode::{address64, block64, lemma_frame_words, present64, writable64, xd64};
use crate::paging::{ChunkRange, MapError, MappingType, Permissions, TranslationScheme};
use crate::physical_memory::{FrameAllocator, PhysicalMemory64};
use crate::x86_paging::{range_end, range_fits, range_start, LongModeTranslationScheme, PaeTranslationScheme};

verus! {

/// The index of `va` into the page directory pointer table.
pub open spec fn pdpt_index(va: u64) -> int {
    ((va >> 30u64) & 3) as int
}

/// The index of `va` into its page directory.
pub open spec fn pd_index(va: u64) -> int {
    ((va >> 21u64) & 0x1FF) as int
}

/// The index of `va` into its page table.
pub open spec fn pt_index(va: u64) -> int {
    ((va >> 12u64) & 0x1FF) as int
}

/// The directory entry sets one of the bits 52 to 62, which PAE paging reserves in an entry
/// that points to a page table.
pub open spec fn reserved64(e: u64) -> bool {
    e & 0x7FF0_0000_0000_0000 != 0
}

/// The page directory that entry `i` of the pointer table at `root` points to, if present.
pub open spec fn pd_frame(m: PhysicalMemory64, root: int, i: int) -> Option<int> {
    let e = m.word((root + 8 * i) / 8);
    if present64(e) {
        Some(address64(e) as int)
    } else {
        None
    }
}

/// Entry `j` of the page directory of pointer table entry `i`, if present.
pub open spec fn pde_at(m: PhysicalMemory64, root: int, i: int, j: int) -> Option<u64> {
    match pd_frame(m, root, i) {
        None => None,
        Some(t) => {
            let e = m.word(t / 8 + j);
            if present64(e) {
                Some(e)
            } else {
                None
            }
        },
    }
}

/// The page table that directory entry `(i, j)` points to, if it is present and does not map
/// a large page.
pub open spec fn pt_frame(m: PhysicalMemory64, root: int, i: int, j: int) -> Option<int> {
    match pde_at(m, root, i, j) {
        None => None,
        Some(e) => if block64(e) {
            None
        } else {
            Some(address64(e) as int)
        },
    }
}

/// Entry `k` of the page table of directory entry `(i, j)`, if present.
pub open spec fn pte_at(m: PhysicalMemory64, root: int, i: int, j: int, k: int) -> Option<u64> {
    match pt_frame(m, root, i, j) {
        None => None,
        Some(t) => {
            let e = m.word(t / 8 + k);
            if present64(e) {
                Some(e)
            } else {
                None
            }
        },
    }
}

/// What the hardware walk of the tables at `root` in `m` gives for `va`: the permissions (a
/// page is writable where both its directory and table entries allow it, and executable where
/// `nxe` is clear, which leaves the execute-disable bit unused, or neither entry sets that bit),
/// the memory type and the physical address; a 2 MiB page
/// where the directory entry maps one. `None` for an address beyond 32 bits, an entry that is
/// not present, or a directory entry with reserved bits.
pub open spec fn pae_walk(m: PhysicalMemory64, root: int, nxe: bool, va: u64) -> Option<(Permissions, MappingType, u64)> {
    if va > 0xFFFF_FFFF || root + 8 * pdpt_index(va) > u64::MAX {
        None
    } else {
        match pde_at(m, root, pdpt_index(va), pd_index(va)) {
            None => None,
            Some(e) => if block64(e) {
                Some(
                    (
                        Permissions::from_access_spec(writable64(e), !nxe || !xd64(e)),
                        MappingType::Normal,
                        ((e & 0x000F_FFFF_FFE0_0000) + va % 0x20_0000) as u64,
                    ),
                )
            } else if reserved64(e) {
                None
            } else {
                match pte_at(m, root, pdpt_index(va), pd_index(va), pt_index(va)) {
                    None => None,
                    Some(p) => Some(
                        (
                            Permissions::from_access_spec(writable64(e) && writable64(p), !nxe || (!xd64(e) && !xd64(p))),
                            MappingType::Normal,
                            (address64(p) + va % 4096) as u64,
                        ),
                    ),
                }
            },
        }
    }
}

/// A frame of the tables: aligned, below `next` and not the pointer table at `root`.
pub open spec fn table_frame(t: int, root: int, next: int) -> bool {
    &&& t % 4096 == 0
    &&& 0 <= t
    &&& t + 4096 <= next
    &&& t != root
}

/// The tables at `root` are laid out as this library builds them: every table that a walk
/// reaches is an aligned frame below `next`, reached from one entry only, and no directory
/// entry sets reserved bits, and every directory entry that points to a page table allows writes
/// and execution below it.
pub open spec fn pae_tables_wf(m: PhysicalMemory64, root: int, next: int) -> bool {
    &&& root % 4096 == 0
    &&& 0 <= root
    &&& root + 4096 <= next
    &&& next <= 0x1_0000_0000
    &&& forall|i: int| 0 <= i < 4 && #[trigger] pd_frame(m, root, i) is Some ==> table_frame(pd_frame(m, root, i)->0, root, next)
    &&& forall|i1: int, i2: int|
        0 <= i1 < 4 && 0 <= i2 < 4 && #[trigger] pd_frame(m, root, i1) is Some && #[trigger] pd_frame(m, root, i2) == pd_frame(
            m,
            root,
            i1,
        ) ==> i1 == i2
    &&& forall|i: int, j: int| 0 <= i < 4 && 0 <= j < 512 && #[trigger] pt_frame(m, root, i, j) is Some ==> {
        &&& table_frame(pt_frame(m, root, i, j)->0, root, next)
        &&& forall|k: int| 0 <= k < 4 ==> #[trigger] pd_frame(m, root, k) != pt_frame(m, root, i, j)
    }
    &&& forall|i1: int, j1: int, i2: int, j2: int|
        0 <= i1 < 4 && 0 <= j1 < 512 && 0 <= i2 < 4 && 0 <= j2 < 512 && #[trigger] pt_frame(m, root, i1, j1) is Some
            && #[trigger] pt_frame(m, root, i2, j2) == pt_frame(m, root, i1, j1) ==> i1 == i2 && j1 == j2
    &&& forall|i: int, j: int| 0 <= i < 4 && 0 <= j < 512 && #[trigger] pde_at(m, root, i, j) is Some ==> !reserved64(
        pde_at(m, root, i, j)->0,
    ) && (!block64(pde_at(m, root, i, j)->0) ==> writable64(pde_at(m, root, i, j)->0) && !xd64(pde_at(m, root, i, j)->0))
}

/// The value of a table entry of the pointer table: present, pointing to `t`.
pub open spec fn pdpte_value(t: u64) -> u64 {
    t | 1
}

/// The value of a directory entry that points to the table `t`: present and writable.
pub open spec fn pde_value(t: u64) -> u64 {
    t | 3
}

/// The value of a page table entry that maps the frame `frame`: present, writable as asked and
/// with the execute-disable bit as asked.
pub open spec fn pte_value(frame: u64, writable: bool, xd: bool) -> u64 {
    frame | 1 | (if writable { 2u64 } else { 0u64 }) | (if xd { 0x8000_0000_0000_0000u64 } else { 0u64 })
}

/// Facts of the bits of addresses and entries.
pub proof fn lemma_pae_bits(va: u64, vb: u64, t: u64, e: u64, w: u64, x: u64)
    by (bit_vector)
    ensures
        (va >> 30u64) & 3 < 4,
        (va >> 21u64) & 0x1FF < 512,
        (va >> 12u64) & 0x1FF < 512,
        va <= 0xFFFF_FFFF && vb <= 0xFFFF_FFFF ==> (((va >> 30u64) & 3 == (vb >> 30u64) & 3 && (va >> 21u64) & 0x1FF == (
        vb >> 21u64) & 0x1FF && (va >> 12u64) & 0x1FF == (vb >> 12u64) & 0x1FF) == (va >> 12u64 == vb >> 12u64)),
        va >> 12u64 == va / 4096,
        va & 0xFFF == va % 4096,
        (t & 0xFFF == 0) == (t % 4096 == 0),
        t & 0xFFF == 0 && t <= 0xFFFF_F000 ==> (t | 1) & 1 == 1 && (t | 1) & 0x000F_FFFF_FFFF_F000 == t && (t | 3) & 1 == 1
            && (t | 3) & 2 == 2 && (t | 3) & 0x80 != 0x80 && (t | 3) & 0x7FF0_0000_0000_0000 == 0 && (t | 3)
            & 0x8000_0000_0000_0000 != 0x8000_0000_0000_0000 && (t | 3) & 0x000F_FFFF_FFFF_F000 == t,
        t & 0xFFF == 0 && t <= 0x000F_FFFF_FFFF_F000 && (w == 0 || w == 2) && (x == 0 || x == 0x8000_0000_0000_0000) ==> (t | 1
            | w | x) & 1 == 1 && ((t | 1 | w | x) & 2 == 2) == (w == 2) && ((t | 1 | w | x) & 0x8000_0000_0000_0000
            == 0x8000_0000_0000_0000) == (x == 0x8000_0000_0000_0000) && (t | 1 | w | x) & 0x000F_FFFF_FFFF_F000 == t,
        0u64 & 1 != 1,
        (e & 0x000F_FFFF_FFFF_F000) & 0xFFF == 0,
        e & 0x000F_FFFF_FFFF_F000 <= 0x000F_FFFF_FFFF_F000,
        e & 0x000F_FFFF_FFE0_0000 <= 0x000F_FFFF_FFE0_0000,
{
}

/// The entry values that mapping writes have the fields they are meant to have.
pub proof fn lemma_entry_values(t: u64, frame: u64, writable: bool, xd: bool)
    requires
        t % 4096 == 0,
        t <= 0xFFFF_F000,
        frame % 4096 == 0,
        frame <= 0x000F_FFFF_FFFF_F000,
    ensures
        present64(pdpte_value(t)),
        address64(pdpte_value(t)) == t,
        present64(pde_value(t)),
        writable64(pde_value(t)),
        !block64(pde_value(t)),
        !reserved64(pde_value(t)),
        !xd64(pde_value(t)),
        address64(pde_value(t)) == t,
        present64(pte_value(frame, writable, xd)),
        writable64(pte_value(frame, writable, xd)) == writable,
        xd64(pte_value(frame, writable, xd)) == xd,
        address64(pte_value(frame, writable, xd)) == frame,
        !present64(0),
{
    let w: u64 = if writable { 2 } else { 0 };
    let x: u64 = if xd { 0x8000_0000_0000_0000 } else { 0 };
    lemma_pae_bits(0, 0, t, 0, w, x);
    lemma_pae_bits(0, 0, frame, 0, w, x);
    assert(pte_value(frame, writable, xd) == frame | 1 | w | x);
}

/// The indices of an address lie within their tables, and two addresses of 32 bits share
/// their indices exactly when they share their page.
pub proof fn lemma_indices(va: u64, vb: u64)
    ensures
        0 <= pdpt_index(va) < 4,
        0 <= pd_index(va) < 512,
        0 <= pt_index(va) < 512,
        va <= 0xFFFF_FFFF && vb <= 0xFFFF_FFFF ==> ((pdpt_index(va) == pdpt_index(vb) && pd_index(va) == pd_index(vb)
            && pt_index(va) == pt_index(vb)) == (va / 4096 == vb / 4096)),
        va & 0xFFF == va % 4096,
{
    lemma_pae_bits(va, vb, 0, 0, 0, 0);
    lemma_pae_bits(vb, va, 0, 0, 0, 0);
}

/// The address field of an entry is an aligned frame below 2^52.
pub proof fn lemma_address_field(e: u64)
    ensures
        address64(e) % 4096 == 0,
        address64(e) <= 0x000F_FFFF_FFFF_F000,
        e & 0x000F_FFFF_FFE0_0000 <= 0x000F_FFFF_FFE0_0000,
{
    lemma_pae_bits(0, 0, address64(e), e, 0, 0);
}


/// The two memories hold the same directory and page table entries for the tables at `root`.
pub open spec fn same_leaves(m1: PhysicalMemory64, m2: PhysicalMemory64, root: int) -> bool {
    &&& forall|i: int, j: int| 0 <= i < 4 && 0 <= j < 512 ==> #[trigger] pde_at(m2, root, i, j) == pde_at(m1, root, i, j)
    &&& forall|i: int, j: int, k: int|
        0 <= i < 4 && 0 <= j < 512 && 0 <= k < 512 ==> #[trigger] pte_at(m2, root, i, j, k) == pte_at(m1, root, i, j, k)
}

/// Walks only read directory and page table entries.
pub proof fn lemma_same_leaves_walk(m1: PhysicalMemory64, m2: PhysicalMemory64, root: int, nxe: bool, va: u64)
    requires
        same_leaves(m1, m2, root),
    ensures
        pae_walk(m2, root, nxe, va) == pae_walk(m1, root, nxe, va),
{
    lemma_indices(va, va);
    assert(pde_at(m2, root, pdpt_index(va), pd_index(va)) == pde_at(m1, root, pdpt_index(va), pd_index(va)));
    assert(pte_at(m2, root, pdpt_index(va), pd_index(va), pt_index(va)) == pte_at(m1, root, pdpt_index(va), pd_index(va), pt_index(va)));
}

/// Changing only the words of a frame at or above `next` changes none of the tables at `root`.
pub proof fn lemma_fresh_frame_apart(m1: PhysicalMemory64, m2: PhysicalMemory64, root: int, next: int, f: int)
    requires
        pae_tables_wf(m1, root, next),
        f % 4096 == 0,
        next <= f,
        forall|k: int| !(f / 8 <= k < f / 8 + 512) ==> #[trigger] m2.word(k) == m1.word(k),
    ensures
        forall|i: int| 0 <= i < 4 ==> #[trigger] pd_frame(m2, root, i) == pd_frame(m1, root, i),
        forall|i: int, j: int| 0 <= i < 4 && 0 <= j < 512 ==> #[trigger] pt_frame(m2, root, i, j) == pt_frame(m1, root, i, j),
        same_leaves(m1, m2, root),
        pae_tables_wf(m2, root, next),
{
    assert forall|i: int| 0 <= i < 4 implies #[trigger] pd_frame(m2, root, i) == pd_frame(m1, root, i) by {
        assert((root + 8 * i) / 8 == root / 8 + i);
        assert(m2.word(root / 8 + i) == m1.word(root / 8 + i));
    }
    assert forall|i: int, j: int| 0 <= i < 4 && 0 <= j < 512 implies #[trigger] pde_at(m2, root, i, j) == pde_at(m1, root, i, j) by {
        assert(pd_frame(m2, root, i) == pd_frame(m1, root, i));
        if let Some(t) = pd_frame(m1, root, i) {
            assert(m2.word(t / 8 + j) == m1.word(t / 8 + j));
        }
    }
    assert forall|i: int, j: int| 0 <= i < 4 && 0 <= j < 512 implies #[trigger] pt_frame(m2, root, i, j) == pt_frame(m1, root, i, j) by {
        assert(pde_at(m2, root, i, j) == pde_at(m1, root, i, j));
    }
    assert forall|i: int, j: int, k: int| 0 <= i < 4 && 0 <= j < 512 && 0 <= k < 512 implies #[trigger] pte_at(m2, root, i, j, k)
        == pte_at(m1, root, i, j, k) by {
        assert(pt_frame(m2, root, i, j) == pt_frame(m1, root, i, j));
        if let Some(t) = pt_frame(m1, root, i, j) {
            assert(m2.word(t / 8 + k) == m1.word(t / 8 + k));
        }
    }
    lemma_wf_transfer(m1, m2, root, next);
}

/// Tables with the same frames and directory entries are laid out alike.
proof fn lemma_wf_transfer(m1: PhysicalMemory64, m2: PhysicalMemory64, root: int, next: int)
    requires
        pae_tables_wf(m1, root, next),
        forall|i: int| 0 <= i < 4 ==> #[trigger] pd_frame(m2, root, i) == pd_frame(m1, root, i),
        forall|i: int, j: int| 0 <= i < 4 && 0 <= j < 512 ==> #[trigger] pt_frame(m2, root, i, j) == pt_frame(m1, root, i, j),
        forall|i: int, j: int| 0 <= i < 4 && 0 <= j < 512 ==> #[trigger] pde_at(m2, root, i, j) == pde_at(m1, root, i, j),
    ensures
        pae_tables_wf(m2, root, next),
{
    assert forall|i1: int, i2: int|
        0 <= i1 < 4 && 0 <= i2 < 4 && #[trigger] pd_frame(m2, root, i1) is Some && #[trigger] pd_frame(m2, root, i2) == pd_frame(
            m2,
            root,
            i1,
        ) implies i1 == i2 by {
        assert(pd_frame(m2, root, i1) == pd_frame(m1, root, i1));
        assert(pd_frame(m2, root, i2) == pd_frame(m1, root, i2));
    }
    assert forall|i: int, j: int| 0 <= i < 4 && 0 <= j < 512 && #[trigger] pt_frame(m2, root, i, j) is Some implies {
        &&& table_frame(pt_frame(m2, root, i, j)->0, root, next)
        &&& forall|k: int| 0 <= k < 4 ==> #[trigger] pd_frame(m2, root, k) != pt_frame(m2, root, i, j)
    } by {
        assert(pt_frame(m2, root, i, j) == pt_frame(m1, root, i, j));
        assert forall|k: int| 0 <= k < 4 implies #[trigger] pd_frame(m2, root, k) != pt_frame(m2, root, i, j) by {
            assert(pd_frame(m2, root, k) == pd_frame(m1, root, k));
        }
    }
    assert forall|i1: int, j1: int, i2: int, j2: int|
        0 <= i1 < 4 && 0 <= j1 < 512 && 0 <= i2 < 4 && 0 <= j2 < 512 && #[trigger] pt_frame(m2, root, i1, j1) is Some
            && #[trigger] pt_frame(m2, root, i2, j2) == pt_frame(m2, root, i1, j1) implies i1 == i2 && j1 == j2 by {
        assert(pt_frame(m2, root, i1, j1) == pt_frame(m1, root, i1, j1));
        assert(pt_frame(m2, root, i2, j2) == pt_frame(m1, root, i2, j2));
    }
    assert forall|i: int| 0 <= i < 4 && #[trigger] pd_frame(m2, root, i) is Some implies table_frame(pd_frame(m2, root, i)->0, root, next) by {
        assert(pd_frame(m2, root, i) == pd_frame(m1, root, i));
    }
    assert forall|i: int, j: int| 0 <= i < 4 && 0 <= j < 512 && #[trigger] pde_at(m2, root, i, j) is Some implies !reserved64(
        pde_at(m2, root, i, j)->0,
    ) by {
        assert(pde_at(m2, root, i, j) == pde_at(m1, root, i, j));
    }
}


/// Pointing a free entry of the pointer table to a zeroed frame `t` changes no walk, keeps every
/// present directory entry and keeps the tables laid out as built, with `t` taken.
pub proof fn lemma_link_directory(m1: PhysicalMemory64, m2: PhysicalMemory64, root: int, next: int, i0: int, t: u64)
    requires
        pae_tables_wf(m1, root, next),
        0 <= i0 < 4,
        pd_frame(m1, root, i0) is None,
        t % 4096 == 0,
        next <= t,
        t + 4096 <= 0x1_0000_0000,
        forall|k: int| t / 8 <= k < t / 8 + 512 ==> #[trigger] m1.word(k) == 0,
        forall|k: int| #[trigger] m2.word(k) == if k == root / 8 + i0 { pdpte_value(t) } else { m1.word(k) },
    ensures
        pae_tables_wf(m2, root, t + 4096),
        same_leaves(m1, m2, root),
        pd_frame(m2, root, i0) == Some(t as int),
{
    lemma_entry_values(t, 0, false, false);
    assert forall|i: int| 0 <= i < 4 implies #[trigger] pd_frame(m2, root, i) == if i == i0 {
        Some(t as int)
    } else {
        pd_frame(m1, root, i)
    } by {
        assert((root + 8 * i) / 8 == root / 8 + i);
    }
    assert forall|i: int, j: int| 0 <= i < 4 && 0 <= j < 512 implies #[trigger] pde_at(m2, root, i, j) == pde_at(m1, root, i, j) by {
        if i == i0 {
            if t / 8 + j == root / 8 + i0 {
                lemma_frame_words(t as int, j, root, i0);
            }
            assert(m2.word(t / 8 + j) == 0);
        } else if let Some(d) = pd_frame(m1, root, i) {
            if d / 8 + j == root / 8 + i0 {
                lemma_frame_words(d, j, root, i0);
            }
        }
    }
    assert forall|i: int, j: int| 0 <= i < 4 && 0 <= j < 512 implies #[trigger] pt_frame(m2, root, i, j) == pt_frame(m1, root, i, j) by {
        assert(pde_at(m2, root, i, j) == pde_at(m1, root, i, j));
    }
    assert forall|i: int, j: int, k: int| 0 <= i < 4 && 0 <= j < 512 && 0 <= k < 512 implies #[trigger] pte_at(m2, root, i, j, k)
        == pte_at(m1, root, i, j, k) by {
        assert(pt_frame(m2, root, i, j) == pt_frame(m1, root, i, j));
        if let Some(p) = pt_frame(m1, root, i, j) {
            if p / 8 + k == root / 8 + i0 {
                lemma_frame_words(p, k, root, i0);
            }
        }
    }
    let next2 = t + 4096;
    assert forall|i: int| 0 <= i < 4 && #[trigger] pd_frame(m2, root, i) is Some implies table_frame(pd_frame(m2, root, i)->0, root, next2) by {
        assert(pd_frame(m2, root, i) == if i == i0 { Some(t as int) } else { pd_frame(m1, root, i) });
    }
    assert forall|i1: int, i2: int|
        0 <= i1 < 4 && 0 <= i2 < 4 && #[trigger] pd_frame(m2, root, i1) is Some && #[trigger] pd_frame(m2, root, i2) == pd_frame(
            m2,
            root,
            i1,
        ) implies i1 == i2 by {
        assert(pd_frame(m2, root, i1) == if i1 == i0 { Some(t as int) } else { pd_frame(m1, root, i1) });
        assert(pd_frame(m2, root, i2) == if i2 == i0 { Some(t as int) } else { pd_frame(m1, root, i2) });
    }
    assert forall|i: int, j: int| 0 <= i < 4 && 0 <= j < 512 && #[trigger] pt_frame(m2, root, i, j) is Some implies {
        &&& table_frame(pt_frame(m2, root, i, j)->0, root, next2)
        &&& forall|k: int| 0 <= k < 4 ==> #[trigger] pd_frame(m2, root, k) != pt_frame(m2, root, i, j)
    } by {
        assert(pt_frame(m2, root, i, j) == pt_frame(m1, root, i, j));
        assert forall|k: int| 0 <= k < 4 implies #[trigger] pd_frame(m2, root, k) != pt_frame(m2, root, i, j) by {
            assert(pd_frame(m2, root, k) == if k == i0 { Some(t as int) } else { pd_frame(m1, root, k) });
        }
    }
    assert forall|i1: int, j1: int, i2: int, j2: int|
        0 <= i1 < 4 && 0 <= j1 < 512 && 0 <= i2 < 4 && 0 <= j2 < 512 && #[trigger] pt_frame(m2, root, i1, j1) is Some
            && #[trigger] pt_frame(m2, root, i2, j2) == pt_frame(m2, root, i1, j1) implies i1 == i2 && j1 == j2 by {
        assert(pt_frame(m2, root, i1, j1) == pt_frame(m1, root, i1, j1));
        assert(pt_frame(m2, root, i2, j2) == pt_frame(m1, root, i2, j2));
    }
    assert forall|i: int, j: int| 0 <= i < 4 && 0 <= j < 512 && #[trigger] pde_at(m2, root, i, j) is Some implies !reserved64(
        pde_at(m2, root, i, j)->0,
    ) by {
        assert(pde_at(m2, root, i, j) == pde_at(m1, root, i, j));
    }
}


/// Pointing a free entry `(i0, j0)` of a present directory to a zeroed frame `t` changes no
/// walk, keeps every present directory entry and keeps the tables laid out as built, with `t`
/// taken.
pub proof fn lemma_link_table(m1: PhysicalMemory64, m2: PhysicalMemory64, root: int, next: int, i0: int, j0: int, t: u64)
    requires
        pae_tables_wf(m1, root, next),
        0 <= i0 < 4,
        0 <= j0 < 512,
        pd_frame(m1, root, i0) is Some,
        pde_at(m1, root, i0, j0) is None,
        t % 4096 == 0,
        next <= t,
        t + 4096 <= 0x1_0000_0000,
        forall|k: int| t / 8 <= k < t / 8 + 512 ==> #[trigger] m1.word(k) == 0,
        forall|k: int| #[trigger] m2.word(k) == if k == pd_frame(m1, root, i0)->0 / 8 + j0 { pde_value(t) } else { m1.word(k) },
    ensures
        pae_tables_wf(m2, root, t + 4096),
        forall|i: int, j: int| 0 <= i < 4 && 0 <= j < 512 && #[trigger] pde_at(m1, root, i, j) is Some ==> pde_at(m2, root, i, j)
            == pde_at(m1, root, i, j),
        forall|va: u64, nxe: bool| #[trigger] pae_walk(m2, root, nxe, va) == pae_walk(m1, root, nxe, va),
        pde_at(m2, root, i0, j0) == Some(pde_value(t)),
        pt_frame(m2, root, i0, j0) == Some(t as int),
{
    lemma_entry_values(t, 0, false, false);
    let d = pd_frame(m1, root, i0)->0;
    assert(table_frame(d, root, next));
    assert forall|i: int| 0 <= i < 4 implies #[trigger] pd_frame(m2, root, i) == pd_frame(m1, root, i) by {
        assert((root + 8 * i) / 8 == root / 8 + i);
        if root / 8 + i == d / 8 + j0 {
            lemma_frame_words(root, i, d, j0);
        }
    }
    assert forall|i: int, j: int| 0 <= i < 4 && 0 <= j < 512 implies #[trigger] pde_at(m2, root, i, j) == if i == i0 && j == j0 {
        Some(pde_value(t))
    } else {
        pde_at(m1, root, i, j)
    } by {
        assert(pd_frame(m2, root, i) == pd_frame(m1, root, i));
        if i == i0 {
            if j != j0 {
                assert(d / 8 + j != d / 8 + j0);
            }
        } else if let Some(d2) = pd_frame(m1, root, i) {
            if d2 / 8 + j == d / 8 + j0 {
                lemma_frame_words(d2, j, d, j0);
            }
        }
    }
    assert forall|i: int, j: int| 0 <= i < 4 && 0 <= j < 512 implies #[trigger] pt_frame(m2, root, i, j) == if i == i0 && j == j0 {
        Some(t as int)
    } else {
        pt_frame(m1, root, i, j)
    } by {
        assert(pde_at(m2, root, i, j) == if i == i0 && j == j0 { Some(pde_value(t)) } else { pde_at(m1, root, i, j) });
    }
    assert forall|i: int, j: int, k: int| 0 <= i < 4 && 0 <= j < 512 && 0 <= k < 512 implies #[trigger] pte_at(m2, root, i, j, k)
        == pte_at(m1, root, i, j, k) by {
        assert(pt_frame(m2, root, i, j) == if i == i0 && j == j0 { Some(t as int) } else { pt_frame(m1, root, i, j) });
        if i == i0 && j == j0 {
            if t / 8 + k == d / 8 + j0 {
                lemma_frame_words(t as int, k, d, j0);
            }
            assert(m2.word(t / 8 + k) == 0);
        } else if let Some(p) = pt_frame(m1, root, i, j) {
            assert(pd_frame(m1, root, i0) != pt_frame(m1, root, i, j));
            if p / 8 + k == d / 8 + j0 {
                lemma_frame_words(p, k, d, j0);
            }
        }
    }
    assert forall|va: u64, nxe: bool| #[trigger] pae_walk(m2, root, nxe, va) == pae_walk(m1, root, nxe, va) by {
        lemma_indices(va, va);
        let i = pdpt_index(va);
        let j = pd_index(va);
        assert(pde_at(m2, root, i, j) == if i == i0 && j == j0 { Some(pde_value(t)) } else { pde_at(m1, root, i, j) });
        assert(pte_at(m2, root, i, j, pt_index(va)) == pte_at(m1, root, i, j, pt_index(va)));
    }
    let next2 = t + 4096;
    assert forall|i: int| 0 <= i < 4 && #[trigger] pd_frame(m2, root, i) is Some implies table_frame(pd_frame(m2, root, i)->0, root, next2) by {
        assert(pd_frame(m2, root, i) == pd_frame(m1, root, i));
    }
    assert forall|i1: int, i2: int|
        0 <= i1 < 4 && 0 <= i2 < 4 && #[trigger] pd_frame(m2, root, i1) is Some && #[trigger] pd_frame(m2, root, i2) == pd_frame(
            m2,
            root,
            i1,
        ) implies i1 == i2 by {
        assert(pd_frame(m2, root, i1) == pd_frame(m1, root, i1));
        assert(pd_frame(m2, root, i2) == pd_frame(m1, root, i2));
    }
    assert forall|i: int, j: int| 0 <= i < 4 && 0 <= j < 512 && #[trigger] pt_frame(m2, root, i, j) is Some implies {
        &&& table_frame(pt_frame(m2, root, i, j)->0, root, next2)
        &&& forall|k: int| 0 <= k < 4 ==> #[trigger] pd_frame(m2, root, k) != pt_frame(m2, root, i, j)
    } by {
        assert(pt_frame(m2, root, i, j) == if i == i0 && j == j0 { Some(t as int) } else { pt_frame(m1, root, i, j) });
        assert forall|k: int| 0 <= k < 4 implies #[trigger] pd_frame(m2, root, k) != pt_frame(m2, root, i, j) by {
            assert(pd_frame(m2, root, k) == pd_frame(m1, root, k));
        }
    }
    assert forall|i1: int, j1: int, i2: int, j2: int|
        0 <= i1 < 4 && 0 <= j1 < 512 && 0 <= i2 < 4 && 0 <= j2 < 512 && #[trigger] pt_frame(m2, root, i1, j1) is Some
            && #[trigger] pt_frame(m2, root, i2, j2) == pt_frame(m2, root, i1, j1) implies i1 == i2 && j1 == j2 by {
        assert(pt_frame(m2, root, i1, j1) == if i1 == i0 && j1 == j0 { Some(t as int) } else { pt_frame(m1, root, i1, j1) });
        assert(pt_frame(m2, root, i2, j2) == if i2 == i0 && j2 == j0 { Some(t as int) } else { pt_frame(m1, root, i2, j2) });
    }
    assert forall|i: int, j: int| 0 <= i < 4 && 0 <= j < 512 && #[trigger] pde_at(m2, root, i, j) is Some implies !reserved64(
        pde_at(m2, root, i, j)->0,
    ) by {
        assert(pde_at(m2, root, i, j) == if i == i0 && j == j0 { Some(pde_value(t)) } else { pde_at(m1, root, i, j) });
    }
    assert forall|i: int, j: int| 0 <= i < 4 && 0 <= j < 512 && #[trigger] pde_at(m1, root, i, j) is Some implies pde_at(m2, root, i, j)
        == pde_at(m1, root, i, j) by {
        assert(pde_at(m2, root, i, j) == if i == i0 && j == j0 { Some(pde_value(t)) } else { pde_at(m1, root, i, j) });
    }
}


/// What the walk gives for `va` once its page table entry holds `v` under the directory entry
/// `e`: the page that `v` maps, if `v` is present.
pub open spec fn leaf_walk(e: u64, v: u64, nxe: bool, va: u64) -> Option<(Permissions, MappingType, u64)> {
    if present64(v) {
        Some(
            (
                Permissions::from_access_spec(writable64(e) && writable64(v), !nxe || (!xd64(e) && !xd64(v))),
                MappingType::Normal,
                (address64(v) + va % 4096) as u64,
            ),
        )
    } else {
        None
    }
}

/// Writing `v` to the page table entry of `va` changes the walks of the page of `va` only, to
/// what `v` maps, keeps every directory entry and keeps the tables laid out as built.
pub proof fn lemma_write_leaf(m1: PhysicalMemory64, m2: PhysicalMemory64, root: int, next: int, va: u64, v: u64)
    requires
        pae_tables_wf(m1, root, next),
        va <= 0xFFFF_FFFF,
        pt_frame(m1, root, pdpt_index(va), pd_index(va)) is Some,
        forall|k: int| #[trigger] m2.word(k) == if k == pt_frame(m1, root, pdpt_index(va), pd_index(va))->0 / 8 + pt_index(va) {
            v
        } else {
            m1.word(k)
        },
    ensures
        pae_tables_wf(m2, root, next),
        forall|i: int, j: int| 0 <= i < 4 && 0 <= j < 512 ==> #[trigger] pde_at(m2, root, i, j) == pde_at(m1, root, i, j),
        forall|vb: u64, nxe: bool| #[trigger] pae_walk(m2, root, nxe, vb) == if vb <= 0xFFFF_FFFF && vb / 4096 == va / 4096 {
            leaf_walk(pde_at(m1, root, pdpt_index(va), pd_index(va))->0, v, nxe, vb)
        } else {
            pae_walk(m1, root, nxe, vb)
        },
{
    lemma_indices(va, va);
    let i0 = pdpt_index(va);
    let j0 = pd_index(va);
    let k0 = pt_index(va);
    let p = pt_frame(m1, root, i0, j0)->0;
    assert(table_frame(p, root, next));
    assert forall|i: int| 0 <= i < 4 implies #[trigger] pd_frame(m2, root, i) == pd_frame(m1, root, i) by {
        assert((root + 8 * i) / 8 == root / 8 + i);
        if root / 8 + i == p / 8 + k0 {
            lemma_frame_words(root, i, p, k0);
        }
    }
    assert forall|i: int, j: int| 0 <= i < 4 && 0 <= j < 512 implies #[trigger] pde_at(m2, root, i, j) == pde_at(m1, root, i, j) by {
        assert(pd_frame(m2, root, i) == pd_frame(m1, root, i));
        if let Some(d) = pd_frame(m1, root, i) {
            assert(pd_frame(m1, root, i) != pt_frame(m1, root, i0, j0));
            if d / 8 + j == p / 8 + k0 {
                lemma_frame_words(d, j, p, k0);
            }
        }
    }
    assert forall|i: int, j: int| 0 <= i < 4 && 0 <= j < 512 implies #[trigger] pt_frame(m2, root, i, j) == pt_frame(m1, root, i, j) by {
        assert(pde_at(m2, root, i, j) == pde_at(m1, root, i, j));
    }
    assert forall|i: int, j: int, k: int| 0 <= i < 4 && 0 <= j < 512 && 0 <= k < 512 implies #[trigger] pte_at(m2, root, i, j, k)
        == if i == i0 && j == j0 && k == k0 {
        if present64(v) {
            Some(v)
        } else {
            None
        }
    } else {
        pte_at(m1, root, i, j, k)
    } by {
        assert(pt_frame(m2, root, i, j) == pt_frame(m1, root, i, j));
        if i == i0 && j == j0 {
            if k != k0 {
                assert(p / 8 + k != p / 8 + k0);
            }
        } else if let Some(p2) = pt_frame(m1, root, i, j) {
            if p2 / 8 + k == p / 8 + k0 {
                lemma_frame_words(p2, k, p, k0);
            }
        }
    }
    assert forall|vb: u64, nxe: bool| #[trigger] pae_walk(m2, root, nxe, vb) == if vb <= 0xFFFF_FFFF && vb / 4096 == va / 4096 {
        leaf_walk(pde_at(m1, root, i0, j0)->0, v, nxe, vb)
    } else {
        pae_walk(m1, root, nxe, vb)
    } by {
        lemma_indices(vb, va);
        let i = pdpt_index(vb);
        let j = pd_index(vb);
        let k = pt_index(vb);
        assert(pde_at(m2, root, i, j) == pde_at(m1, root, i, j));
        assert(pte_at(m2, root, i, j, k) == if i == i0 && j == j0 && k == k0 {
            if present64(v) {
                Some(v)
            } else {
                None
            }
        } else {
            pte_at(m1, root, i, j, k)
        });
        if vb <= 0xFFFF_FFFF && vb / 4096 == va / 4096 {
            assert(pde_at(m1, root, i0, j0) is Some);
            assert(!reserved64(pde_at(m1, root, i0, j0)->0));
            assert(root + 8 * i0 <= u64::MAX);
        }
    }
    lemma_wf_transfer(m1, m2, root, next);
}


impl PaeTranslationScheme {
    /// What translating `address` with the tables held in `memory` gives.
    pub open spec fn spec_translate(&self, memory: PhysicalMemory64, address: u64) -> Option<(Permissions, MappingType, u64)> {
        pae_walk(memory, self.spec_cr3() as int, self.spec_nxe(), address)
    }

    /// The tables of this scheme, held in `memory` with frames from `allocator`, are laid out as
    /// this library builds them, below 4 GiB.
    pub open spec fn tables_wf(&self, memory: PhysicalMemory64, allocator: FrameAllocator) -> bool {
        &&& allocator.wf()
        &&& allocator.end <= memory.byte_len()
        &&& allocator.end <= 0x1_0000_0000
        &&& pae_tables_wf(memory, self.spec_cr3() as int, allocator.next as int)
    }

    /// Translates `address` by walking the tables held in `memory`, returning the permissions,
    /// the memory type and the physical address of its mapping.
    pub fn translate(&self, memory: &PhysicalMemory64, address: u64) -> (result: Option<(Permissions, MappingType, u64)>)
        ensures
            result == self.spec_translate(*memory, address),
    {
        if address > 0xFFFF_FFFF {
            return None;
        }
        proof {
            lemma_indices(address, address);
        }
        let pdpte_index = (address >> 30) & 0b11;
        let pde_index = (address >> 21) & 0x1FF;
        let pte_index = (address >> 12) & 0x1FF;
        let pdpte_address = match self.cr3().checked_add(pdpte_index * 8) {
            Some(pdpte_address) => pdpte_address,
            None => return None,
        };
        let pdpte = memory.read_u64(pdpte_address);
        if pdpte & 1 != 1 {
            return None;
        }
        let directory = pdpte & 0x000F_FFFF_FFFF_F000;
        proof {
            lemma_address_field(pdpte);
            assert((directory + pde_index * 8) / 8 == directory / 8 + pde_index);
        }
        let pde = memory.read_u64(directory + pde_index * 8);
        if pde & 1 != 1 {
            return None;
        }
        let nxe = self.nxe();
        let mut writable = pde & 2 == 2;
        let mut executable = !nxe || pde & 0x8000_0000_0000_0000 != 0x8000_0000_0000_0000;
        if pde & 0x80 == 0x80 {
            proof {
                lemma_address_field(pde);
            }
            let offset = address % 0x20_0000;
            return Some((Permissions::from_access(writable, executable), MappingType::Normal, (pde & 0x000F_FFFF_FFE0_0000) + offset));
        }
        if pde & 0x7FF0_0000_0000_0000 != 0 {
            return None;
        }
        let table = pde & 0x000F_FFFF_FFFF_F000;
        proof {
            lemma_address_field(pde);
            assert((table + pte_index * 8) / 8 == table / 8 + pte_index);
        }
        let pte = memory.read_u64(table + pte_index * 8);
        if pte & 1 != 1 {
            return None;
        }
        writable = writable && pte & 2 == 2;
        executable = executable && (!nxe || pte & 0x8000_0000_0000_0000 != 0x8000_0000_0000_0000);
        proof {
            lemma_address_field(pte);
        }
        let offset = address & 0xFFF;
        Some((Permissions::from_access(writable, executable), MappingType::Normal, (pte & 0x000F_FFFF_FFFF_F000) + offset))
    }
}


impl PaeTranslationScheme {
    /// Hands out the next frame of `allocator` as a table and zeroes it in `memory`.
    pub fn allocate_zeroed_table(memory: &mut PhysicalMemory64, allocator: &mut FrameAllocator) -> (table: Option<u64>)
        requires
            old(allocator).wf(),
            old(allocator).end <= old(memory).byte_len(),
        ensures
            final(allocator).wf(),
            final(allocator).end == old(allocator).end,
            final(memory).words@.len() == old(memory).words@.len(),
            match table {
                Some(t) => {
                    &&& old(allocator).can_allocate()
                    &&& t == old(allocator).next
                    &&& final(allocator).next == t + 4096
                    &&& forall|k: int| t / 8 <= k < t / 8 + 512 ==> #[trigger] final(memory).word(k) == 0
                    &&& forall|k: int| !(t / 8 <= k < t / 8 + 512) ==> #[trigger] final(memory).word(k) == old(memory).word(k)
                },
                None => !old(allocator).can_allocate() && *final(memory) == *old(memory) && *final(allocator)
                    == *old(allocator),
            },
    {
        LongModeTranslationScheme::allocate_zeroed_table(memory, allocator)
    }

    /// Points the page table entry of `va` to `leaf`, adding the missing directory and table
    /// from `allocator`.
    fn map_page(&self, memory: &mut PhysicalMemory64, allocator: &mut FrameAllocator, va: u64, leaf: u64) -> (result: Result<(), MapError>)
        requires
            self.tables_wf(*old(memory), *old(allocator)),
            va <= 0xFFFF_FFFF,
            self.spec_translate(*old(memory), va) is None,
            present64(leaf),
        ensures
            self.tables_wf(*final(memory), *final(allocator)),
            final(allocator).end == old(allocator).end,
            forall|i: int, j: int| 0 <= i < 4 && 0 <= j < 512 && #[trigger] pde_at(*old(memory), self.spec_cr3() as int, i, j) is Some
                ==> pde_at(*final(memory), self.spec_cr3() as int, i, j) == pde_at(*old(memory), self.spec_cr3() as int, i, j),
            result is Ok ==> !self.misses_table(*final(memory), va),
            match result {
                Ok(()) => forall|vb: u64| #[trigger] self.spec_translate(*final(memory), vb) == if vb <= 0xFFFF_FFFF && vb / 4096
                    == va / 4096 {
                    leaf_walk(
                        pde_at(*final(memory), self.spec_cr3() as int, pdpt_index(va), pd_index(va))->0,
                        leaf,
                        self.spec_nxe(),
                        vb,
                    )
                } else {
                    self.spec_translate(*old(memory), vb)
                },
                Err(error) => {
                    &&& error == MapError::FrameAllocation
                    &&& !final(allocator).can_allocate()
                    &&& pt_frame(*final(memory), self.spec_cr3() as int, pdpt_index(va), pd_index(va)) is None
                    &&& forall|vb: u64| #[trigger] self.spec_translate(*final(memory), vb) == self.spec_translate(*old(memory), vb)
                },
            },
    {
        let ghost root = self.spec_cr3() as int;
        let ghost nxe = self.spec_nxe();
        let ghost m0 = *memory;
        proof {
            lemma_indices(va, va);
        }
        let pdpte_index = (va >> 30) & 0b11;
        let pde_index = (va >> 21) & 0x1FF;
        let pte_index = (va >> 12) & 0x1FF;
        let pdpte_address = self.cr3() + pdpte_index * 8;
        assert(pdpte_address / 8 == root / 8 + pdpte_index);
        let pdpte = memory.read_u64(pdpte_address);
        let directory = if pdpte & 1 != 1 {
            let table = match Self::allocate_zeroed_table(memory, allocator) {
                Some(table) => table,
                None => {
                    assert(pd_frame(*memory, root, pdpte_index as int) is None);
                    return Err(MapError::FrameAllocation);
                },
            };
            let ghost m1 = *memory;
            proof {
                lemma_fresh_frame_apart(m0, m1, root, old(allocator).next as int, table as int);
            }
            memory.write_u64(pdpte_address, table | 1);
            proof {
                let m2 = *memory;
                assert forall|k: int| #[trigger] m2.word(k) == if k == root / 8 + pdpte_index { pdpte_value(table) } else { m1.word(k) } by {}
                lemma_link_directory(m1, m2, root, old(allocator).next as int, pdpte_index as int, table);
                assert forall|vb: u64| #[trigger] pae_walk(m2, root, nxe, vb) == pae_walk(m0, root, nxe, vb) by {
                    lemma_same_leaves_walk(m1, m2, root, nxe, vb);
                    lemma_same_leaves_walk(m0, m1, root, nxe, vb);
                }
                assert forall|i: int, j: int| 0 <= i < 4 && 0 <= j < 512 implies #[trigger] pde_at(m2, root, i, j) == pde_at(m0, root, i, j) by {
                    assert(pde_at(m2, root, i, j) == pde_at(m1, root, i, j));
                    assert(pde_at(m1, root, i, j) == pde_at(m0, root, i, j));
                }
            }
            table
        } else {
            proof {
                lemma_address_field(pdpte);
            }
            pdpte & 0x000F_FFFF_FFFF_F000
        };
        let ghost ma = *memory;
        assert(pd_frame(ma, root, pdpte_index as int) == Some(directory as int));
        assert(pae_tables_wf(ma, root, allocator.next as int));
        assert(forall|vb: u64| #[trigger] pae_walk(ma, root, nxe, vb) == pae_walk(m0, root, nxe, vb));
        let pde_address = directory + pde_index * 8;
        assert(pde_address / 8 == directory / 8 + pde_index);
        let pde = memory.read_u64(pde_address);
        let table = if pde & 1 != 1 {
            let table = match Self::allocate_zeroed_table(memory, allocator) {
                Some(table) => table,
                None => {
                    assert(pde_at(*memory, root, pdpte_index as int, pde_index as int) is None);
                    return Err(MapError::FrameAllocation);
                },
            };
            let ghost mb = *memory;
            proof {
                lemma_fresh_frame_apart(ma, mb, root, table as int, table as int);
            }
            memory.write_u64(pde_address, table | 3);
            proof {
                let mc = *memory;
                assert(pd_frame(mb, root, pdpte_index as int) == Some(directory as int));
                assert forall|k: int| #[trigger] mc.word(k) == if k == directory / 8 + pde_index { pde_value(table) } else { mb.word(k) } by {}
                assert(pde_at(mb, root, pdpte_index as int, pde_index as int) == pde_at(ma, root, pdpte_index as int, pde_index as int));
                lemma_link_table(mb, mc, root, table as int, pdpte_index as int, pde_index as int, table);
                assert forall|vb: u64| #[trigger] pae_walk(mc, root, nxe, vb) == pae_walk(m0, root, nxe, vb) by {
                    lemma_same_leaves_walk(ma, mb, root, nxe, vb);
                }
            }
            table
        } else {
            proof {
                lemma_address_field(pde);
                assert(pde_at(ma, root, pdpte_index as int, pde_index as int) == Some(pde));
                assert(!block64(pde));
            }
            pde & 0x000F_FFFF_FFFF_F000
        };
        let ghost mc = *memory;
        assert(pt_frame(mc, root, pdpte_index as int, pde_index as int) == Some(table as int));
        let pte_address = table + pte_index * 8;
        assert(pte_address / 8 == table / 8 + pte_index);
        memory.write_u64(pte_address, leaf);
        proof {
            let md = *memory;
            assert forall|k: int| #[trigger] md.word(k) == if k == table / 8 + pte_index { leaf } else { mc.word(k) } by {}
            lemma_write_leaf(mc, md, root, allocator.next as int, va, leaf);
        }
        Ok(())
    }
}


/// What the walk gives for `va` once its page maps `frame` with `permissions` under the
/// directory entry `e`: writable where `e` and `permissions` allow it, executable where `nxe` is
/// clear, or where `e` does not forbid it and `permissions` allow it.
pub open spec fn mapped_walk(e: u64, frame: u64, permissions: Permissions, nxe: bool, va: u64) -> Option<(Permissions, MappingType, u64)> {
    Some(
        (
            Permissions::from_access_spec(
                writable64(e) && permissions.spec_writable(),
                !nxe || (!xd64(e) && permissions.spec_executable()),
            ),
            MappingType::Normal,
            (frame + va % 4096) as u64,
        ),
    )
}

impl PaeTranslationScheme {
    /// [`PaeTranslationScheme::map_at`] maps `input` to `output` with the tables in `memory`:
    /// both ranges are valid and of the same size and no page of `input` is mapped.
    pub open spec fn map_at_accepts(&self, memory: PhysicalMemory64, input: ChunkRange, output: ChunkRange) -> bool {
        &&& AddressSpaceDescriptor::spec_new(32, false).spec_is_valid_range(range_start(input), range_end(input))
        &&& AddressSpaceDescriptor::spec_new(self.spec_physical_bits(), false).spec_is_valid_range(
            range_start(output),
            range_end(output),
        )
        &&& input.count == output.count
        &&& forall|k: int| 0 <= k < input.count ==> #[trigger] self.spec_translate(memory, ((input.start + k) * 4096) as u64) is None
    }

    /// The walk for `va` in `memory` lacks the page table of its last level.
    pub open spec fn misses_table(&self, memory: PhysicalMemory64, va: u64) -> bool {
        pt_frame(memory, self.spec_cr3() as int, pdpt_index(va), pd_index(va)) is None
    }

    /// `va` lies in one of the first `count` pages of `input`.
    pub open spec fn in_pages(input: ChunkRange, count: int, va: u64) -> bool {
        va <= 0xFFFF_FFFF && input.start <= va / 4096 < input.start + count
    }

    /// What translating `va` gives once the first `count` pages of `input` are mapped to the
    /// frames of `output` with `permissions` over the tables `before`, the directory entries
    /// being those of `after`.
    pub open spec fn mapped_after(
        &self,
        before: PhysicalMemory64,
        after: PhysicalMemory64,
        input: ChunkRange,
        output: ChunkRange,
        permissions: Permissions,
        count: int,
        va: u64,
    ) -> Option<(Permissions, MappingType, u64)> {
        if Self::in_pages(input, count, va) {
            mapped_walk(
                pde_at(after, self.spec_cr3() as int, pdpt_index(va), pd_index(va))->0,
                ((output.start + (va / 4096 - input.start)) * 4096) as u64,
                permissions,
                self.spec_nxe(),
                va,
            )
        } else {
            self.spec_translate(before, va)
        }
    }

    /// The tables `after` show the first `done` pages of `input` mapped over `before`.
    pub open spec fn shows_mapping(
        &self,
        before: PhysicalMemory64,
        after: PhysicalMemory64,
        input: ChunkRange,
        output: ChunkRange,
        permissions: Permissions,
        done: int,
    ) -> bool {
        forall|va: u64| #[trigger] self.spec_translate(after, va) == self.mapped_after(before, after, input, output, permissions, done, va)
    }

    /// Maps the frames of `output` to the pages of `input` with `permissions`, in the tables held
    /// in `memory`, allocating the missing tables from `allocator`.
    pub fn map_at(
        &mut self,
        memory: &mut PhysicalMemory64,
        allocator: &mut FrameAllocator,
        input: ChunkRange,
        output: ChunkRange,
        permissions: Permissions,
        mapping_type: MappingType,
    ) -> (result: Result<(), MapError>)
        requires
            old(self).tables_wf(*old(memory), *old(allocator)),
            old(self).spec_physical_bits() <= 52,
            range_fits(input),
            range_fits(output),
        ensures
            *final(self) == *old(self),
            final(self).tables_wf(*final(memory), *final(allocator)),
            !old(self).map_at_accepts(*old(memory), input, output) ==> result == Err::<(), MapError>(
                MapError::FindFreeRegionError) && *final(memory) == *old(memory) && *final(allocator) == *old(allocator),
            old(self).map_at_accepts(*old(memory), input, output) && result is Ok ==> forall|k: int| 0 <= k < input.count
                ==> !#[trigger] old(self).misses_table(*final(memory), ((input.start + k) * 4096) as u64),
            old(self).map_at_accepts(*old(memory), input, output) ==> match result {
                Ok(()) => forall|va: u64| #[trigger] final(self).spec_translate(*final(memory), va) == old(self).mapped_after(
                    *old(memory),
                    *final(memory),
                    input,
                    output,
                    permissions,
                    input.count as int,
                    va,
                ),
                Err(error) => {
                    &&& error == MapError::FrameAllocation
                    &&& !final(allocator).can_allocate()
                    &&& exists|done: int| 0 <= done < input.count && #[trigger] old(self).shows_mapping(
                        *old(memory),
                        *final(memory),
                        input,
                        output,
                        permissions,
                        done,
                    ) && old(self).misses_table(*final(memory), ((input.start + done) * 4096) as u64)
                },
            },
    {
        proof {
            AddressSpaceDescriptor::lemma_spec_new(32, false);
            AddressSpaceDescriptor::lemma_spec_new(self.spec_physical_bits(), false);
            vstd::arithmetic::power2::lemma2_to64();
        }
        let input_start = input.start * 4096;
        let input_end = input_start + (input.count - 1) * 4096 + 4095;
        if !self.input_descriptor().is_valid_range(input_start, input_end) {
            return Err(MapError::FindFreeRegionError);
        }
        let output_start = output.start * 4096;
        let output_end = output_start + (output.count - 1) * 4096 + 4095;
        if !self.output_descriptor().is_valid_range(output_start, output_end) {
            return Err(MapError::FindFreeRegionError);
        }
        if input.count != output.count {
            return Err(MapError::FindFreeRegionError);
        }
        proof {
            vstd::arithmetic::power2::lemma2_to64_rest();
            if self.spec_physical_bits() < 52 {
                vstd::arithmetic::power2::lemma_pow2_strictly_increases(self.spec_physical_bits() as nat, 52);
            }
        }
        assert(output_end <= 0x000F_FFFF_FFFF_FFFF);
        let mut k: u64 = 0;
        while k < input.count
            invariant
                *memory == *old(memory),
                *allocator == *old(allocator),
                *self == *old(self),
                self.tables_wf(*memory, *allocator),
                output_end <= 0x000F_FFFF_FFFF_FFFF,
                input_start == input.start * 4096,
                input_end == range_end(input),
                input_end <= 0xFFFF_FFFF,
                range_fits(input),
                k <= input.count,
                forall|i: int| 0 <= i < k ==> #[trigger] self.spec_translate(*memory, ((input.start + i) * 4096) as u64) is None,
            decreases input.count - k,
        {
            assert(input_start + k * 4096 == (input.start + k) * 4096);
            if self.translate(memory, input_start + k * 4096).is_some() {
                return Err(MapError::FindFreeRegionError);
            }
            k += 1;
        }
        self.map_pages(memory, allocator, input, output, permissions)
    }
}


impl PaeTranslationScheme {
    /// Mapping the page `k` of `input` keeps what the mapping of the pages before it shows.
    proof fn lemma_map_step(
        &self,
        m0: PhysicalMemory64,
        before: PhysicalMemory64,
        after: PhysicalMemory64,
        input: ChunkRange,
        output: ChunkRange,
        permissions: Permissions,
        k: int,
        leaf: u64,
        mapped: bool,
    )
        requires
            0 <= k,
            (input.start + k) * 4096 <= 0xFFFF_FFFF,
            (output.start + k) * 4096 <= 0x000F_FFFF_FFFF_F000,
            leaf == pte_value(((output.start + k) * 4096) as u64, permissions.spec_writable(), self.spec_nxe()
                && !permissions.spec_executable()),
            forall|vb: u64| #[trigger] self.spec_translate(before, vb) == self.mapped_after(m0, before, input, output, permissions, k, vb),
            forall|i: int, j: int| 0 <= i < 4 && 0 <= j < 512 && #[trigger] pde_at(before, self.spec_cr3() as int, i, j) is Some
                ==> pde_at(after, self.spec_cr3() as int, i, j) == pde_at(before, self.spec_cr3() as int, i, j),
            mapped ==> forall|vb: u64| #[trigger] self.spec_translate(after, vb) == if vb <= 0xFFFF_FFFF && vb / 4096 == input.start + k {
                leaf_walk(
                    pde_at(after, self.spec_cr3() as int, pdpt_index(((input.start + k) * 4096) as u64), pd_index(((input.start + k) * 4096) as u64))->0,
                    leaf,
                    self.spec_nxe(),
                    vb,
                )
            } else {
                self.spec_translate(before, vb)
            },
            !mapped ==> forall|vb: u64| #[trigger] self.spec_translate(after, vb) == self.spec_translate(before, vb),
        ensures
            forall|vb: u64| #[trigger] self.spec_translate(after, vb) == self.mapped_after(
                m0,
                after,
                input,
                output,
                permissions,
                k + if mapped { 1int } else { 0int },
                vb,
            ),
    {
        let root = self.spec_cr3() as int;
        let va = ((input.start + k) * 4096) as u64;
        let frame = ((output.start + k) * 4096) as u64;
        lemma_entry_values(0, frame, permissions.spec_writable(), self.spec_nxe() && !permissions.spec_executable());
        assert forall|vb: u64| #[trigger] self.spec_translate(after, vb) == self.mapped_after(
            m0,
            after,
            input,
            output,
            permissions,
            k + if mapped { 1int } else { 0int },
            vb,
        ) by {
            lemma_indices(vb, va);
            assert(va / 4096 == input.start + k);
            if Self::in_pages(input, k, vb) {
                let i = pdpt_index(vb);
                let j = pd_index(vb);
                assert(self.spec_translate(before, vb) is Some);
                assert(pde_at(before, root, i, j) is Some);
                assert(pde_at(after, root, i, j) == pde_at(before, root, i, j));
            } else if mapped && vb <= 0xFFFF_FFFF && vb / 4096 == input.start + k {
                assert(Self::in_pages(input, k + 1, vb));
                assert(vb / 4096 - input.start == k);
            } else {
                assert(self.spec_translate(before, vb) == self.spec_translate(m0, vb));
            }
        }
    }

    /// Maps the pages of `input`, none of which is mapped, to the frames of `output`.
    fn map_pages(
        &self,
        memory: &mut PhysicalMemory64,
        allocator: &mut FrameAllocator,
        input: ChunkRange,
        output: ChunkRange,
        permissions: Permissions,
    ) -> (result: Result<(), MapError>)
        requires
            self.tables_wf(*old(memory), *old(allocator)),
            self.map_at_accepts(*old(memory), input, output),
            range_fits(input),
            range_fits(output),
            range_end(input) <= 0xFFFF_FFFF,
            range_end(output) <= 0x000F_FFFF_FFFF_FFFF,
        ensures
            self.tables_wf(*final(memory), *final(allocator)),
            result is Ok ==> forall|k: int| 0 <= k < input.count ==> !#[trigger] self.misses_table(
                *final(memory),
                ((input.start + k) * 4096) as u64,
            ),
            match result {
                Ok(()) => forall|va: u64| #[trigger] self.spec_translate(*final(memory), va) == self.mapped_after(
                    *old(memory),
                    *final(memory),
                    input,
                    output,
                    permissions,
                    input.count as int,
                    va,
                ),
                Err(error) => {
                    &&& error == MapError::FrameAllocation
                    &&& !final(allocator).can_allocate()
                    &&& exists|done: int| 0 <= done < input.count && #[trigger] self.shows_mapping(
                        *old(memory),
                        *final(memory),
                        input,
                        output,
                        permissions,
                        done,
                    ) && self.misses_table(*final(memory), ((input.start + done) * 4096) as u64)
                },
            },
    {
        let input_start = input.start * 4096;
        let output_start = output.start * 4096;
        let writable_bit: u64 = if permissions.writable() { 2 } else { 0 };
        let xd = self.nxe() && !permissions.executable();
        let xd_bit: u64 = if xd { 0x8000_0000_0000_0000 } else { 0 };
        let ghost m0 = *memory;
        let mut k: u64 = 0;
        while k < input.count
            invariant
                m0 == *old(memory),
                self.tables_wf(*memory, *allocator),
                self.map_at_accepts(m0, input, output),
                input_start == input.start * 4096,
                output_start == output.start * 4096,
                range_end(input) <= 0xFFFF_FFFF,
                range_end(output) <= 0x000F_FFFF_FFFF_FFFF,
                range_fits(input),
                range_fits(output),
                k <= input.count,
                writable_bit == if permissions.spec_writable() { 2u64 } else { 0u64 },
                xd == (self.spec_nxe() && !permissions.spec_executable()),
                xd_bit == if xd { 0x8000_0000_0000_0000u64 } else { 0u64 },
                forall|i: int| 0 <= i < k ==> !#[trigger] self.misses_table(*memory, ((input.start + i) * 4096) as u64),
                forall|va: u64| #[trigger] self.spec_translate(*memory, va) == self.mapped_after(
                    m0,
                    *memory,
                    input,
                    output,
                    permissions,
                    k as int,
                    va,
                ),
            decreases input.count - k,
        {
            let va = input_start + k * 4096;
            let frame = output_start + k * 4096;
            assert(va == (input.start + k) * 4096);
            assert(frame == (output.start + k) * 4096);
            proof {
                assert(va / 4096 == input.start + k);
                assert(!Self::in_pages(input, k as int, va));
                assert(self.spec_translate(m0, ((input.start + k) * 4096) as u64) is None);
                lemma_entry_values(0, frame, permissions.spec_writable(), xd);
            }
            let leaf = frame | 1 | writable_bit | xd_bit;
            assert(leaf == pte_value(frame, permissions.spec_writable(), xd));
            let ghost before = *memory;
            let result = self.map_page(memory, allocator, va, leaf);
            proof {
                self.lemma_map_step(m0, before, *memory, input, output, permissions, k as int, leaf, result is Ok);
            }
            proof {
                if result is Ok {
                    assert forall|i: int| 0 <= i < k + 1 implies !#[trigger] self.misses_table(
                        *memory,
                        ((input.start + i) * 4096) as u64,
                    ) by {
                        if i < k {
                            let vi = ((input.start + i) * 4096) as u64;
                            lemma_indices(vi, vi);
                            assert(!self.misses_table(before, vi));
                            assert(pde_at(*memory, self.spec_cr3() as int, pdpt_index(vi), pd_index(vi)) == pde_at(
                                before,
                                self.spec_cr3() as int,
                                pdpt_index(vi),
                                pd_index(vi),
                            ));
                        }
                    }
                }
            }
            if result.is_err() {
                assert(self.shows_mapping(m0, *memory, input, output, permissions, k as int));
                assert(self.misses_table(*memory, ((input.start + k) * 4096) as u64));
                return Err(MapError::FrameAllocation);
            }
            k += 1;
        }
        Ok(())
    }
}


impl PaeTranslationScheme {
    /// No page of `input` is mapped through a 2 MiB page by the tables in `memory`.
    pub open spec fn no_large_pages(&self, memory: PhysicalMemory64, input: ChunkRange) -> bool {
        forall|k: int| 0 <= k < input.count ==> !(#[trigger] pde_at(
            memory,
            self.spec_cr3() as int,
            pdpt_index(((input.start + k) * 4096) as u64),
            pd_index(((input.start + k) * 4096) as u64),
        ) matches Some(e) && block64(e))
    }

    /// Unmaps the pages of `input` from the tables held in `memory`, whose frames come from
    /// `allocator`.
    pub fn unmap(&mut self, memory: &mut PhysicalMemory64, allocator: &FrameAllocator, input: ChunkRange)
        requires
            old(self).tables_wf(*old(memory), *allocator),
            range_fits(input),
            AddressSpaceDescriptor::spec_new(32, false).spec_is_valid_range(range_start(input), range_end(input)),
            old(self).no_large_pages(*old(memory), input),
        ensures
            *final(self) == *old(self),
            final(self).tables_wf(*final(memory), *allocator),
            forall|va: u64| #[trigger] final(self).spec_translate(*final(memory), va) == if Self::in_pages(input, input.count as int, va) {
                None
            } else {
                old(self).spec_translate(*old(memory), va)
            },
            forall|i: int, j: int| 0 <= i < 4 && 0 <= j < 512 ==> #[trigger] pde_at(*final(memory), old(self).spec_cr3() as int, i, j)
                == pde_at(*old(memory), old(self).spec_cr3() as int, i, j),
    {
        proof {
            AddressSpaceDescriptor::lemma_spec_new(32, false);
            vstd::arithmetic::power2::lemma2_to64();
        }
        let ghost root = self.spec_cr3() as int;
        let ghost m0 = *memory;
        let input_start = input.start * 4096;
        let root_address = self.cr3();
        let mut k: u64 = 0;
        while k < input.count
            invariant
                m0 == *old(memory),
                root == self.spec_cr3() as int,
                root_address == self.spec_cr3(),
                self.tables_wf(*memory, *allocator),
                self.no_large_pages(m0, input),
                input_start == input.start * 4096,
                range_fits(input),
                range_end(input) <= 0xFFFF_FFFF,
                k <= input.count,
                forall|i: int, j: int| 0 <= i < 4 && 0 <= j < 512 ==> #[trigger] pde_at(*memory, root, i, j) == pde_at(m0, root, i, j),
                forall|va: u64| #[trigger] self.spec_translate(*memory, va) == if Self::in_pages(input, k as int, va) {
                    None
                } else {
                    self.spec_translate(m0, va)
                },
            decreases input.count - k,
        {
            let va = input_start + k * 4096;
            assert(va == (input.start + k) * 4096);
            assert(va / 4096 == input.start + k);
            proof {
                lemma_indices(va, va);
            }
            let pdpte_index = (va >> 30) & 0b11;
            let pde_index = (va >> 21) & 0x1FF;
            let pte_index = (va >> 12) & 0x1FF;
            let pdpte_address = root_address + pdpte_index * 8;
            assert(pdpte_address / 8 == root / 8 + pdpte_index);
            let pdpte = memory.read_u64(pdpte_address);
            let ghost before = *memory;
            if pdpte & 1 == 1 {
                let directory = pdpte & 0x000F_FFFF_FFFF_F000;
                proof {
                    lemma_address_field(pdpte);
                    assert(pd_frame(before, root, pdpte_index as int) == Some(directory as int));
                }
                let pde_address = directory + pde_index * 8;
                assert(pde_address / 8 == directory / 8 + pde_index);
                let pde = memory.read_u64(pde_address);
                if pde & 1 == 1 {
                    let table = pde & 0x000F_FFFF_FFFF_F000;
                    proof {
                        lemma_address_field(pde);
                        assert(pde_at(before, root, pdpte_index as int, pde_index as int) == Some(pde));
                        assert(pde_at(m0, root, pdpte_index as int, pde_index as int) == Some(pde));
                        assert(!block64(pde));
                        assert(pt_frame(before, root, pdpte_index as int, pde_index as int) == Some(table as int));
                    }
                    let pte_address = table + pte_index * 8;
                    assert(pte_address / 8 == table / 8 + pte_index);
                    memory.write_u64(pte_address, 0);
                    proof {
                        let after = *memory;
                        assert forall|x: int| #[trigger] after.word(x) == if x == table / 8 + pte_index { 0 } else { before.word(x) } by {}
                        lemma_write_leaf(before, after, root, allocator.next as int, va, 0);
                        lemma_entry_values(0, 0, false, false);
                        assert forall|vb: u64| #[trigger] self.spec_translate(after, vb) == if Self::in_pages(input, k + 1, vb) {
                            None
                        } else {
                            self.spec_translate(m0, vb)
                        } by {
                            assert(self.spec_translate(before, vb) == if Self::in_pages(input, k as int, vb) {
                                None
                            } else {
                                self.spec_translate(m0, vb)
                            });
                        }
                    }
                    k += 1;
                    continue;
                }
            }
            proof {
                assert(pde_at(before, root, pdpte_index as int, pde_index as int) is None);
                assert forall|vb: u64| #[trigger] self.spec_translate(before, vb) == if Self::in_pages(input, k + 1, vb) {
                    None
                } else {
                    self.spec_translate(m0, vb)
                } by {
                    lemma_indices(vb, va);
                    assert(self.spec_translate(before, vb) == if Self::in_pages(input, k as int, vb) {
                        None
                    } else {
                        self.spec_translate(m0, vb)
                    });
                }
            }
            k += 1;
        }
    }
}


/// Once `map_at` has mapped `input` to `output` with `permissions`, every address of `input`
/// translates to the same offset into `output`, with exactly the access that `permissions`
/// grant, except that without `nxe` every page is executable.
pub proof fn law_pae_map_at_then_translate(
    scheme: &PaeTranslationScheme,
    before: PhysicalMemory64,
    after: PhysicalMemory64,
    after_allocator: FrameAllocator,
    input: ChunkRange,
    output: ChunkRange,
    permissions: Permissions,
    address: u64,
)
    requires
        scheme.spec_physical_bits() <= 52,
        range_fits(input),
        range_fits(output),
        scheme.map_at_accepts(before, input, output),
        scheme.shows_mapping(before, after, input, output, permissions, input.count as int),
        scheme.tables_wf(after, after_allocator),
        forall|k: int| 0 <= k < input.count ==> !#[trigger] scheme.misses_table(after, ((input.start + k) * 4096) as u64),
        range_start(input) <= address <= range_end(input),
    ensures
        scheme.spec_translate(after, address) == Some(
            (
                Permissions::from_access_spec(permissions.spec_writable(), !scheme.spec_nxe() || permissions.spec_executable()),
                MappingType::Normal,
                (range_start(output) + (address - range_start(input))) as u64,
            ),
        ),
{
    AddressSpaceDescriptor::lemma_spec_new(32, false);
    AddressSpaceDescriptor::lemma_spec_new(scheme.spec_physical_bits(), false);
    vstd::arithmetic::power2::lemma2_to64();
    vstd::arithmetic::power2::lemma2_to64_rest();
    if scheme.spec_physical_bits() < 52 {
        vstd::arithmetic::power2::lemma_pow2_strictly_increases(scheme.spec_physical_bits() as nat, 52);
    }
    let page = address / 4096;
    assert(input.start <= page < input.start + input.count) by (nonlinear_arith)
        requires
            input.start * 4096 <= address <= (input.start + input.count) * 4096 - 1,
            page == address / 4096,
    ;
    assert(PaeTranslationScheme::in_pages(input, input.count as int, address));
    assert(address == page * 4096 + address % 4096);
    let frame = (output.start + (page - input.start)) * 4096;
    assert(frame + address % 4096 == output.start * 4096 + (address - input.start * 4096)) by (nonlinear_arith)
        requires
            frame == (output.start + (page - input.start)) * 4096,
            address == page * 4096 + address % 4096,
    ;
    assert(frame + address % 4096 <= range_end(output)) by (nonlinear_arith)
        requires
            frame + address % 4096 == output.start * 4096 + (address - input.start * 4096),
            address <= (input.start + input.count) * 4096 - 1,
            input.count == output.count,
    ;
    let e = pde_at(after, scheme.spec_cr3() as int, pdpt_index(address), pd_index(address))->0;
    assert(scheme.spec_translate(after, address) == mapped_walk(e, frame as u64, permissions, scheme.spec_nxe(), address));
    // The directory entry of the page points to a page table, so it allows writes and execution.
    let first = ((input.start + (page - input.start)) * 4096) as u64;
    assert(0 <= page - input.start < input.count);
    assert(!scheme.misses_table(after, first));
    assert(first as int == page * 4096);
    assert(first / 4096 == address / 4096);
    lemma_indices(first, address);
    lemma_pae_bits(first, address, 0, 0, 0, 0);
    assert(first >> 12u64 == address >> 12u64);
    assert(pdpt_index(first) == pdpt_index(address) && pd_index(first) == pd_index(address));
    assert(pde_at(after, scheme.spec_cr3() as int, pdpt_index(address), pd_index(address)) is Some);
    assert(!block64(e));
    assert(writable64(e) && !xd64(e));
}

/// Once `unmap` has unmapped `input`, no address of `input` translates.
pub proof fn law_pae_unmap_then_translate(
    scheme: &PaeTranslationScheme,
    before: PhysicalMemory64,
    after: PhysicalMemory64,
    input: ChunkRange,
    address: u64,
)
    requires
        range_fits(input),
        AddressSpaceDescriptor::spec_new(32, false).spec_is_valid_range(range_start(input), range_end(input)),
        forall|va: u64| #[trigger] scheme.spec_translate(after, va) == if PaeTranslationScheme::in_pages(input, input.count as int, va) {
            None
        } else {
            scheme.spec_translate(before, va)
        },
        range_start(input) <= address <= range_end(input),
    ensures
        scheme.spec_translate(after, address) is None,
{
    AddressSpaceDescriptor::lemma_spec_new(32, false);
    vstd::arithmetic::power2::lemma2_to64();
    let page = address / 4096;
    assert(input.start <= page < input.start + input.count) by (nonlinear_arith)
        requires
            input.start * 4096 <= address <= (input.start + input.count) * 4096 - 1,
            page == address / 4096,
    ;
    assert(PaeTranslationScheme::in_pages(input, input.count as int, address));
}


/// PAE tables held in memory, read through a scheme.
pub struct PaeTables<'a> {
    /// The scheme.
    pub scheme: &'a PaeTranslationScheme,
    /// The memory that holds the tables.
    pub memory: &'a PhysicalMemory64,
}

impl<'a> TranslationScheme for PaeTables<'a> {
    open spec fn valid(&self) -> bool {
        true
    }

    open spec fn spec_input_descriptor(&self) -> AddressSpaceDescriptor {
        AddressSpaceDescriptor::spec_new(32, false)
    }

    open spec fn spec_chunk_size(&self) -> u64 {
        4096
    }

    open spec fn output_address(&self, address: u64) -> Option<u64> {
        match self.scheme.spec_translate(*self.memory, address) {
            Some((_, _, physical_address)) => Some(physical_address),
            None => None,
        }
    }

    fn input_descriptor(&self) -> (descriptor: AddressSpaceDescriptor) {
        self.scheme.input_descriptor()
    }

    fn chunk_size(&self) -> (size: u64) {
        4096
    }

    fn translate(&self, address: u64) -> (result: Option<(Permissions, MappingType, u64)>) {
        self.scheme.translate(self.memory, address)
    }
}

} // verus!
