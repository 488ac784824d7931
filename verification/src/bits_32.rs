//! Two-level 32-bit x86 paging: an address space whose page tables live in a model of physical
//! memory.
use vstd::prelude::*;

use crate::address_space::{
    MapError, NoMapping, NotFound, ProtectionFlags, PROTECTION_EXEC, PROTECTION_READ,
    PROTECTION_WRITE,
};
use crate::descriptor::AddressSpaceDescriptor;
use crate::paging::{MappingType, Permissions, TranslationScheme};
use crate::physical_memory::{FrameAllocator, PhysicalMemory32};

verus! {

/// Bit 0 of an entry: the entry is present.
pub open spec fn present32(e: u32) -> bool {
    e & 1 == 1
}

/// Bit 1 of an entry: the region is writable.
pub open spec fn writable32(e: u32) -> bool {
    e & 2 == 2
}

/// Bit 7 of a directory entry: the entry maps a 4 MiB block.
pub open spec fn block32(e: u32) -> bool {
    e & 0x80 == 0x80
}

/// Bits 31:12 of an entry: the table or page address.
pub open spec fn address32(e: u32) -> u32 {
    e & 0xFFFF_F000
}

/// The physical address of a 4 MiB block: bits 31:22 of the entry, with bits 16:13 of the entry
/// as address bits 35:32.
pub open spec fn block_address32(e: u32) -> u64 {
    ((e & 0xFFC0_0000) as u64) | ((((e >> 13u32) & 0xF) as u64) << 32u64)
}

/// A 32-bit paging structure entry.
#[derive(Clone, Copy, Debug, PartialEq, Eq, Structural)]
pub struct TranslationDescriptor(pub u32);

impl TranslationDescriptor {
    /// Returns the entry with the given raw bits.
    pub fn from_bits(bits: u32) -> (d: Self)
        ensures
            d.0 == bits,
    {
        TranslationDescriptor(bits)
    }

    /// Returns the raw bits of the entry.
    pub fn to_bits(self) -> (bits: u32)
        ensures
            bits == self.0,
    {
        self.0
    }

    /// Returns an entry with no bit set.
    pub fn non_present() -> (d: Self)
        ensures
            d.0 == 0,
    {
        TranslationDescriptor(0)
    }

    /// Returns `true` if the entry is present.
    pub fn present(self) -> (result: bool)
        ensures
            result == present32(self.0),
    {
        self.0 & 1 == 1
    }

    /// Returns `true` if the entry allows writes.
    pub fn writable(self) -> (result: bool)
        ensures
            result == writable32(self.0),
    {
        self.0 & 2 == 2
    }

    /// Returns `true` if the directory entry maps a 4 MiB block.
    pub fn block(self) -> (result: bool)
        ensures
            result == block32(self.0),
    {
        self.0 & 0x80 == 0x80
    }

    /// Returns the address of the table that the directory entry refers to.
    pub fn table_address(self) -> (address: u32)
        ensures
            address == address32(self.0),
    {
        self.0 & 0xFFFF_F000
    }

    /// Returns the address of the page that the table entry maps.
    pub fn page_address(self) -> (address: u32)
        ensures
            address == address32(self.0),
    {
        self.0 & 0xFFFF_F000
    }

    /// Returns the address of the 4 MiB block that the directory entry maps.
    pub fn block_address(self) -> (address: u64)
        ensures
            address == block_address32(self.0),
    {
        ((self.0 & 0xFFC0_0000) as u64) | ((((self.0 >> 13u32) & 0xF) as u64) << 32u64)
    }

    /// Returns the entry with its present bit set to `present`.
    pub fn set_present(self, present: bool) -> (d: Self)
        ensures
            d.0 == if present { self.0 | 1 } else { self.0 & !1u32 },
    {
        if present {
            TranslationDescriptor(self.0 | 1)
        } else {
            TranslationDescriptor(self.0 & !1u32)
        }
    }

    /// Returns the entry with its writable bit set to `writable`.
    pub fn set_writable(self, writable: bool) -> (d: Self)
        ensures
            d.0 == if writable { self.0 | 2 } else { self.0 & !2u32 },
    {
        if writable {
            TranslationDescriptor(self.0 | 2)
        } else {
            TranslationDescriptor(self.0 & !2u32)
        }
    }

    /// Returns the entry referring to the table at `address`.
    pub fn set_table_address(self, address: u32) -> (d: Self)
        ensures
            d.0 == (self.0 & 0xFFF) | (address & 0xFFFF_F000),
    {
        TranslationDescriptor((self.0 & 0xFFF) | (address & 0xFFFF_F000))
    }

    /// Returns the entry mapping the page at `address`.
    pub fn set_page_address(self, address: u32) -> (d: Self)
        ensures
            d.0 == (self.0 & 0xFFF) | (address & 0xFFFF_F000),
    {
        TranslationDescriptor((self.0 & 0xFFF) | (address & 0xFFFF_F000))
    }
}

/// A directory entry built for a fresh table is present, writable, not a block, and refers to the
/// table.
proof fn lemma_directory_entry(t: u32)
    requires
        t % 4096 == 0,
    ensures
        ({
            let e = ((((0u32 | 1u32) | 2u32) & 0xFFFu32) | (t & 0xFFFF_F000u32));
            present32(e) && writable32(e) && !block32(e) && address32(e) == t
        }),
{
    assert(t % 4096 == 0 ==> ({
        let e = ((((0u32 | 1u32) | 2u32) & 0xFFFu32) | (t & 0xFFFF_F000u32));
        e & 1 == 1 && e & 2 == 2 && e & 0x80 != 0x80 && e & 0xFFFF_F000 == t
    })) by (bit_vector);
}

/// A table entry built for a page has the requested present and writable bits and maps the page
/// address with its low twelve bits cleared.
proof fn lemma_table_entry(p: u32, present: bool, writable: bool)
    ensures
        ({
            let a = if present { 0u32 | 1u32 } else { 0u32 & !1u32 };
            let b = if writable { a | 2u32 } else { a & !2u32 };
            let e = (b & 0xFFFu32) | (p & 0xFFFF_F000u32);
            present32(e) == present && writable32(e) == writable && address32(e) == p & 0xFFFF_F000u32
        }),
{
    assert(((0u32 | 1u32) | 2u32) & 0xFFFu32 == 3u32) by (bit_vector);
    assert(((0u32 | 1u32) & !2u32) & 0xFFFu32 == 1u32) by (bit_vector);
    assert(((0u32 & !1u32) | 2u32) & 0xFFFu32 == 2u32) by (bit_vector);
    assert(((0u32 & !1u32) & !2u32) & 0xFFFu32 == 0u32) by (bit_vector);
    lemma_low_bits_with_address(0, p);
    lemma_low_bits_with_address(1, p);
    lemma_low_bits_with_address(2, p);
    lemma_low_bits_with_address(3, p);
    assert(3u32 & 1 == 1 && 3u32 & 2 == 2 && 1u32 & 1 == 1 && 1u32 & 2 != 2 && 2u32 & 1 != 1
        && 2u32 & 2 == 2 && 0u32 & 1 != 1 && 0u32 & 2 != 2) by (bit_vector);
}

/// Low flag bits combined with an address keep both.
proof fn lemma_low_bits_with_address(c: u32, p: u32)
    by (bit_vector)
    requires
        c <= 3,
    ensures
        ((c | (p & 0xFFFF_F000u32)) & 1 == 1) == (c & 1 == 1),
        ((c | (p & 0xFFFF_F000u32)) & 2 == 2) == (c & 2 == 2),
        (c | (p & 0xFFFF_F000u32)) & 0xFFFF_F000 == p & 0xFFFF_F000,
{
}

/// A block address fits in 36 bits.
proof fn lemma_block_address_bound(e: u32)
    by (bit_vector)
    ensures
        block_address32(e) <= 0xF_FFC0_0000u64,
{
}

/// The address bits of an entry are a multiple of the table size, and a zero entry is not
/// present.
proof fn lemma_address_aligned(e: u32)
    ensures
        address32(e) % 4096 == 0,
        address32(e) <= 0xFFFF_F000,
        !present32(0u32),
{
    assert((e & 0xFFFF_F000u32) % 4096 == 0 && e & 0xFFFF_F000u32 <= 0xFFFF_F000u32) by (bit_vector);
    assert(0u32 & 1 != 1) by (bit_vector);
}

/// The index and offset computations on a 32-bit virtual address.
pub proof fn lemma_indices(va: u64)
    requires
        va <= 0xFFFF_FFFF,
    ensures
        (va >> 22u64) & 0x3FF == (va / 4096) / 1024,
        (va >> 12u64) & 0x3FF == (va / 4096) % 1024,
        va % 4096 == va & 0xFFF,
{
    assert(va <= 0xFFFF_FFFF ==> (va >> 22u64) & 0x3FF == (va / 4096) / 1024) by (bit_vector);
    assert((va >> 12u64) & 0x3FF == (va / 4096) % 1024) by (bit_vector);
    assert(va % 4096 == va & 0xFFF) by (bit_vector);
}

/// Implementation of an address space for `x86_32` with 32-bit paging.
pub struct Bits32AddressSpace {
    /// The physical address of the top of the page table.
    physical_address: u64,
    /// If `true`, the `PSE` bit should be treated as being set.
    pse: bool,
    /// If `true`, the `PSE-36` bit should be treated as being set.
    pse36: bool,
    /// The physical memory that holds the page tables.
    memory: PhysicalMemory32,
    /// The allocator that provides frames for new page tables.
    allocator: FrameAllocator,
}

/// Various errors that can occur when creating a [`Bits32AddressSpace`].
#[derive(Clone, Copy, Debug, PartialEq, Eq, Structural)]
pub enum Bits32Error {
    /// An error occurrred while allocating the root page table.
    OutOfMemory,
    /// The requested mode is not active.
    NotActive,
}

/// An error that indicates that no frame could be allocated.
#[derive(Clone, Copy, Debug, PartialEq, Eq, Structural)]
pub struct OutOfMemory;

impl Bits32AddressSpace {
    /// The root table's address.
    pub closed spec fn root(&self) -> int {
        self.physical_address as int
    }

    /// The `pse` setting.
    pub closed spec fn spec_pse(&self) -> bool {
        self.pse
    }

    /// The `pse36` setting.
    pub closed spec fn spec_pse36(&self) -> bool {
        self.pse36
    }

    /// The frame allocator.
    pub closed spec fn spec_allocator(&self) -> FrameAllocator {
        self.allocator
    }

    /// The directory entry with index `i`.
    pub closed spec fn pde(&self, i: int) -> u32 {
        self.memory.word(self.physical_address / 4 + i)
    }

    /// The entry with index `j` of the table that directory entry `i` refers to.
    pub closed spec fn pte(&self, i: int, j: int) -> u32 {
        self.memory.word(address32(self.pde(i)) / 4 + j)
    }

    /// The page that virtual page number `v` maps to, with its writable permission.
    pub closed spec fn page_entry(&self, v: int) -> Option<(int, bool)> {
        let e = self.pde(v / 1024);
        if !present32(e) {
            None
        } else {
            let t = self.pte(v / 1024, v % 1024);
            if !present32(t) {
                None
            } else {
                Some((address32(t) as int, writable32(e) && writable32(t)))
            }
        }
    }

    /// The translation of virtual address `va` into a physical address and its writable
    /// permission, as the hardware walks the tables.
    pub open spec fn translation(&self, va: u64) -> Option<(int, bool)> {
        if va > 0xFFFF_FFFF {
            None
        } else {
            match self.page_entry((va / 4096) as int) {
                Some((page, writable)) => Some((page + va % 4096, writable)),
                None => None,
            }
        }
    }

    /// The page that starts at `va` is mapped.
    pub open spec fn is_mapped(&self, va: u64) -> bool {
        self.translation(va) is Some
    }

    /// The page tables are laid out as this library builds them.
    pub closed spec fn wf(&self) -> bool {
        &&& self.allocator.wf()
        &&& self.allocator.end <= self.memory.byte_len()
        &&& self.allocator.end <= 0x1_0000_0000
        &&& self.physical_address % 4096 == 0
        &&& self.physical_address + 4096 <= self.allocator.next
        &&& forall|i: int| 0 <= i < 1024 && #[trigger] present32(self.pde(i)) ==> {
            &&& !block32(self.pde(i))
            &&& writable32(self.pde(i))
            &&& address32(self.pde(i)) + 4096 <= self.allocator.next
            &&& address32(self.pde(i)) != self.physical_address
        }
        &&& forall|i: int, j: int| 0 <= i < 1024 && 0 <= j < 1024 && i != j && present32(
            #[trigger] self.pde(i),
        ) && present32(#[trigger] self.pde(j)) ==> address32(self.pde(i)) != address32(self.pde(j))
    }
}


impl Bits32AddressSpace {
    /// Translates the given `virtual_address` to its physical address and the protection of
    /// the page.
    ///
    /// Pages are always readable and executable; they are writable when every level of the
    /// walk allows writes.
    pub fn translate_virt(&self, virtual_address: u64) -> (result: Result<(u64, ProtectionFlags), NoMapping>)
        requires
            self.wf(),
        ensures
            match self.translation(virtual_address) {
                Some((pa, writable)) => result matches Ok((p, flags)) && p == pa && flags.has(
                    PROTECTION_READ,
                ) && flags.has(PROTECTION_EXEC) && flags.has(PROTECTION_WRITE) == writable,
                None => result is Err,
            },
    {
        if virtual_address > 0xFFFF_FFFF {
            return Err(NoMapping);
        }
        proof {
            lemma_indices(virtual_address);
        }
        let pml2e_index = (virtual_address >> 22u64) & 0x3FF;
        let pml1e_index = (virtual_address >> 12u64) & 0x3FF;

        let flags = ProtectionFlags(PROTECTION_READ | PROTECTION_WRITE | PROTECTION_EXEC);
        assert((1u32 | 2u32 | 4u32) & 1 == 1 && (1u32 | 2u32 | 4u32) & 2 == 2 && (1u32 | 2u32 | 4u32) & 4 == 4) by (bit_vector);
        let pml2e_address = self.physical_address + pml2e_index * 4;
        assert(pml2e_address / 4 == self.physical_address / 4 + pml2e_index);
        let pml2e = TranslationDescriptor::from_bits(self.memory.read_u32(pml2e_address));
        if !pml2e.present() {
            return Err(NoMapping);
        }
        let flags = flags.set_writable(flags.writable() && pml2e.writable());
        if self.pse && pml2e.block() {
            // Directory entries built by this library never map blocks.
            let offset = virtual_address % (1024 * 4096);
            let block = pml2e.block_address();
            proof {
                lemma_block_address_bound(pml2e.0);
            }
            return Ok((block + offset, flags));
        }

        let pml1_table_address = pml2e.table_address() as u64;
        proof {
            lemma_address_aligned(pml2e.0);
        }
        let pml1e_address = pml1_table_address + pml1e_index * 4;
        assert(pml1e_address / 4 == pml1_table_address / 4 + pml1e_index);
        let pml1e = TranslationDescriptor::from_bits(self.memory.read_u32(pml1e_address));
        if !pml1e.present() {
            return Err(NoMapping);
        }
        let flags = flags.set_writable(flags.writable() && pml1e.writable());

        let offset = virtual_address % 4096;
        assert(pml2e.0 == self.pde((virtual_address / 4096) as int / 1024));
        assert(pml1e.0 == self.pte((virtual_address / 4096) as int / 1024, (virtual_address / 4096) as int % 1024));
        assert(self.page_entry((virtual_address / 4096) as int) == Some((address32(pml1e.0) as int, writable32(pml2e.0) && writable32(pml1e.0))));
        Ok((pml1e.page_address() as u64 + offset, flags))
    }
}


/// Distinct table frames hold distinct words.
proof fn lemma_table_words_disjoint(a: int, b: int, j: int, k: int)
    requires
        a % 4096 == 0,
        b % 4096 == 0,
        a != b,
        0 <= j < 1024,
        0 <= k < 1024,
    ensures
        a / 4 + j != b / 4 + k,
{
}

impl Bits32AddressSpace {
    /// The address space keeps its settings and root table.
    pub closed spec fn same_settings(&self, other: &Self) -> bool {
        &&& self.physical_address == other.physical_address
        &&& self.pse == other.pse
        &&& self.pse36 == other.pse36
        &&& self.allocator.end == other.allocator.end
        &&& self.allocator.next >= other.allocator.next
        &&& self.memory.words@.len() == other.memory.words@.len()
    }

    /// Allocates a zeroed page table.
    fn allocate_zeroed_table(&mut self) -> (result: Result<u64, OutOfMemory>)
        requires
            old(self).wf(),
        ensures
            final(self).same_settings(old(self)),
            match result {
                Ok(t) => {
                    &&& t == old(self).allocator.next
                    &&& old(self).allocator.can_allocate()
                    &&& final(self).allocator.next == t + 4096
                    &&& forall|k: int| t / 4 <= k < t / 4 + 1024 ==> #[trigger] final(self).memory.word(k) == 0
                    &&& forall|k: int| !(t / 4 <= k < t / 4 + 1024) ==> #[trigger] final(self).memory.word(k)
                        == old(self).memory.word(k)
                },
                Err(_) => {
                    &&& *final(self) == *old(self)
                    &&& !old(self).allocator.can_allocate()
                },
            },
    {
        if self.allocator.next > self.allocator.end || self.allocator.end - self.allocator.next < 4096 {
            return Err(OutOfMemory);
        }
        let table = self.allocator.next;
        self.allocator.next = table + 4096;
        let ghost before = self.memory;
        let mut i: u64 = 0;
        while i < 1024
            invariant
                i <= 1024,
                table == old(self).allocator.next,
                self.allocator.next == table + 4096,
                self.allocator.end == old(self).allocator.end,
                self.physical_address == old(self).physical_address,
                self.pse == old(self).pse,
                self.pse36 == old(self).pse36,
                before == old(self).memory,
                table % 4096 == 0,
                table + 4096 <= before.byte_len(),
                self.memory.words@.len() == before.words@.len(),
                forall|k: int| table / 4 <= k < table / 4 + i ==> #[trigger] self.memory.word(k) == 0,
                forall|k: int| !(table / 4 <= k < table / 4 + i) ==> #[trigger] self.memory.word(k)
                    == before.word(k),
            decreases 1024 - i,
        {
            let address = table + i * 4;
            assert(address / 4 == table / 4 + i);
            assert(table / 4 + i < self.memory.words@.len());
            let ghost prev = self.memory;
            self.memory.write_u32(address, 0);
            assert forall|k: int| #[trigger] self.memory.word(k) == if k == table / 4 + i {
                0
            } else {
                prev.word(k)
            } by {}
            i += 1;
        }
        Ok(table)
    }
}


impl Bits32AddressSpace {
    /// Writing one word of the table of a present directory entry changes that page's entry
    /// and nothing else.
    proof fn lemma_write_table_entry(s1: Self, s2: Self, i: int, j: int, x: u32)
        requires
            s1.wf(),
            0 <= i < 1024,
            0 <= j < 1024,
            present32(s1.pde(i)),
            s2.same_settings(&s1),
            s2.allocator == s1.allocator,
            forall|k: int| #[trigger] s2.memory.word(k) == if k == address32(s1.pde(i)) / 4 + j {
                x
            } else {
                s1.memory.word(k)
            },
        ensures
            s2.wf(),
            s2.pde(i) == s1.pde(i),
            s2.pte(i, j) == x,
            forall|w: int| 0 <= w < 0x100000 && w != i * 1024 + j ==> #[trigger] s2.page_entry(w)
                == s1.page_entry(w),
    {
        let t = address32(s1.pde(i)) as int;
        lemma_address_aligned(s1.pde(i));
        assert forall|a: int| 0 <= a < 1024 implies #[trigger] s2.pde(a) == s1.pde(a) by {
            lemma_table_words_disjoint(s1.physical_address as int, t, a, j);
        }
        assert forall|w: int| 0 <= w < 0x100000 && w != i * 1024 + j implies #[trigger] s2.page_entry(w)
            == s1.page_entry(w) by {
            let a = w / 1024;
            let b = w % 1024;
            assert(s2.pde(a) == s1.pde(a));
            if present32(s1.pde(a)) {
                lemma_address_aligned(s1.pde(a));
                if a != i {
                    lemma_table_words_disjoint(address32(s1.pde(a)) as int, t, b, j);
                }
                assert(s2.pte(a, b) == s1.pte(a, b));
            }
        }
        assert(s2.wf());
    }

    /// Installing a fresh zeroed table in a non-present directory slot leaves every page
    /// unmapped in that slot and changes nothing else.
    proof fn lemma_install_table(s0: Self, s1: Self, i: int, e: u32)
        requires
            s0.wf(),
            0 <= i < 1024,
            !present32(s0.pde(i)),
            s0.allocator.can_allocate(),
            s1.same_settings(&s0),
            s1.allocator.next == s0.allocator.next + 4096,
            present32(e),
            writable32(e),
            !block32(e),
            address32(e) == s0.allocator.next,
            forall|k: int| #[trigger] s1.memory.word(k) == if k == s0.physical_address / 4 + i {
                e
            } else if s0.allocator.next / 4 <= k < s0.allocator.next / 4 + 1024 {
                0
            } else {
                s0.memory.word(k)
            },
        ensures
            s1.wf(),
            s1.pde(i) == e,
            forall|w: int| 0 <= w < 0x100000 ==> #[trigger] s1.page_entry(w) == if w / 1024 == i {
                None
            } else {
                s0.page_entry(w)
            },
    {
        let t = s0.allocator.next as int;
        let r = s0.physical_address as int;
        assert forall|a: int| 0 <= a < 1024 && a != i implies #[trigger] s1.pde(a) == s0.pde(a) by {
        }
        assert(s1.pde(i) == e);
        lemma_address_aligned(e);
        assert forall|w: int| 0 <= w < 0x100000 implies #[trigger] s1.page_entry(w) == if w / 1024 == i {
            None
        } else {
            s0.page_entry(w)
        } by {
            let a = w / 1024;
            let b = w % 1024;
            if a == i {
                assert(s1.pte(a, b) == 0) by {
                    lemma_table_words_disjoint(r, t, i, b);
                }
                lemma_address_aligned(0);
            } else {
                assert(s1.pde(a) == s0.pde(a));
                if present32(s0.pde(a)) {
                    let ta = address32(s0.pde(a)) as int;
                    lemma_address_aligned(s0.pde(a));
                    lemma_table_words_disjoint(r, ta, i, b);
                    assert(s1.pte(a, b) == s0.pte(a, b));
                }
            }
        }
        assert forall|a: int| 0 <= a < 1024 && #[trigger] present32(s1.pde(a)) implies {
            &&& !block32(s1.pde(a))
            &&& writable32(s1.pde(a))
            &&& address32(s1.pde(a)) + 4096 <= s1.allocator.next
            &&& address32(s1.pde(a)) != s1.physical_address
        } by {
            if a != i {
                assert(s1.pde(a) == s0.pde(a));
            }
        }
        assert forall|a: int, b: int| 0 <= a < 1024 && 0 <= b < 1024 && a != b && present32(
            #[trigger] s1.pde(a),
        ) && present32(#[trigger] s1.pde(b)) implies address32(s1.pde(a)) != address32(s1.pde(b)) by {
            if a != i {
                assert(s1.pde(a) == s0.pde(a));
            }
            if b != i {
                assert(s1.pde(b) == s0.pde(b));
            }
        }
    }
}


impl Bits32AddressSpace {
    /// Maps the page at `virtual_address` to the page at `physical_address`, creating the
    /// page table for it when none exists yet.
    fn map_page(&mut self, virtual_address: u64, physical_address: u32, present: bool, writable: bool) -> (result: Result<(), MapError>)
        requires
            old(self).wf(),
            virtual_address <= 0xFFFF_FFFF,
        ensures
            final(self).same_settings(old(self)),
            match result {
                Ok(()) => {
                    &&& final(self).wf()
                    &&& final(self).page_entry((virtual_address / 4096) as int) == if present {
                        Some(((physical_address & 0xFFFF_F000) as int, writable))
                    } else {
                        None
                    }
                    &&& forall|w: int| 0 <= w < 0x100000 && w != (virtual_address / 4096) as int
                        ==> #[trigger] final(self).page_entry(w) == old(self).page_entry(w)
                },
                Err(error) => {
                    &&& error == MapError::AllocationError
                    &&& *final(self) == *old(self)
                    &&& !old(self).allocator.can_allocate()
                    &&& !present32(old(self).pde((virtual_address / 0x40_0000) as int))
                },
            },
    {
        proof {
            lemma_indices(virtual_address);
        }
        let ghost v = (virtual_address / 4096) as int;
        let pml2e_index = (virtual_address >> 22u64) & 0x3FF;
        let pml1e_index = (virtual_address >> 12u64) & 0x3FF;
        let pml2e_address = self.physical_address + pml2e_index * 4;
        assert(pml2e_address / 4 == self.physical_address / 4 + pml2e_index);
        let mut pml2e = TranslationDescriptor::from_bits(self.memory.read_u32(pml2e_address));
        let ghost s0 = *self;
        if !pml2e.present() {
            let table = match self.allocate_zeroed_table() {
                Ok(table) => table,
                Err(_) => {
                    assert(pml2e_index == virtual_address / 0x40_0000);
                    assert(!present32(s0.pde(pml2e_index as int)));
                    return Err(MapError::AllocationError);
                },
            };
            pml2e = TranslationDescriptor::non_present().set_present(true).set_writable(true).set_table_address(
                table as u32,
            );
            proof {
                lemma_directory_entry(table as u32);
            }
            let ghost zeroed = *self;
            self.memory.write_u32(pml2e_address, pml2e.to_bits());
            proof {
                assert(pml2e_address / 4 < zeroed.memory.words@.len());
                assert forall|k: int| #[trigger] self.memory.word(k) == if k == s0.physical_address / 4
                    + pml2e_index {
                    pml2e.0
                } else if s0.allocator.next / 4 <= k < s0.allocator.next / 4 + 1024 {
                    0
                } else {
                    s0.memory.word(k)
                } by {
                    if k == s0.physical_address / 4 + pml2e_index {
                    } else {
                        assert(self.memory.word(k) == zeroed.memory.word(k));
                    }
                }
                Self::lemma_install_table(s0, *self, pml2e_index as int, pml2e.0);
            }
        }
        let ghost s1 = *self;
        assert(pml2e.0 == s1.pde(pml2e_index as int));
        assert(present32(pml2e.0));

        let pml1_table_address = pml2e.table_address() as u64;
        proof {
            lemma_address_aligned(pml2e.0);
        }
        let pml1e_address = pml1_table_address + pml1e_index * 4;
        assert(pml1e_address / 4 == pml1_table_address / 4 + pml1e_index);
        let pml1e = TranslationDescriptor::non_present().set_present(present).set_writable(writable).set_page_address(
            physical_address,
        );
        proof {
            lemma_table_entry(physical_address, present, writable);
            assert(pml1_table_address + 4096 <= s1.allocator.end);
        }
        self.memory.write_u32(pml1e_address, pml1e.to_bits());
        proof {
            assert forall|k: int| #[trigger] self.memory.word(k) == if k == address32(s1.pde(pml2e_index as int)) / 4
                + pml1e_index {
                pml1e.0
            } else {
                s1.memory.word(k)
            } by {}
            Self::lemma_write_table_entry(s1, *self, pml2e_index as int, pml1e_index as int, pml1e.0);
            assert(v == pml2e_index * 1024 + pml1e_index);
        }
        Ok(())
    }
}


/// A 4 KiB aligned physical address, truncated to 32 bits, is its value modulo 2^32.
proof fn lemma_truncated_page(x: u64)
    requires
        x % 4096 == 0,
    ensures
        ((x as u32) & 0xFFFF_F000u32) as int == x % 0x1_0000_0000,
{
    assert(x % 4096 == 0 ==> ((x as u32) & 0xFFFF_F000u32) as u64 == x % 0x1_0000_0000) by (bit_vector);
}

impl Bits32AddressSpace {
    /// The largest virtual address.
    pub open spec fn spec_max_virtual_address() -> u64 {
        0xFFFF_FFFF
    }

    /// The largest physical address.
    pub open spec fn spec_max_physical_address(&self) -> u64 {
        if self.spec_pse36() {
            0xF_FFFF_FFFF
        } else {
            0xFFFF_FFFF
        }
    }

    /// The error that [`Bits32AddressSpace::map`] returns before changing any page table, if
    /// any.
    pub open spec fn map_precheck(&self, virtual_address: u64, physical_address: u64, count: u64) -> Option<MapError> {
        let size = count * 4096;
        if virtual_address % 4096 != 0 || physical_address % 4096 != 0 {
            Some(MapError::AlignmentError)
        } else if size > u64::MAX {
            Some(MapError::InvalidSize)
        } else if physical_address + size > u64::MAX || physical_address + size
            > self.spec_max_physical_address() {
            Some(MapError::WrapAroundError)
        } else if virtual_address + size > u64::MAX || virtual_address + size
            > Self::spec_max_virtual_address() {
            Some(MapError::WrapAroundError)
        } else if exists|i: int| 0 <= i < count && #[trigger] self.is_mapped((virtual_address + i * 4096) as u64) {
            Some(MapError::OverlapError)
        } else {
            None
        }
    }

    /// The entry of page `w` once the first `done` pages of a mapping of `count` pages from
    /// `virtual_address` to `physical_address` have been written.
    pub open spec fn mapped_entry(
        &self,
        virtual_address: u64,
        physical_address: u64,
        protection: ProtectionFlags,
        done: int,
        w: int,
    ) -> Option<(int, bool)> {
        let first = virtual_address / 4096;
        if first <= w < first + done {
            if protection.has(PROTECTION_READ) || protection.has(PROTECTION_WRITE) || protection.has(
                PROTECTION_EXEC,
            ) {
                Some(
                    (
                        (physical_address + (w - first) * 4096) % 0x1_0000_0000,
                        protection.has(PROTECTION_WRITE),
                    ),
                )
            } else {
                None
            }
        } else {
            self.page_entry(w)
        }
    }

    /// Every page of this address space has the entry that `old` has once the first `done`
    /// pages of the mapping are written.
    pub open spec fn shows_mapping(
        &self,
        old: &Self,
        virtual_address: u64,
        physical_address: u64,
        protection: ProtectionFlags,
        done: int,
    ) -> bool {
        forall|w: int| 0 <= w < 0x100000 ==> #[trigger] self.page_entry(w) == old.mapped_entry(
            virtual_address, physical_address, protection, done, w)
    }

    /// Returns the size of a page in bytes.
    pub fn page_size(&self) -> (size: u64)
        ensures
            size == 4096,
    {
        4096
    }

    /// Returns the maximum virtual address (inclusive).
    pub fn max_virtual_address(&self) -> (address: u64)
        ensures
            address == Self::spec_max_virtual_address(),
    {
        0xFFFF_FFFF
    }

    /// Returns the maximum physical address (inclusive).
    pub fn max_physical_address(&self) -> (address: u64)
        ensures
            address == self.spec_max_physical_address(),
    {
        if self.pse36 {
            0xF_FFFF_FFFF
        } else {
            0xFFFF_FFFF
        }
    }

    /// Returns the required value of the `CR3` register in order to utilize this address
    /// space.
    pub fn cr3(&self) -> (value: u64)
        ensures
            value == self.root(),
    {
        self.physical_address
    }

    /// Maps the physical region with a base of `physical_address` and a size of `count` pages
    /// into the address space at `virtual_address` with the specified protection.
    ///
    /// A page is present when the protection allows any access. Page table entries hold 32-bit
    /// page addresses, so a physical page above 4 GiB is recorded modulo 2^32.
    pub fn map(
        &mut self,
        virtual_address: u64,
        physical_address: u64,
        count: u64,
        protection: ProtectionFlags,
    ) -> (result: Result<(), MapError>)
        requires
            old(self).wf(),
        ensures
            final(self).wf(),
            final(self).same_settings(old(self)),
            match old(self).map_precheck(virtual_address, physical_address, count) {
                Some(error) => result == Err::<(), MapError>(error) && *final(self) == *old(self),
                None => match result {
                    Ok(()) => final(self).shows_mapping(old(self), virtual_address, physical_address, protection, count as int),
                    Err(error) => {
                        &&& error == MapError::AllocationError
                        &&& !final(self).spec_allocator().can_allocate()
                        &&& exists|done: int| 0 <= done < count && #[trigger] final(self).shows_mapping(
                            old(self), virtual_address, physical_address, protection, done) && !present32(final(self).pde(
                            ((virtual_address + done * 4096) / 0x40_0000) as int))
                    },
                },
            },
    {
        if virtual_address % 4096 != 0 || physical_address % 4096 != 0 {
            return Err(MapError::AlignmentError);
        }
        let requested_mapping_size = match count.checked_mul(4096u64) {
            Some(size) => size,
            None => return Err(MapError::InvalidSize),
        };
        let physical_end_address = match physical_address.checked_add(requested_mapping_size) {
            Some(end) => end,
            None => return Err(MapError::WrapAroundError),
        };
        if physical_end_address > self.max_physical_address() {
            return Err(MapError::WrapAroundError);
        }
        let virtual_end_address = match virtual_address.checked_add(requested_mapping_size) {
            Some(end) => end,
            None => return Err(MapError::WrapAroundError),
        };
        if virtual_end_address > self.max_virtual_address() {
            return Err(MapError::WrapAroundError);
        }

        // Validate that the entire required mapping region is unmapped.
        let mut index: u64 = 0;
        while index < count
            invariant
                self.wf(),
                *self == *old(self),
                index <= count,
                virtual_address % 4096 == 0,
                physical_address % 4096 == 0,
                physical_address + count * 4096 <= self.spec_max_physical_address(),
                virtual_address + count * 4096 <= 0xFFFF_FFFF,
                forall|i: int| 0 <= i < index ==> !#[trigger] self.is_mapped((virtual_address + i * 4096) as u64),
            decreases count - index,
        {
            let offset = index * 4096;
            let address = virtual_address + offset;
            if self.translate_virt(address).is_ok() {
                assert(0 <= index < count && self.is_mapped((virtual_address + (index as int) * 4096) as u64));

                return Err(MapError::OverlapError);
            }
            index += 1;
        }

        assert(old(self).map_precheck(virtual_address, physical_address, count) is None);
        self.map_unchecked(virtual_address, physical_address, count, protection)
    }

    /// Maps `count` pages from `virtual_address` to the frames from `physical_address` with
    /// `protection`, page by page, allocating the missing tables; the region is not checked.
    pub(crate) fn map_unchecked(
        &mut self,
        virtual_address: u64,
        physical_address: u64,
        count: u64,
        protection: ProtectionFlags,
    ) -> (result: Result<(), MapError>)
        requires
            old(self).wf(),
            virtual_address % 4096 == 0,
            physical_address % 4096 == 0,
            virtual_address + count * 4096 <= 0x1_0000_0000,
            physical_address + count * 4096 <= 0xF_FFFF_FFFF,
        ensures
            final(self).wf(),
            final(self).same_settings(old(self)),
            final(self).root() == old(self).root(),
            final(self).spec_pse() == old(self).spec_pse(),
            final(self).spec_pse36() == old(self).spec_pse36(),
            match result {
                Ok(()) => final(self).shows_mapping(old(self), virtual_address, physical_address, protection, count as int),
                Err(error) => {
                    &&& error == MapError::AllocationError
                    &&& !final(self).spec_allocator().can_allocate()
                    &&& exists|done: int| 0 <= done < count && #[trigger] final(self).shows_mapping(
                        old(self), virtual_address, physical_address, protection, done) && !present32(final(self).pde(
                        ((virtual_address + done * 4096) / 0x40_0000) as int))
                },
            },
    {
        let present = protection.readable() || protection.writable() || protection.executable();
        let writable = protection.writable();
        let ghost s0 = *self;
        let mut index: u64 = 0;
        while index < count
            invariant
                self.wf(),
                self.same_settings(&s0),
                s0 == *old(self),
                s0.wf(),
                index <= count,
                virtual_address % 4096 == 0,
                physical_address % 4096 == 0,
                virtual_address + count * 4096 <= 0x1_0000_0000,
                physical_address + count * 4096 <= 0xF_FFFF_FFFF,
                present == (protection.has(PROTECTION_READ) || protection.has(PROTECTION_WRITE)
                    || protection.has(PROTECTION_EXEC)),
                writable == protection.has(PROTECTION_WRITE),
                forall|w: int| 0 <= w < 0x100000 ==> #[trigger] self.page_entry(w) == s0.mapped_entry(
                    virtual_address, physical_address, protection, index as int, w),
            decreases count - index,
        {
            let offset = index * 4096;
            let page_physical_address = physical_address + offset;
            let page_virtual_address = virtual_address + offset;
            proof {
                lemma_truncated_page(page_physical_address);
            }
            let ghost before = *self;
            let truncated = #[verifier::truncate] (page_physical_address as u32);
            match self.map_page(page_virtual_address, truncated, present, writable) {
                Ok(()) => {},
                Err(error) => {
                    assert(self.shows_mapping(old(self), virtual_address, physical_address, protection, index as int));
                    assert(!self.spec_allocator().can_allocate());
                    assert(!present32(self.pde(((virtual_address + index * 4096) / 0x40_0000) as int)));
                    return Err(error);
                },
            }
            proof {
                assert(page_virtual_address / 4096 == virtual_address / 4096 + index);
                assert forall|w: int| 0 <= w < 0x100000 implies #[trigger] self.page_entry(w) == s0.mapped_entry(
                    virtual_address, physical_address, protection, index + 1, w) by {
                    if w != (page_virtual_address / 4096) as int {
                        assert(before.page_entry(w) == s0.mapped_entry(virtual_address, physical_address, protection, index as int, w));
                    }
                }
            }
            index += 1;
        }
        Ok(())
    }
}


impl Bits32AddressSpace {
    /// The first `count` pages from `virtual_address` are free.
    pub open spec fn region_free(&self, virtual_address: int, count: int) -> bool {
        forall|i: int| 0 <= i < count ==> !#[trigger] self.is_mapped((virtual_address + i * 4096) as u64)
    }

    /// A region of `count` pages at `virtual_address` is a candidate for
    /// [`Bits32AddressSpace::find_region`]: it starts on a page boundary past the first page and
    /// ends within the address space.
    pub open spec fn region_candidate(virtual_address: int, count: int) -> bool {
        &&& virtual_address % 4096 == 0
        &&& 4096 <= virtual_address
        &&& virtual_address + count * 4096 <= 0xFFFF_FFFF
    }

    /// Unmaps `count` pages starting at `virtual_address`.
    pub fn unmap(&mut self, virtual_address: u64, count: u64)
        requires
            old(self).wf(),
            count == 0 || virtual_address + (count - 1) * 4096 <= u64::MAX,
            forall|i: int| 0 <= i < count ==> #[trigger] old(self).is_mapped((virtual_address + i * 4096) as u64),
        ensures
            final(self).wf(),
            final(self).same_settings(old(self)),
            forall|w: int| 0 <= w < 0x100000 ==> #[trigger] final(self).page_entry(w) == if virtual_address
                / 4096 <= w < virtual_address / 4096 + count {
                None
            } else {
                old(self).page_entry(w)
            },
    {
        let mut index: u64 = 0;
        while index < count
            invariant
                self.wf(),
                self.same_settings(old(self)),
                index <= count,
                count == 0 || virtual_address + (count - 1) * 4096 <= u64::MAX,
                forall|i: int| 0 <= i < count ==> #[trigger] old(self).is_mapped((virtual_address + i * 4096) as u64),
                forall|w: int| 0 <= w < 0x100000 ==> #[trigger] self.page_entry(w) == if virtual_address
                    / 4096 <= w < virtual_address / 4096 + index {
                    None
                } else {
                    old(self).page_entry(w)
                },
            decreases count - index,
        {
            assert(old(self).is_mapped((virtual_address + (index as int) * 4096) as u64));
            let offset = index * 4096;
            let address = virtual_address + offset;
            proof {
                lemma_indices(address);
            }
            let pml2e_index = (address >> 22u64) & 0x3FF;
            let pml1e_index = (address >> 12u64) & 0x3FF;
            let pml2e_address = self.physical_address + pml2e_index * 4;
            assert(pml2e_address / 4 == self.physical_address / 4 + pml2e_index);
            let pml2e = TranslationDescriptor::from_bits(self.memory.read_u32(pml2e_address));
            let ghost s1 = *self;
            assert(address / 4096 == virtual_address / 4096 + index);
            assert(s1.page_entry((address / 4096) as int) is Some);
            assert(present32(pml2e.0));
            let pml1_table_address = pml2e.table_address() as u64;
            proof {
                lemma_address_aligned(pml2e.0);
            }
            let pml1e_address = pml1_table_address + pml1e_index * 4;
            assert(pml1e_address / 4 == pml1_table_address / 4 + pml1e_index);
            self.memory.write_u32(pml1e_address, TranslationDescriptor::non_present().to_bits());
            proof {
                assert forall|k: int| #[trigger] self.memory.word(k) == if k == address32(s1.pde(pml2e_index as int)) / 4
                    + pml1e_index {
                    0u32
                } else {
                    s1.memory.word(k)
                } by {}
                Self::lemma_write_table_entry(s1, *self, pml2e_index as int, pml1e_index as int, 0);
                lemma_address_aligned(0);
            }
            index += 1;
        }
    }

    /// Returns the lowest page-aligned virtual address past the first page at which `count`
    /// unmapped pages fit.
    pub fn find_region(&self, count: u64) -> (result: Result<u64, NotFound>)
        requires
            self.wf(),
        ensures
            match result {
                Ok(address) => {
                    &&& Self::region_candidate(address as int, count as int)
                    &&& self.region_free(address as int, count as int)
                    &&& forall|a: int| Self::region_candidate(a, count as int) && a < address
                        ==> !#[trigger] self.region_free(a, count as int)
                },
                Err(_) => forall|a: int| #[trigger] Self::region_candidate(a, count as int)
                    ==> !self.region_free(a, count as int),
            },
    {
        let max_va = self.max_virtual_address();
        let page_size = self.page_size();
        let mut current = page_size;
        loop
            invariant
                self.wf(),
                max_va == 0xFFFF_FFFF,
                page_size == 4096,
                current % 4096 == 0,
                4096 <= current,
                forall|a: int| Self::region_candidate(a, count as int) && a < current
                    ==> !#[trigger] self.region_free(a, count as int),
            decreases u64::MAX - current,
        {
            let fits = match count.checked_mul(page_size) {
                Some(size) => match current.checked_add(size) {
                    Some(max_region_va) => max_region_va <= max_va,
                    None => false,
                },
                None => false,
            };
            if !fits {
                assert forall|a: int| #[trigger] Self::region_candidate(a, count as int) implies !self.region_free(
                    a,
                    count as int,
                ) by {
                    assert(a < current);
                }
                return Err(NotFound);
            }
            let mut free = true;
            let mut i: u64 = 0;
            while free && i < count
                invariant
                    self.wf(),
                    page_size == 4096,
                    i <= count,
                    current + count * 4096 <= 0xFFFF_FFFF,
                    forall|k: int| 0 <= k < i ==> !#[trigger] self.is_mapped((current + k * 4096) as u64),
                    !free ==> i < count && self.is_mapped((current + i * 4096) as u64),
                decreases count - i + if free { 1int } else { 0int },
            {
                if self.translate_virt(current + i * page_size).is_ok() {
                    free = false;
                } else {
                    i += 1;
                }
            }
            if free {
                assert(self.region_free(current as int, count as int));
                return Ok(current);
            }
            let mapped = current + i * page_size;
            assert(self.is_mapped(mapped));
            proof {
                assert forall|a: int| Self::region_candidate(a, count as int) && a < current + (i + 1) * 4096
                    implies !#[trigger] self.region_free(a, count as int) by {
                    if a >= current {
                        let k = (mapped - a) / 4096;
                        assert(mapped - a == k * 4096);
                        assert(0 <= k < count);
                        assert((a + k * 4096) as u64 == mapped);
                    }
                }
            }
            current = current + (i + 1) * page_size;
        }
    }
}


impl Bits32AddressSpace {
    /// Creates a new [`Bits32AddressSpace`] with the provided flags, whose page tables live in
    /// `memory` and take their frames from `allocator`.
    ///
    /// `pse_supported` and `pse36_supported` tell whether the processor supports the `PSE` and
    /// `PSE-36` features.
    pub fn new(
        pse: bool,
        pse36: bool,
        pse_supported: bool,
        pse36_supported: bool,
        memory: PhysicalMemory32,
        allocator: FrameAllocator,
    ) -> (result: Result<Self, Bits32Error>)
        requires
            allocator.wf(),
            allocator.end <= memory.byte_len(),
            allocator.end <= 0x1_0000_0000,
        ensures
            (pse && !pse_supported) || (pse36 && !pse36_supported) ==> result == Err::<Self, Bits32Error>(
                Bits32Error::NotActive,
            ),
            !((pse && !pse_supported) || (pse36 && !pse36_supported)) ==> match result {
                Ok(space) => {
                    &&& allocator.can_allocate()
                    &&& space.wf()
                    &&& space.root() == allocator.next
                    &&& space.spec_pse() == pse
                    &&& space.spec_pse36() == pse36
                    &&& space.spec_allocator().next == allocator.next + 4096
                    &&& space.spec_allocator().end == allocator.end
                    &&& forall|w: int| 0 <= w < 0x100000 ==> #[trigger] space.page_entry(w) is None
                },
                Err(error) => error == Bits32Error::OutOfMemory && !allocator.can_allocate(),
            },
    {
        if (pse && !pse_supported) || (pse36 && !pse36_supported) {
            return Err(Bits32Error::NotActive);
        }
        let root = allocator.next;
        let mut space = Bits32AddressSpace { physical_address: 0, pse, pse36, memory, allocator };
        if space.allocator.next > space.allocator.end || space.allocator.end - space.allocator.next
            < 4096 {
            return Err(Bits32Error::OutOfMemory);
        }
        space.physical_address = root;
        space.allocator.next = root + 4096;
        let ghost before = space.memory;
        let mut i: u64 = 0;
        while i < 1024
            invariant
                i <= 1024,
                root == allocator.next,
                space.physical_address == root,
                space.pse == pse,
                space.pse36 == pse36,
                space.allocator.next == root + 4096,
                space.allocator.end == allocator.end,
                allocator.wf(),
                allocator.end <= before.byte_len(),
                allocator.end <= 0x1_0000_0000,
                root + 4096 <= allocator.end,
                root % 4096 == 0,
                root + 4096 <= before.byte_len(),
                space.memory.words@.len() == before.words@.len(),
                forall|k: int| root / 4 <= k < root / 4 + i ==> #[trigger] space.memory.word(k) == 0,
            decreases 1024 - i,
        {
            let address = root + i * 4;
            assert(address / 4 == root / 4 + i);
            let ghost prev = space.memory;
            space.memory.write_u32(address, 0);
            assert forall|k: int| #[trigger] space.memory.word(k) == if k == root / 4 + i {
                0
            } else {
                prev.word(k)
            } by {}
            i += 1;
        }
        proof {
            lemma_address_aligned(0);
            assert forall|a: int| 0 <= a < 1024 implies !present32(#[trigger] space.pde(a)) by {}
        }
        Ok(space)
    }

    /// Page tables rooted at `physical_address`, with the given settings, held in `memory`,
    /// whose frames come from `allocator`.
    pub closed spec fn spec_from_parts(
        physical_address: u64,
        pse: bool,
        pse36: bool,
        memory: PhysicalMemory32,
        allocator: FrameAllocator,
    ) -> Self {
        Bits32AddressSpace { physical_address, pse, pse36, memory, allocator }
    }

    /// The parts of [`Bits32AddressSpace::spec_from_parts`] are those it was given.
    pub proof fn lemma_from_parts(
        physical_address: u64,
        pse: bool,
        pse36: bool,
        memory: PhysicalMemory32,
        allocator: FrameAllocator,
    )
        ensures
            Self::spec_from_parts(physical_address, pse, pse36, memory, allocator).root() == physical_address,
            Self::spec_from_parts(physical_address, pse, pse36, memory, allocator).spec_pse() == pse,
            Self::spec_from_parts(physical_address, pse, pse36, memory, allocator).spec_pse36() == pse36,
            *Self::spec_from_parts(physical_address, pse, pse36, memory, allocator).spec_memory() == memory,
            Self::spec_from_parts(physical_address, pse, pse36, memory, allocator).spec_allocator() == allocator,
    {
    }

    /// Assembles the page tables rooted at `physical_address` from the memory that holds them
    /// and the allocator of their frames.
    pub fn from_parts(
        physical_address: u64,
        pse: bool,
        pse36: bool,
        memory: PhysicalMemory32,
        allocator: FrameAllocator,
    ) -> (space: Self)
        ensures
            space == Self::spec_from_parts(physical_address, pse, pse36, memory, allocator),
    {
        Bits32AddressSpace { physical_address, pse, pse36, memory, allocator }
    }

    /// Takes the page tables apart into the memory that holds them and the allocator of their
    /// frames.
    pub fn into_parts(self) -> (parts: (PhysicalMemory32, FrameAllocator))
        ensures
            parts.0 == *self.spec_memory(),
            parts.1 == self.spec_allocator(),
            self == Self::spec_from_parts(self.root() as u64, self.spec_pse(), self.spec_pse36(), parts.0, parts.1),
    {
        (self.memory, self.allocator)
    }

    /// The root table of well-formed tables is an aligned frame below 4 GiB.
    pub proof fn lemma_wf_root(&self)
        requires
            self.wf(),
        ensures
            self.root() % 4096 == 0,
            self.root() + 4096 <= 0x1_0000_0000,
    {
    }

    /// With well-formed tables, walking the words of the memory for `va` gives
    /// [`Bits32AddressSpace::translation`]: no present directory entry maps a 4 MiB page.
    pub proof fn lemma_walk(&self, va: u64)
        requires
            self.wf(),
            va <= 0xFFFF_FFFF,
        ensures
            ({
                let m = *self.spec_memory();
                let pde = m.word((self.root() + ((va >> 22u64) & 0x3FF) * 4) / 4);
                let pte = m.word(address32(pde) / 4 + ((va >> 12u64) & 0x3FF));
                &&& present32(pde) ==> !block32(pde)
                &&& self.translation(va) == if !present32(pde) || !present32(pte) {
                    None
                } else {
                    Some(((address32(pte) + va % 4096) as int, writable32(pde) && writable32(pte)))
                }
            }),
    {
        lemma_indices(va);
        let v = (va / 4096) as int;
        let i = v / 1024;
        assert(0 <= i < 1024);
        assert((self.root() + ((va >> 22u64) & 0x3FF) * 4) / 4 == self.physical_address / 4 + i);
        assert(self.memory.word(self.physical_address / 4 + i) == self.pde(i));
    }

    /// Clears the table entry of each of the `count` pages from `virtual_address` whose
    /// directory entry is present.
    pub(crate) fn unmap_present(&mut self, virtual_address: u64, count: u64)
        requires
            old(self).wf(),
            virtual_address % 4096 == 0,
            virtual_address + count * 4096 <= 0x1_0000_0000,
        ensures
            final(self).wf(),
            final(self).same_settings(old(self)),
            final(self).root() == old(self).root(),
            final(self).spec_pse() == old(self).spec_pse(),
            final(self).spec_pse36() == old(self).spec_pse36(),
            final(self).spec_allocator() == old(self).spec_allocator(),
            forall|w: int| 0 <= w < 0x100000 ==> #[trigger] final(self).page_entry(w) == if virtual_address
                / 4096 <= w < virtual_address / 4096 + count {
                None
            } else {
                old(self).page_entry(w)
            },
    {
        let mut index: u64 = 0;
        while index < count
            invariant
                self.wf(),
                self.same_settings(old(self)),
                self.spec_allocator() == old(self).spec_allocator(),
                index <= count,
                virtual_address % 4096 == 0,
                virtual_address + count * 4096 <= 0x1_0000_0000,
                forall|w: int| 0 <= w < 0x100000 ==> #[trigger] self.page_entry(w) == if virtual_address
                    / 4096 <= w < virtual_address / 4096 + index {
                    None
                } else {
                    old(self).page_entry(w)
                },
            decreases count - index,
        {
            let offset = index * 4096;
            let address = virtual_address + offset;
            proof {
                lemma_indices(address);
            }
            assert(address / 4096 == virtual_address / 4096 + index);
            let pml2e_index = (address >> 22u64) & 0x3FF;
            let pml1e_index = (address >> 12u64) & 0x3FF;
            let pml2e_address = self.physical_address + pml2e_index * 4;
            assert(pml2e_address / 4 == self.physical_address / 4 + pml2e_index);
            let pml2e = TranslationDescriptor::from_bits(self.memory.read_u32(pml2e_address));
            let ghost s1 = *self;
            if pml2e.present() {
                let pml1_table_address = pml2e.table_address() as u64;
                proof {
                    lemma_address_aligned(pml2e.0);
                }
                let pml1e_address = pml1_table_address + pml1e_index * 4;
                assert(pml1e_address / 4 == pml1_table_address / 4 + pml1e_index);
                self.memory.write_u32(pml1e_address, TranslationDescriptor::non_present().to_bits());
                proof {
                    assert forall|k: int| #[trigger] self.memory.word(k) == if k == address32(s1.pde(pml2e_index as int)) / 4
                        + pml1e_index {
                        0u32
                    } else {
                        s1.memory.word(k)
                    } by {}
                    Self::lemma_write_table_entry(s1, *self, pml2e_index as int, pml1e_index as int, 0);
                    lemma_address_aligned(0);
                    assert(self.page_entry((address / 4096) as int) is None);
                }
            } else {
                assert(s1.page_entry((address / 4096) as int) is None);
            }
            index += 1;
        }
    }

    /// Returns the physical memory that holds the page tables.
    pub fn memory(&self) -> (memory: &PhysicalMemory32)
        ensures
            memory == self.spec_memory(),
    {
        &self.memory
    }

    /// The physical memory that holds the page tables.
    pub closed spec fn spec_memory(&self) -> &PhysicalMemory32 {
        &self.memory
    }
}


/// The page number of an address inside a mapped region lies inside the region's pages, at
/// the distance of the address from the region's start.
pub proof fn lemma_page_in_region(virtual_address: u64, count: u64, address: u64)
    requires
        virtual_address % 4096 == 0,
        virtual_address <= address < virtual_address + count * 4096,
    ensures
        virtual_address / 4096 <= address / 4096 < virtual_address / 4096 + count,
        (address / 4096 - virtual_address / 4096) * 4096 == address - virtual_address - address % 4096,
{
    assert(virtual_address / 4096 <= address / 4096 < virtual_address / 4096 + count
        && (address / 4096 - virtual_address / 4096) * 4096 == address - virtual_address - address
        % 4096) by (nonlinear_arith)
        requires
            virtual_address % 4096 == 0,
            virtual_address <= address < virtual_address + count * 4096,
    ;
}

/// The page number of an address outside a region of pages lies outside the region's pages.
proof fn lemma_page_outside_region(virtual_address: u64, count: u64, address: u64)
    requires
        virtual_address % 4096 == 0,
        address < virtual_address || virtual_address + count * 4096 <= address,
    ensures
        !(virtual_address / 4096 <= address / 4096 < virtual_address / 4096 + count),
{
    assert(!(virtual_address / 4096 <= address / 4096 < virtual_address / 4096 + count)) by (nonlinear_arith)
        requires
            virtual_address % 4096 == 0,
            address < virtual_address || virtual_address + count * 4096 <= address,
    ;
}

/// After a successful [`Bits32AddressSpace::map`] with a protection that allows some access,
/// every address of the mapped region translates to the matching physical address (page
/// addresses taken modulo 2^32) with the requested write permission.
pub proof fn law_map_then_translate(
    before: &Bits32AddressSpace,
    after: &Bits32AddressSpace,
    virtual_address: u64,
    physical_address: u64,
    count: u64,
    protection: ProtectionFlags,
    address: u64,
)
    requires
        before.map_precheck(virtual_address, physical_address, count) is None,
        after.shows_mapping(before, virtual_address, physical_address, protection, count as int),
        protection.has(PROTECTION_READ) || protection.has(PROTECTION_WRITE) || protection.has(
            PROTECTION_EXEC,
        ),
        virtual_address <= address < virtual_address + count * 4096,
    ensures
        after.translation(address) == Some(
            (
                (physical_address + (address - virtual_address - address % 4096)) % 0x1_0000_0000
                    + address % 4096,
                protection.has(PROTECTION_WRITE),
            ),
        ),
{
    lemma_page_in_region(virtual_address, count, address);
    let w = (address / 4096) as int;
    assert(0 <= w < 0x100000);
    assert(after.page_entry(w) == before.mapped_entry(
        virtual_address, physical_address, protection, count as int, w));
}

/// A successful [`Bits32AddressSpace::map`] leaves the translation of every address outside
/// the mapped region as it was.
pub proof fn law_map_keeps_other_addresses(
    before: &Bits32AddressSpace,
    after: &Bits32AddressSpace,
    virtual_address: u64,
    physical_address: u64,
    count: u64,
    protection: ProtectionFlags,
    address: u64,
)
    requires
        before.map_precheck(virtual_address, physical_address, count) is None,
        after.shows_mapping(before, virtual_address, physical_address, protection, count as int),
        address < virtual_address || virtual_address + count * 4096 <= address,
    ensures
        after.translation(address) == before.translation(address),
{
    if address <= 0xFFFF_FFFF {
        lemma_page_outside_region(virtual_address, count, address);
        let w = (address / 4096) as int;
        assert(after.page_entry(w) == before.mapped_entry(
            virtual_address, physical_address, protection, count as int, w));
    }
}

/// After [`Bits32AddressSpace::unmap`], no address of the unmapped region translates, and
/// every other address translates as before.
pub proof fn law_unmap_then_translate(
    before: &Bits32AddressSpace,
    after: &Bits32AddressSpace,
    virtual_address: u64,
    count: u64,
    address: u64,
)
    requires
        virtual_address % 4096 == 0,
        forall|w: int| 0 <= w < 0x100000 ==> #[trigger] after.page_entry(w) == if virtual_address
            / 4096 <= w < virtual_address / 4096 + count {
            None
        } else {
            before.page_entry(w)
        },
    ensures
        virtual_address <= address < virtual_address + count * 4096 ==> after.translation(address) is None,
        address < virtual_address || virtual_address + count * 4096 <= address ==> after.translation(address)
            == before.translation(address),
{
    if address <= 0xFFFF_FFFF {
        let w = (address / 4096) as int;
        assert(after.page_entry(w) == if virtual_address / 4096 <= w < virtual_address / 4096 + count {
            None
        } else {
            before.page_entry(w)
        });
        if virtual_address <= address < virtual_address + count * 4096 {
            lemma_page_in_region(virtual_address, count, address);
        } else {
            lemma_page_outside_region(virtual_address, count, address);
        }
    }
}

/// Mapping a region with [`Bits32AddressSpace::map`] and then unmapping the same region with
/// [`Bits32AddressSpace::unmap`] gives back the translation of every address.
pub proof fn law_map_then_unmap_restores(
    before: &Bits32AddressSpace,
    mapped: &Bits32AddressSpace,
    after: &Bits32AddressSpace,
    virtual_address: u64,
    physical_address: u64,
    count: u64,
    protection: ProtectionFlags,
    address: u64,
)
    requires
        before.map_precheck(virtual_address, physical_address, count) is None,
        mapped.shows_mapping(before, virtual_address, physical_address, protection, count as int),
        forall|w: int| 0 <= w < 0x100000 ==> #[trigger] after.page_entry(w) == if virtual_address
            / 4096 <= w < virtual_address / 4096 + count {
            None
        } else {
            mapped.page_entry(w)
        },
    ensures
        after.translation(address) == before.translation(address),
{
    if address <= 0xFFFF_FFFF {
        let w = (address / 4096) as int;
        assert(after.page_entry(w) == if virtual_address / 4096 <= w < virtual_address / 4096 + count {
            None
        } else {
            mapped.page_entry(w)
        });
        if virtual_address <= address < virtual_address + count * 4096 {
            lemma_page_in_region(virtual_address, count, address);
            let i = w - virtual_address / 4096;
            assert((virtual_address + i * 4096) as u64 == address - address % 4096);
            assert(!before.is_mapped((virtual_address + i * 4096) as u64));
            assert((address - address % 4096) as u64 / 4096 == address / 4096);
        } else {
            lemma_page_outside_region(virtual_address, count, address);
            assert(mapped.page_entry(w) == before.mapped_entry(
                virtual_address, physical_address, protection, count as int, w));
        }
    }
}


/// The 32-bit tables seen as a translation scheme: 32-bit input addresses, 4 KiB chunks.
impl TranslationScheme for Bits32AddressSpace {
    open spec fn valid(&self) -> bool {
        self.wf()
    }

    open spec fn spec_input_descriptor(&self) -> AddressSpaceDescriptor {
        AddressSpaceDescriptor::spec_new(32, false)
    }

    open spec fn spec_chunk_size(&self) -> u64 {
        4096
    }

    open spec fn output_address(&self, address: u64) -> Option<u64> {
        match self.translation(address) {
            Some((output, _)) => Some(output as u64),
            None => None,
        }
    }

    fn input_descriptor(&self) -> (descriptor: AddressSpaceDescriptor) {
        AddressSpaceDescriptor::new(32, false)
    }

    fn chunk_size(&self) -> (size: u64) {
        4096
    }

    /// Pages are always readable and executable, and writable when every level of the walk
    /// allows writes.
    fn translate(&self, address: u64) -> (result: Option<(Permissions, MappingType, u64)>)
        ensures
            match self.translation(address) {
                Some((pa, writable)) => result == Some((
                    Permissions::from_access_spec(writable, true),
                    MappingType::Normal,
                    pa as u64,
                )),
                None => result is None,
            },
    {
        match self.translate_virt(address) {
            Ok((physical_address, flags)) => Some(
                (Permissions::from_access(flags.writable(), true), MappingType::Normal, physical_address),
            ),
            Err(_) => None,
        }
    }
}

} // verus!
