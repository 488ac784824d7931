//! VMSAv8-64 stage 1 translation tables: the geometry of the levels for a granule and region
//! size, the descriptor format, and how the hardware walk reads them.
use vstd::prelude::*;

use crate::aarch64::{AddressSize, Granule, PhysicalAddressSpaceSize, VmsaV8TranslationScheme};
use crate::descriptor::{low_mask, AddressSpaceDescriptor};
use crate::paging::{MappingType, Permissions};
use crate::physical_memory::PhysicalMemory64;
use vstd::arithmetic::power2::pow2;

verus! {

/// The number of bits of the offset within a page of `granule`.
pub open spec fn page_bits(granule: Granule) -> u64 {
    match granule {
        Granule::Page4KiB => 12,
        Granule::Page16KiB => 14,
        Granule::Page64KiB => 16,
    }
}

/// The number of index bits of a full table of `granule`.
pub open spec fn index_bits(granule: Granule) -> u64 {
    (page_bits(granule) - 3) as u64
}

/// The number of input address bits above the page offset in a region whose size offset is
/// `txsz`.
pub open spec fn input_bits(granule: Granule, txsz: u8) -> u64 {
    (64 - txsz - page_bits(granule)) as u64
}

/// The number of table levels that translate a region whose size offset is `txsz`.
pub open spec fn level_count(granule: Granule, txsz: u8) -> u64 {
    ((input_bits(granule, txsz) + index_bits(granule) - 1) as int / index_bits(granule) as int) as u64
}

/// The lowest input bit, above the page offset, that indexes the table of level `level`.
pub open spec fn base_bit(granule: Granule, txsz: u8, level: u64) -> u64 {
    ((level_count(granule, txsz) - 1 - level) * index_bits(granule)) as u64
}

/// The mask of the input address bits from `base` up to `top`, above a page offset of `pb`
/// bits.
pub open spec fn index_mask(pb: u64, base: u64, top: u64) -> u64 {
    let top_mask = if top == 64 { u64::MAX } else { ((1u64 << top) - 1) as u64 };
    let base_mask = ((1u64 << base) - 1) as u64;
    ((top_mask - base_mask) as u64) << pb
}

/// The index of `va` into the table of level `level`: its input bits from `base_bit` up to the
/// next level's, or to the top of the region.
pub open spec fn table_index(granule: Granule, txsz: u8, va: u64, level: u64) -> u64 {
    let base = base_bit(granule, txsz, level);
    let top = if base + index_bits(granule) < input_bits(granule, txsz) {
        (base + index_bits(granule)) as u64
    } else {
        input_bits(granule, txsz)
    };
    ((va & index_mask(page_bits(granule), base, top)) >> base) >> page_bits(granule)
}

/// The descriptor is valid.
pub open spec fn valid_descriptor(e: u64) -> bool {
    e & 1 == 1
}

/// The descriptor points to a table, or, at the last level, maps a page.
pub open spec fn table_or_page(e: u64) -> bool {
    e & 2 == 2
}

/// The output address field of a descriptor: bits 47 down to the page offset for 48-bit
/// output addresses; for 52-bit output addresses with 64 KiB pages, bits 51 to 48 come from
/// bits 15 to 12, and with smaller pages, bits 51 to 50 from bits 9 to 8 above bits 49 down to
/// the page offset.
pub open spec fn descriptor_address(granule: Granule, size: AddressSize, e: u64) -> u64 {
    match (size, granule) {
        (AddressSize::Bits48, Granule::Page4KiB) => e & 0x0000_FFFF_FFFF_F000,
        (AddressSize::Bits48, Granule::Page16KiB) => e & 0x0000_FFFF_FFFF_C000,
        (AddressSize::Bits48, Granule::Page64KiB) => e & 0x0000_FFFF_FFFF_0000,
        (AddressSize::Bits52, Granule::Page4KiB) => (e & 0x0003_FFFF_FFFF_F000) | ((e & 0x300) << 42u64),
        (AddressSize::Bits52, Granule::Page16KiB) => (e & 0x0003_FFFF_FFFF_C000) | ((e & 0x300) << 42u64),
        (AddressSize::Bits52, Granule::Page64KiB) => (e & 0x0000_FFFF_FFFF_0000) | ((e & 0xF000) << 36u64),
    }
}

/// Returns the output address field of a descriptor.
pub fn read_descriptor_address(granule: Granule, size: AddressSize, e: u64) -> (address: u64)
    ensures
        address == descriptor_address(granule, size, e),
{
    match (size, granule) {
        (AddressSize::Bits48, Granule::Page4KiB) => e & 0x0000_FFFF_FFFF_F000,
        (AddressSize::Bits48, Granule::Page16KiB) => e & 0x0000_FFFF_FFFF_C000,
        (AddressSize::Bits48, Granule::Page64KiB) => e & 0x0000_FFFF_FFFF_0000,
        (AddressSize::Bits52, Granule::Page4KiB) => (e & 0x0003_FFFF_FFFF_F000) | ((e & 0x300) << 42u64),
        (AddressSize::Bits52, Granule::Page16KiB) => (e & 0x0003_FFFF_FFFF_C000) | ((e & 0x300) << 42u64),
        (AddressSize::Bits52, Granule::Page64KiB) => (e & 0x0000_FFFF_FFFF_0000) | ((e & 0xF000) << 36u64),
    }
}

/// The output address width of a physical address space size; 56 bits has none.
pub open spec fn output_width(output: PhysicalAddressSpaceSize) -> AddressSize {
    if output == PhysicalAddressSpaceSize::Bits52 {
        AddressSize::Bits52
    } else {
        AddressSize::Bits48
    }
}

/// What the hardware walk gives for `va` from the table at `table` of level `level`, for a
/// region whose size offset is `txsz`: the output address of the page or block that maps it,
/// or `None` where a descriptor on the way is not valid or the last one does not map a page.
pub open spec fn vmsa_walk(
    memory: PhysicalMemory64,
    granule: Granule,
    size: AddressSize,
    txsz: u8,
    table: int,
    va: u64,
    level: u64,
) -> Option<u64>
    decreases level_count(granule, txsz) - level,
{
    if level >= level_count(granule, txsz) {
        None
    } else {
        let e = memory.word((table + 8 * table_index(granule, txsz, va, level)) / 8);
        let address = descriptor_address(granule, size, e);
        if !valid_descriptor(e) {
            None
        } else if level + 1 == level_count(granule, txsz) {
            if table_or_page(e) {
                Some(address | (va & ((1u64 << page_bits(granule)) - 1) as u64))
            } else {
                None
            }
        } else if table_or_page(e) {
            vmsa_walk(memory, granule, size, txsz, address as int, va, (level + 1) as u64)
        } else {
            Some(address | (va & ((1u64 << (base_bit(granule, txsz, level) + page_bits(granule)) as u64) - 1) as u64))
        }
    }
}

impl VmsaV8TranslationScheme {
    /// `va` lies in the lower region, translated through TTBR0.
    pub open spec fn in_lower_region(&self, va: u64) -> bool {
        self.settings().ttbr0_enable && va <= low_mask((64 - self.settings().t0sz) as nat)
    }

    /// `va` lies in the upper region, translated through TTBR1.
    pub open spec fn in_upper_region(&self, va: u64) -> bool {
        self.settings().ttbr1_enable && pow2(64) - pow2((64 - self.settings().t1sz) as nat) <= va
    }

    /// The root table and size offset that translate `va`, if it lies in a region.
    pub open spec fn region_of(&self, va: u64) -> Option<(u64, u8)> {
        if self.in_lower_region(va) {
            Some((self.settings().ttbr0, self.settings().t0sz))
        } else if self.in_upper_region(va) {
            Some((self.settings().ttbr1, self.settings().t1sz))
        } else {
            None
        }
    }

    /// What translating `address` with the tables held in `memory` gives: every mapped page is
    /// reported readable, of the normal memory type, at the output address of the walk.
    pub open spec fn spec_translate(&self, memory: PhysicalMemory64, address: u64) -> Option<(Permissions, MappingType, u64)> {
        match self.region_of(address) {
            None => None,
            Some((root, txsz)) => match vmsa_walk(
                memory,
                self.settings().granule,
                output_width(self.settings().output),
                txsz,
                root as int,
                address,
                0,
            ) {
                Some(physical_address) => Some((Permissions::Read, MappingType::Normal, physical_address)),
                None => None,
            },
        }
    }

    /// The regions of this configuration can be walked: each enabled region has at least one
    /// level, its root leaves room for a table, and the output size has an address width.
    pub open spec fn walkable(&self) -> bool {
        let s = self.settings();
        &&& self.wf()
        &&& s.output != PhysicalAddressSpaceSize::Bits56
        &&& s.ttbr0_enable ==> input_bits(s.granule, s.t0sz) >= 1 && s.ttbr0 + 0x10000 <= u64::MAX
        &&& s.ttbr1_enable ==> input_bits(s.granule, s.t1sz) >= 1 && s.ttbr1 + 0x10000 <= u64::MAX
    }
}


/// An index into a table has at most 13 bits, and an output address field lies below 2^52.
proof fn lemma_vmsa_bits(va: u64, pb: u64, base: u64, top: u64, e: u64)
    by (bit_vector)
    requires
        pb <= 16,
        base <= top,
        top - base <= 13,
        top + pb <= 64,
        top < 64,
    ensures
        ((va & index_mask(pb, base, top)) >> base) >> pb < 0x2000,
        ((va & index_mask(pb, base, top)) >> base) >> pb < (1u64 << ((top - base) as u64)),
        e & 0x0000_FFFF_FFFF_F000 < 0x10_0000_0000_0000,
        e & 0x0000_FFFF_FFFF_C000 < 0x10_0000_0000_0000,
        e & 0x0000_FFFF_FFFF_0000 < 0x10_0000_0000_0000,
        (e & 0x0003_FFFF_FFFF_F000) | ((e & 0x300) << 42u64) < 0x10_0000_0000_0000,
        (e & 0x0003_FFFF_FFFF_C000) | ((e & 0x300) << 42u64) < 0x10_0000_0000_0000,
        (e & 0x0000_FFFF_FFFF_0000) | ((e & 0xF000) << 36u64) < 0x10_0000_0000_0000,
{
}

/// A region of at least one input bit above the page offset has between one and four levels.
pub proof fn lemma_levels(granule: Granule, txsz: u8)
    requires
        16 <= txsz <= 48,
        input_bits(granule, txsz) >= 1,
    ensures
        1 <= level_count(granule, txsz) <= 4,
{
    let ib = index_bits(granule);
    let t = input_bits(granule, txsz);
    let l = level_count(granule, txsz);
    assert(l >= 1 && l <= 4) by (nonlinear_arith)
        requires
            l as int == (t as int + ib as int - 1) / (ib as int),
            t >= 1,
            t <= 48 - 12 && ib == 9 || t <= 48 - 14 && ib == 11 || t <= 48 - 16 && ib == 13,
    ;
}

/// The geometry of a region that can be walked: at least one level, each index below 2^13, and
/// the base bits that the levels descend through.
pub proof fn lemma_geometry(granule: Granule, txsz: u8, va: u64, level: u64, e: u64)
    requires
        16 <= txsz <= 48,
        input_bits(granule, txsz) >= 1,
        level < level_count(granule, txsz),
    ensures
        1 <= level_count(granule, txsz) <= 4,
        table_index(granule, txsz, va, level) < 0x2000,
        base_bit(granule, txsz, level) + page_bits(granule) < 64,
        base_bit(granule, txsz, level) < input_bits(granule, txsz),
        input_bits(granule, txsz) <= 36,
        level + 1 < level_count(granule, txsz) ==> base_bit(granule, txsz, level) >= index_bits(granule)
            && base_bit(granule, txsz, (level + 1) as u64) == base_bit(granule, txsz, level) - index_bits(granule),
        descriptor_address(granule, AddressSize::Bits48, e) < 0x10_0000_0000_0000,
        descriptor_address(granule, AddressSize::Bits52, e) < 0x10_0000_0000_0000,
        level == 0 ==> base_bit(granule, txsz, level) + index_bits(granule) >= input_bits(granule, txsz),
        level + 1 == level_count(granule, txsz) ==> base_bit(granule, txsz, level) == 0,
{
    let ib = index_bits(granule);
    let t = input_bits(granule, txsz);
    let l = level_count(granule, txsz);
    assert(l * ib >= t && (l - 1) * ib < t) by (nonlinear_arith)
        requires
            l as int == (t as int + ib as int - 1) / (ib as int),
            ib >= 9,
            t >= 1,
    ;
    assert(l <= 4) by (nonlinear_arith)
        requires
            (l - 1) * ib < t,
            t <= 48 - 12 && ib == 9 || t <= 48 - 14 && ib == 11 || t <= 48 - 16 && ib == 13,
    ;
    let base = base_bit(granule, txsz, level);
    assert(0 <= (l - 1 - level) * ib <= 39) by (nonlinear_arith)
        requires
            l <= 4,
            level < l,
            9 <= ib <= 13,
    ;
    assert(base == (l - 1 - level) * ib);
    assert(base <= (l - 1) * ib) by (nonlinear_arith)
        requires
            base == (l - 1 - level) * ib,
            level < l,
            ib >= 0,
    ;
    let top = if base + ib < t { (base + ib) as u64 } else { t };
    lemma_vmsa_bits(va, page_bits(granule), base, top, e);
    vstd::arithmetic::power2::lemma2_to64();
    if level == 0 {
        assert(base + ib == l * ib) by (nonlinear_arith)
            requires
                base == (l - 1 - level) * ib,
                level == 0,
        ;
    }
    if level + 1 == l {
        assert(base == 0) by (nonlinear_arith)
            requires
                base == (l - 1 - level) * ib,
                level + 1 == l,
        ;
    }
    if level + 1 < l {
        assert(base - ib == (l - 1 - (level + 1)) * ib) by (nonlinear_arith)
            requires
                base == (l - 1 - level) * ib,
        ;
        assert(base >= ib) by (nonlinear_arith)
            requires
                base == (l - 1 - level) * ib,
                level + 1 < l,
                ib >= 9,
        ;
    }
}


/// An index into a table lies below the number of entries of a table of the granule.
pub proof fn lemma_index_fits(granule: Granule, txsz: u8, va: u64, level: u64)
    requires
        16 <= txsz <= 48,
        input_bits(granule, txsz) >= 1,
        level < level_count(granule, txsz),
    ensures
        table_index(granule, txsz, va, level) < match granule {
            Granule::Page4KiB => 512int,
            Granule::Page16KiB => 2048int,
            Granule::Page64KiB => 8192int,
        },
{
    lemma_geometry(granule, txsz, va, level, 0);
    let base = base_bit(granule, txsz, level);
    let top = if base + index_bits(granule) < input_bits(granule, txsz) {
        (base + index_bits(granule)) as u64
    } else {
        input_bits(granule, txsz)
    };
    lemma_vmsa_bits(va, page_bits(granule), base, top, 0);
    lemma_shl_one((top - base) as u64);
    let k = (top - base) as nat;
    let ib = index_bits(granule) as nat;
    if k < ib {
        vstd::arithmetic::power2::lemma_pow2_strictly_increases(k, ib);
    }
    vstd::arithmetic::power2::lemma2_to64();
}

/// Addresses of the same page have the same bits under the mask of an index.
pub proof fn lemma_same_page_bits(va: u64, vb: u64, pb: u64, b: u64, t: u64)
    by (bit_vector)
    requires
        pb <= 16,
        b <= t,
        t + pb <= 64,
        t < 64,
        (va >> pb) == (vb >> pb),
    ensures
        (va & index_mask(pb, b, t)) == (vb & index_mask(pb, b, t)),
{
}

/// Equal indices come from equal bits under their mask.
#[verifier::rlimit(100)]
pub proof fn lemma_index_bits(va: u64, vb: u64, pb: u64, b: u64, t: u64)
    by (bit_vector)
    requires
        pb <= 16,
        b <= t,
        t + pb <= 64,
        t < 64,
        ((va & index_mask(pb, b, t)) >> b) >> pb == ((vb & index_mask(pb, b, t)) >> b) >> pb,
    ensures
        (va & index_mask(pb, b, t)) == (vb & index_mask(pb, b, t)),
{
}

/// Equal bits under two adjacent masks are equal bits under their union.
#[verifier::rlimit(100)]
pub proof fn lemma_union_bits(va: u64, vb: u64, pb: u64, b1: u64, t1: u64, b2: u64)
    by (bit_vector)
    requires
        pb <= 16,
        b2 <= b1,
        b1 <= t1,
        t1 + pb <= 64,
        t1 < 64,
    ensures
        (va & index_mask(pb, b1, t1)) == (vb & index_mask(pb, b1, t1)) && (va & index_mask(pb, b2, b1)) == (vb
            & index_mask(pb, b2, b1)) ==> (va & index_mask(pb, b2, t1)) == (vb & index_mask(pb, b2, t1)),
{
}

/// Equal bits of a whole region above the page offset, with equal bits above the region, give
/// the same page.
#[verifier::rlimit(100)]
pub proof fn lemma_region_page_bits(va: u64, vb: u64, pb: u64, t1: u64)
    by (bit_vector)
    requires
        pb <= 16,
        t1 + pb <= 64,
        t1 < 64,
    ensures
        (va & index_mask(pb, 0, t1)) == (vb & index_mask(pb, 0, t1)) && (va >> (pb + t1)) == (vb >> (pb + t1)) ==> (va
            >> pb) == (vb >> pb),
{
}

/// The output address field that holds `address`, as [`descriptor_address`] reads it.
pub open spec fn address_field(granule: Granule, size: AddressSize, address: u64) -> u64 {
    match (size, granule) {
        (AddressSize::Bits48, Granule::Page4KiB) => address & 0x0000_FFFF_FFFF_F000,
        (AddressSize::Bits48, Granule::Page16KiB) => address & 0x0000_FFFF_FFFF_C000,
        (AddressSize::Bits48, Granule::Page64KiB) => address & 0x0000_FFFF_FFFF_0000,
        (AddressSize::Bits52, Granule::Page4KiB) => (address & 0x0003_FFFF_FFFF_F000) | ((address >> 42u64) & 0x300),
        (AddressSize::Bits52, Granule::Page16KiB) => (address & 0x0003_FFFF_FFFF_C000) | ((address >> 42u64) & 0x300),
        (AddressSize::Bits52, Granule::Page64KiB) => (address & 0x0000_FFFF_FFFF_0000) | ((address >> 36u64) & 0xF000),
    }
}

/// A valid descriptor that points to the table at `address`.
pub open spec fn table_descriptor(granule: Granule, size: AddressSize, address: u64) -> u64 {
    address_field(granule, size, address) | 3
}

/// A valid, accessed descriptor that maps the page at `address`.
pub open spec fn page_descriptor(granule: Granule, size: AddressSize, address: u64) -> u64 {
    address_field(granule, size, address) | 0x403
}

/// Returns a valid descriptor that points to the table at `address`.
pub fn make_table_descriptor(granule: Granule, size: AddressSize, address: u64) -> (e: u64)
    ensures
        e == table_descriptor(granule, size, address),
{
    let field = match (size, granule) {
        (AddressSize::Bits48, Granule::Page4KiB) => address & 0x0000_FFFF_FFFF_F000,
        (AddressSize::Bits48, Granule::Page16KiB) => address & 0x0000_FFFF_FFFF_C000,
        (AddressSize::Bits48, Granule::Page64KiB) => address & 0x0000_FFFF_FFFF_0000,
        (AddressSize::Bits52, Granule::Page4KiB) => (address & 0x0003_FFFF_FFFF_F000) | ((address >> 42u64) & 0x300),
        (AddressSize::Bits52, Granule::Page16KiB) => (address & 0x0003_FFFF_FFFF_C000) | ((address >> 42u64) & 0x300),
        (AddressSize::Bits52, Granule::Page64KiB) => (address & 0x0000_FFFF_FFFF_0000) | ((address >> 36u64) & 0xF000),
    };
    field | 3
}

/// Returns a valid, accessed descriptor that maps the page at `address`.
pub fn make_page_descriptor(granule: Granule, size: AddressSize, address: u64) -> (e: u64)
    ensures
        e == page_descriptor(granule, size, address),
{
    let field = match (size, granule) {
        (AddressSize::Bits48, Granule::Page4KiB) => address & 0x0000_FFFF_FFFF_F000,
        (AddressSize::Bits48, Granule::Page16KiB) => address & 0x0000_FFFF_FFFF_C000,
        (AddressSize::Bits48, Granule::Page64KiB) => address & 0x0000_FFFF_FFFF_0000,
        (AddressSize::Bits52, Granule::Page4KiB) => (address & 0x0003_FFFF_FFFF_F000) | ((address >> 42u64) & 0x300),
        (AddressSize::Bits52, Granule::Page16KiB) => (address & 0x0003_FFFF_FFFF_C000) | ((address >> 42u64) & 0x300),
        (AddressSize::Bits52, Granule::Page64KiB) => (address & 0x0000_FFFF_FFFF_0000) | ((address >> 36u64) & 0xF000),
    };
    field | 0x403
}

/// The address fields that descriptors are written with read back as the addresses, for
/// aligned addresses below 2^48, or 2^52 with 52-bit output addresses.
proof fn lemma_address_field_bits(a: u64)
    by (bit_vector)
    ensures
        a & 0xFFF == 0 && a < 0x1_0000_0000_0000 ==> ((a & 0x0000_FFFF_FFFF_F000) | 3) & 0x0000_FFFF_FFFF_F000 == a && ((a
            & 0x0000_FFFF_FFFF_F000) | 0x403) & 0x0000_FFFF_FFFF_F000 == a,
        a & 0x3FFF == 0 && a < 0x1_0000_0000_0000 ==> ((a & 0x0000_FFFF_FFFF_C000) | 3) & 0x0000_FFFF_FFFF_C000 == a && ((a
            & 0x0000_FFFF_FFFF_C000) | 0x403) & 0x0000_FFFF_FFFF_C000 == a,
        a & 0xFFFF == 0 && a < 0x1_0000_0000_0000 ==> ((a & 0x0000_FFFF_FFFF_0000) | 3) & 0x0000_FFFF_FFFF_0000 == a && ((a
            & 0x0000_FFFF_FFFF_0000) | 0x403) & 0x0000_FFFF_FFFF_0000 == a,
        a & 0xFFF == 0 && a < 0x10_0000_0000_0000 ==> ({
            let f = (a & 0x0003_FFFF_FFFF_F000) | ((a >> 42u64) & 0x300);
            &&& (((f | 3) & 0x0003_FFFF_FFFF_F000) | (((f | 3) & 0x300) << 42u64)) == a
            &&& (((f | 0x403) & 0x0003_FFFF_FFFF_F000) | (((f | 0x403) & 0x300) << 42u64)) == a
        }),
        a & 0x3FFF == 0 && a < 0x10_0000_0000_0000 ==> ({
            let f = (a & 0x0003_FFFF_FFFF_C000) | ((a >> 42u64) & 0x300);
            &&& (((f | 3) & 0x0003_FFFF_FFFF_C000) | (((f | 3) & 0x300) << 42u64)) == a
            &&& (((f | 0x403) & 0x0003_FFFF_FFFF_C000) | (((f | 0x403) & 0x300) << 42u64)) == a
        }),
        a & 0xFFFF == 0 && a < 0x10_0000_0000_0000 ==> ({
            let f = (a & 0x0000_FFFF_FFFF_0000) | ((a >> 36u64) & 0xF000);
            &&& (((f | 3) & 0x0000_FFFF_FFFF_0000) | (((f | 3) & 0xF000) << 36u64)) == a
            &&& (((f | 0x403) & 0x0000_FFFF_FFFF_0000) | (((f | 0x403) & 0xF000) << 36u64)) == a
        }),
        (a | 3) & 1 == 1 && (a | 3) & 2 == 2 && (a | 0x403) & 1 == 1 && (a | 0x403) & 2 == 2,
{
}

/// The size, in bytes, of a page and of a table of `granule`.
pub open spec fn granule_bytes(granule: Granule) -> int {
    match granule {
        Granule::Page4KiB => 4096,
        Granule::Page16KiB => 16384,
        Granule::Page64KiB => 65536,
    }
}

/// The largest output address, plus one, that descriptors of a width hold.
pub open spec fn address_limit(size: AddressSize) -> int {
    match size {
        AddressSize::Bits48 => 0x1_0000_0000_0000,
        AddressSize::Bits52 => 0x10_0000_0000_0000,
    }
}

/// The descriptors written for an aligned address in reach of the width are valid, point to
/// or map the next level, and read back as the address.
pub proof fn lemma_descriptors(granule: Granule, size: AddressSize, a: u64)
    requires
        a as int % granule_bytes(granule) == 0,
        a < address_limit(size),
    ensures
        valid_descriptor(table_descriptor(granule, size, a)),
        table_or_page(table_descriptor(granule, size, a)),
        descriptor_address(granule, size, table_descriptor(granule, size, a)) == a,
        valid_descriptor(page_descriptor(granule, size, a)),
        table_or_page(page_descriptor(granule, size, a)),
        descriptor_address(granule, size, page_descriptor(granule, size, a)) == a,
{
    let pb = page_bits(granule);
    vstd::bits::lemma_u64_low_bits_mask_is_mod(a, pb as nat);
    vstd::bits::lemma_low_bits_mask_values();
    vstd::arithmetic::power2::lemma2_to64();
    lemma_address_field_bits(a);
    lemma_address_field_bits(address_field(granule, size, a));
}

/// Returns the number of bits of the offset within a page of `granule`.
pub(crate) fn granule_page_bits(granule: Granule) -> (bits: u64)
    ensures
        bits == page_bits(granule),
{
    match granule {
        Granule::Page4KiB => 12,
        Granule::Page16KiB => 14,
        Granule::Page64KiB => 16,
    }
}

/// Returns the index of `va` into the table whose index bits start at `base` above the page
/// offset of `pb` bits and end at `top`.
pub(crate) fn index_of(va: u64, pb: u64, base: u64, top: u64) -> (index: u64)
    requires
        pb <= 16,
        base <= top,
        top < 64,
    ensures
        index == ((va & index_mask(pb, base, top)) >> base) >> pb,
{
    proof {
        lemma_shl_one(top);
        lemma_shl_one(base);
        if base < top {
            vstd::arithmetic::power2::lemma_pow2_strictly_increases(base as nat, top as nat);
        }
    }
    let top_mask = if top == 64 { u64::MAX } else { (1u64 << top) - 1 };
    let base_mask = (1u64 << base) - 1;
    let mask = (top_mask - base_mask) << pb;
    ((va & mask) >> base) >> pb
}

/// Shifting one left by `s` gives `2^s`.
pub(crate) proof fn lemma_shl_one(s: u64)
    requires
        s < 64,
    ensures
        1u64 << s == pow2(s as nat),
        1u64 << s >= 1,
{
    vstd::bits::lemma_u64_pow2_no_overflow(s as nat);
    vstd::bits::lemma_u64_shl_is_mul(1, s);
}

impl VmsaV8TranslationScheme {
    /// Translates `address` by walking the tables held in `memory`; every mapped page is
    /// reported readable and of the normal memory type.
    pub fn translate(&self, memory: &PhysicalMemory64, address: u64) -> (result: Option<(Permissions, MappingType, u64)>)
        requires
            self.walkable(),
        ensures
            result == self.spec_translate(*memory, address),
    {
        proof {
            vstd::arithmetic::power2::lemma2_to64();
            vstd::arithmetic::power2::lemma2_to64_rest();
        }
        let descriptor = self.input_descriptor();
        if !descriptor.is_valid(address) {
            return None;
        }
        let lower_range = AddressSpaceDescriptor::new(64 - self.t0sz(), false);
        let (root, txsz) = if self.ttbr0_enabled() && lower_range.is_valid(address) {
            (self.ttbr0(), self.t0sz())
        } else if self.ttbr1_enabled() {
            (self.ttbr1(), self.t1sz())
        } else {
            return None;
        };
        assert(self.region_of(address) == Some((root, txsz)));
        let granule = self.granule();
        let size = self.output_size();
        let offset_bits = granule_page_bits(granule);
        let bits_per_level = offset_bits - 3;
        let target_bits = 64 - txsz as u64 - offset_bits;
        let levels = (target_bits + bits_per_level - 1) / bits_per_level;
        assert(levels == level_count(granule, txsz));
        proof {
            lemma_levels(granule, txsz);
            lemma_geometry(granule, txsz, address, 0, 0);
            assert((levels - 1) * bits_per_level <= 39) by (nonlinear_arith)
                requires
                    1 <= levels <= 4,
                    bits_per_level <= 13,
            ;
        }
        let mut level: u64 = 0;
        let mut base = (levels - 1) * bits_per_level;
        let mut table = root;
        let ghost m = *memory;
        loop
            invariant
                m == *memory,
                self.region_of(address) == Some((root, txsz)),
                granule == self.settings().granule,
                16 <= txsz <= 48,
                input_bits(granule, txsz) >= 1,
                offset_bits == page_bits(granule),
                bits_per_level == index_bits(granule),
                target_bits == input_bits(granule, txsz),
                levels == level_count(granule, txsz),
                level < levels,
                base == base_bit(granule, txsz, level),
                table + 0x10000 <= u64::MAX,
                size == output_width(self.settings().output),
                vmsa_walk(m, granule, size, txsz, table as int, address, level) == vmsa_walk(
                    m,
                    granule,
                    size,
                    txsz,
                    root as int,
                    address,
                    0,
                ),
            decreases levels - level,
        {
            proof {
                lemma_geometry(granule, txsz, address, level, 0);
            }
            let top_bit = if base + bits_per_level < target_bits { base + bits_per_level } else { target_bits };
            let index = index_of(address, offset_bits, base, top_bit);
            assert(index == table_index(granule, txsz, address, level));
            let entry_address = table + index * 8;
            let e = memory.read_u64(entry_address);
            if e & 1 != 1 {
                return None;
            }
            let output = read_descriptor_address(granule, size, e);
            proof {
                lemma_geometry(granule, txsz, address, level, e);
            }
            if level == levels - 1 {
                if e & 2 != 2 {
                    return None;
                }
                proof {
                    lemma_shl_one(offset_bits);
                }
                let offset = address & ((1u64 << offset_bits) - 1);
                return Some((Permissions::Read, MappingType::Normal, output | offset));
            } else if e & 2 == 2 {
                table = output;
            } else {
                proof {
                    lemma_shl_one((base + offset_bits) as u64);
                }
                let offset = address & ((1u64 << (base + offset_bits)) - 1);
                return Some((Permissions::Read, MappingType::Normal, output | offset));
            }
            base = base - bits_per_level;
            level += 1;
        }
    }
}

} // verus!
