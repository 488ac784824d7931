//! VMSAv8 translation configurations for `aarch64` and the translation control value that they
//! require.
use vstd::prelude::*;

use crate::descriptor::AddressSpaceDescriptor;
use crate::elf::Machine;

verus! {

/// The size of the smallest translation region.
#[derive(Clone, Copy, Debug, PartialEq, Eq, Structural)]
pub enum Granule {
    /// 4 KiB pages.
    Page4KiB,
    /// 16 KiB pages.
    Page16KiB,
    /// 64 KiB pages.
    Page64KiB,
}

impl Granule {
    /// The size, in bytes, of the granule.
    pub open spec fn spec_size(self) -> u32 {
        match self {
            Granule::Page4KiB => 4096,
            Granule::Page16KiB => 16384,
            Granule::Page64KiB => 65536,
        }
    }

    /// Returns the size, in bytes, of the granule.
    pub fn size(self) -> (size: u32)
        ensures
            size == self.spec_size(),
    {
        match self {
            Granule::Page4KiB => 4096,
            Granule::Page16KiB => 16384,
            Granule::Page64KiB => 65536,
        }
    }
}

/// The size of the physical (intermediate physical) address space.
#[derive(Clone, Copy, Debug, PartialEq, Eq, Structural)]
pub enum PhysicalAddressSpaceSize {
    /// 32 bits.
    Bits32,
    /// 36 bits.
    Bits36,
    /// 40 bits.
    Bits40,
    /// 42 bits.
    Bits42,
    /// 44 bits.
    Bits44,
    /// 48 bits.
    Bits48,
    /// 52 bits.
    Bits52,
    /// 56 bits.
    Bits56,
}

impl PhysicalAddressSpaceSize {
    /// The number of address bits.
    pub open spec fn spec_bits(self) -> u8 {
        match self {
            PhysicalAddressSpaceSize::Bits32 => 32,
            PhysicalAddressSpaceSize::Bits36 => 36,
            PhysicalAddressSpaceSize::Bits40 => 40,
            PhysicalAddressSpaceSize::Bits42 => 42,
            PhysicalAddressSpaceSize::Bits44 => 44,
            PhysicalAddressSpaceSize::Bits48 => 48,
            PhysicalAddressSpaceSize::Bits52 => 52,
            PhysicalAddressSpaceSize::Bits56 => 56,
        }
    }

    /// The encoding of the size in the `IPS` field of `TCR_ELx`.
    pub open spec fn spec_ips(self) -> u64 {
        match self {
            PhysicalAddressSpaceSize::Bits32 => 0b000,
            PhysicalAddressSpaceSize::Bits36 => 0b001,
            PhysicalAddressSpaceSize::Bits40 => 0b010,
            PhysicalAddressSpaceSize::Bits42 => 0b011,
            PhysicalAddressSpaceSize::Bits44 => 0b100,
            PhysicalAddressSpaceSize::Bits48 => 0b101,
            PhysicalAddressSpaceSize::Bits52 => 0b110,
            PhysicalAddressSpaceSize::Bits56 => 0b111,
        }
    }

    /// Returns the number of address bits.
    pub fn to_val(self) -> (bits: u8)
        ensures
            bits == self.spec_bits(),
    {
        match self {
            PhysicalAddressSpaceSize::Bits32 => 32,
            PhysicalAddressSpaceSize::Bits36 => 36,
            PhysicalAddressSpaceSize::Bits40 => 40,
            PhysicalAddressSpaceSize::Bits42 => 42,
            PhysicalAddressSpaceSize::Bits44 => 44,
            PhysicalAddressSpaceSize::Bits48 => 48,
            PhysicalAddressSpaceSize::Bits52 => 52,
            PhysicalAddressSpaceSize::Bits56 => 56,
        }
    }
}

/// The width of the output addresses of the translation tables.
#[derive(Clone, Copy, Debug, PartialEq, Eq, Structural)]
pub enum AddressSize {
    /// 48-bit output addresses.
    Bits48,
    /// 52-bit output addresses.
    Bits52,
}

/// What the processor reports about its VMSAv8 support.
#[derive(Clone, Copy, Debug, PartialEq, Eq, Structural)]
pub struct VmsaV8Features {
    /// The processor runs at `EL1`.
    pub el1: bool,
    /// 4 KiB granules are supported.
    pub granule_4_supported: bool,
    /// 16 KiB granules are supported.
    pub granule_16_supported: bool,
    /// 64 KiB granules are supported.
    pub granule_64_supported: bool,
    /// The physical address size.
    pub physical_address_bits: PhysicalAddressSpaceSize,
}

/// Implementation of `aarch64` VMSAv8 address translation.
pub struct VmsaV8TranslationScheme {
    /// The granule used for this paging scheme.
    granule: Granule,
    /// If `true`, TTBR0 is enabled.
    ttbr0_enable: bool,
    /// If `true`, TTBR1 is enabled.
    ttbr1_enable: bool,
    /// The physical address of the table pointed to by TTBR0.
    ttbr0: u64,
    /// The physical address of the table pointed to by TTBR1.
    ttbr1: u64,
    /// The size offset of the memory region addressed by TTBR0.
    t0sz: u8,
    /// The size offset of the memory region addressed by TTBR1.
    t1sz: u8,
    /// The output address space size.
    output: PhysicalAddressSpaceSize,
}

/// The settings of a VMSAv8 configuration.
#[derive(Clone, Copy, Debug, PartialEq, Eq, Structural)]
pub struct VmsaV8Settings {
    /// The granule.
    pub granule: Granule,
    /// TTBR0 is enabled.
    pub ttbr0_enable: bool,
    /// TTBR1 is enabled.
    pub ttbr1_enable: bool,
    /// The TTBR0 table.
    pub ttbr0: u64,
    /// The TTBR1 table.
    pub ttbr1: u64,
    /// `T0SZ`.
    pub t0sz: u8,
    /// `T1SZ`.
    pub t1sz: u8,
    /// The output address space size.
    pub output: PhysicalAddressSpaceSize,
}

impl VmsaV8TranslationScheme {
    /// The settings of this configuration.
    pub closed spec fn settings(&self) -> VmsaV8Settings {
        VmsaV8Settings {
            granule: self.granule,
            ttbr0_enable: self.ttbr0_enable,
            ttbr1_enable: self.ttbr1_enable,
            ttbr0: self.ttbr0,
            ttbr1: self.ttbr1,
            t0sz: self.t0sz,
            t1sz: self.t1sz,
            output: self.output,
        }
    }

    /// The sizes of the two regions are within the architectural range.
    pub open spec fn wf(&self) -> bool {
        16 <= self.settings().t0sz <= 48 && 16 <= self.settings().t1sz <= 48
    }

    /// Creates a new configuration with the largest supported granule, both translation tables
    /// enabled with 48-bit regions, rooted at the zeroed tables `ttbr0_table` and `ttbr1_table`
    /// if they could be allocated.
    ///
    /// Only `EL1` is handled; a processor that supports no granule at all is left out.
    pub fn max_supported(features: VmsaV8Features, ttbr0_table: Option<u64>, ttbr1_table: Option<u64>) -> (scheme: Option<Self>)
        requires
            features.el1,
            features.granule_4_supported || features.granule_16_supported
                || features.granule_64_supported,
        ensures
            scheme is Some <==> ttbr0_table is Some && ttbr1_table is Some,
            scheme matches Some(s) ==> {
                &&& s.wf()
                &&& s.settings().granule == if features.granule_64_supported {
                    Granule::Page64KiB
                } else if features.granule_16_supported {
                    Granule::Page16KiB
                } else {
                    Granule::Page4KiB
                }
                &&& s.settings().ttbr0_enable && s.settings().ttbr1_enable
                &&& s.settings().t0sz == 16 && s.settings().t1sz == 16
                &&& s.settings().ttbr0 == ttbr0_table.unwrap()
                &&& s.settings().ttbr1 == ttbr1_table.unwrap()
                &&& s.settings().output == features.physical_address_bits
            },
    {
        let granule = if features.granule_64_supported {
            Granule::Page64KiB
        } else if features.granule_16_supported {
            Granule::Page16KiB
        } else {
            Granule::Page4KiB
        };
        let ttbr0 = match ttbr0_table {
            Some(address) => address,
            None => return None,
        };
        let ttbr1 = match ttbr1_table {
            Some(address) => address,
            None => return None,
        };
        Some(
            VmsaV8TranslationScheme {
                granule,
                ttbr0_enable: true,
                ttbr1_enable: true,
                ttbr0,
                ttbr1,
                t0sz: 16,
                t1sz: 16,
                output: features.physical_address_bits,
            },
        )
    }

    /// Returns the size, in bytes, of minimal translation region.
    pub fn granule(&self) -> (granule: Granule)
        ensures
            granule == self.settings().granule,
    {
        self.granule
    }

    /// Returns `true` if the `TTBR0` page tables are in use.
    pub fn ttbr0_enabled(&self) -> (result: bool)
        ensures
            result == self.settings().ttbr0_enable,
    {
        self.ttbr0_enable
    }

    /// Returns `true` if the `TTBR1` page tables are in use.
    pub fn ttbr1_enabled(&self) -> (result: bool)
        ensures
            result == self.settings().ttbr1_enable,
    {
        self.ttbr1_enable
    }

    /// Returns the location of the table referenced by `TTBR0`.
    pub fn ttbr0(&self) -> (address: u64)
        ensures
            address == self.settings().ttbr0,
    {
        self.ttbr0
    }

    /// Returns the location of the table referenced by `TTBR1`.
    pub fn ttbr1(&self) -> (address: u64)
        ensures
            address == self.settings().ttbr1,
    {
        self.ttbr1
    }

    /// Returns the value of `T0SZ`.
    pub fn t0sz(&self) -> (value: u8)
        ensures
            value == self.settings().t0sz,
    {
        self.t0sz
    }

    /// Returns the value of `T1SZ`.
    pub fn t1sz(&self) -> (value: u8)
        ensures
            value == self.settings().t1sz,
    {
        self.t1sz
    }

    /// Returns the size, in bits, of the output address.
    pub fn ipa(&self) -> (size: PhysicalAddressSpaceSize)
        ensures
            size == self.settings().output,
    {
        self.output
    }

    /// Returns the number of entries in each table.
    pub fn entries_per_table(&self) -> (entries: u32)
        ensures
            entries == self.settings().granule.spec_size() / 8,
    {
        self.granule.size() / 8
    }

    /// Returns the number of bits used to index each level.
    pub fn index_bits_per_level(&self) -> (bits: u32)
        ensures
            bits == match self.settings().granule {
                Granule::Page4KiB => 9u32,
                Granule::Page16KiB => 11u32,
                Granule::Page64KiB => 13u32,
            },
    {
        match self.granule {
            Granule::Page4KiB => 9,
            Granule::Page16KiB => 11,
            Granule::Page64KiB => 13,
        }
    }

    /// Returns the number of table levels needed to translate a region whose size offset is
    /// `txsz`: the input bits above the page offset, divided among the levels, rounded up.
    pub fn levels(&self, txsz: u8) -> (levels: u32)
        requires
            txsz + match self.settings().granule {
                Granule::Page4KiB => 12int,
                Granule::Page16KiB => 14int,
                Granule::Page64KiB => 16int,
            } <= 64,
        ensures
            ({
                let page_bits: int = match self.settings().granule {
                    Granule::Page4KiB => 12,
                    Granule::Page16KiB => 14,
                    Granule::Page64KiB => 16,
                };
                let index_bits: int = page_bits - 3;
                levels == ((64 - txsz) - page_bits + index_bits - 1) / index_bits
            }),
    {
        let page_bits: u32 = match self.granule {
            Granule::Page4KiB => 12,
            Granule::Page16KiB => 14,
            Granule::Page64KiB => 16,
        };
        let index_bits = self.index_bits_per_level();
        let input_bits = (64 - txsz) as u32 - page_bits;
        (input_bits + index_bits - 1) / index_bits
    }

    /// Returns the output address width that corresponds to the size of the physical address
    /// space; a 56-bit space has no such width and is left out.
    pub fn output_size(&self) -> (size: AddressSize)
        requires
            self.settings().output != PhysicalAddressSpaceSize::Bits56,
        ensures
            size == if self.settings().output == PhysicalAddressSpaceSize::Bits52 {
                AddressSize::Bits52
            } else {
                AddressSize::Bits48
            },
    {
        match self.output {
            PhysicalAddressSpaceSize::Bits52 => AddressSize::Bits52,
            _ => AddressSize::Bits48,
        }
    }

    /// Describes the virtual addresses: the lower region of `64 - T0SZ` bits when TTBR0 is
    /// enabled and the upper region of `64 - T1SZ` bits when TTBR1 is enabled.
    pub fn input_descriptor(&self) -> (descriptor: AddressSpaceDescriptor)
        requires
            self.wf(),
        ensures
            descriptor.wf(),
            descriptor.spec_lower_bits() == if self.settings().ttbr0_enable {
                64 - self.settings().t0sz
            } else {
                0
            },
            descriptor.spec_upper_bits() == if self.settings().ttbr1_enable {
                64 - self.settings().t1sz
            } else {
                0
            },
    {
        let lower_bits = if self.ttbr0_enable { 64 - self.t0sz } else { 0 };
        let upper_bits = if self.ttbr1_enable { 64 - self.t1sz } else { 0 };
        AddressSpaceDescriptor::bit_range(lower_bits, upper_bits)
    }

    /// Describes the physical addresses.
    pub fn output_descriptor(&self) -> (descriptor: AddressSpaceDescriptor)
        ensures
            descriptor.wf(),
            descriptor.spec_lower_bits() == self.settings().output.spec_bits(),
            descriptor.spec_upper_bits() == 0,
    {
        AddressSpaceDescriptor::new(self.output.to_val(), false)
    }

    /// Returns the size, in bytes, of the smallest translation granule.
    pub fn chunk_size(&self) -> (size: u64)
        ensures
            size == self.settings().granule.spec_size(),
    {
        self.granule.size() as u64
    }
}

/// The `TG0` encoding of a granule.
pub open spec fn tg0(granule: Granule) -> u64 {
    match granule {
        Granule::Page4KiB => 0b00,
        Granule::Page16KiB => 0b10,
        Granule::Page64KiB => 0b01,
    }
}

/// The `TG1` encoding of a granule.
pub open spec fn tg1(granule: Granule) -> u64 {
    match granule {
        Granule::Page4KiB => 0b10,
        Granule::Page16KiB => 0b01,
        Granule::Page64KiB => 0b11,
    }
}

/// The `TCR_ELx` value for a configuration: for each enabled region its size offset, inner and
/// outer write-back caching, inner sharing and granule; for each disabled region the bit that
/// disables its table walks; and the physical address size.
pub open spec fn spec_tcr(s: VmsaV8Settings) -> u64 {
    let lower: u64 = if s.ttbr0_enable {
        (s.t0sz as u64) | (0b01u64 << 8u64) | (0b01u64 << 10u64) | (0b11u64 << 12u64) | (tg0(s.granule) << 14u64)
    } else {
        1u64 << 7u64
    };
    let upper: u64 = if s.ttbr1_enable {
        ((s.t1sz as u64) << 16u64) | (0b01u64 << 24u64) | (0b01u64 << 26u64) | (0b11u64 << 28u64) | (tg1(s.granule) << 30u64)
    } else {
        1u64 << 23u64
    };
    lower | upper | (s.output.spec_ips() << 32u64)
}

/// The `IPS` field, bits 34:32, of a `TCR_ELx` value.
pub open spec fn ips_field(value: u64) -> u64 {
    (value >> 32u64) & 7u64
}

/// The `IPS` field encodes the physical address size as the architecture defines it:
/// 32 bits as 0, 36 as 1, 40 as 2, 42 as 3, 44 as 4, 48 as 5, 52 as 6 and 56 as 7.
pub open spec fn ips_encodes(field: u64, bits: u8) -> bool {
    &&& bits == 32 <==> field == 0
    &&& bits == 36 <==> field == 1
    &&& bits == 40 <==> field == 2
    &&& bits == 42 <==> field == 3
    &&& bits == 44 <==> field == 4
    &&& bits == 48 <==> field == 5
    &&& bits == 52 <==> field == 6
    &&& bits == 56 <==> field == 7
}

/// The region fields of `TCR_ELx` lie in its low 32 bits, so the physical address size alone
/// fills bits 34:32.
proof fn lemma_tcr_ips_bits(t0: u64, t1: u64, g0: u64, g1: u64, e0: bool, e1: bool, ips: u64)
    by (bit_vector)
    requires
        t0 <= 0xFF,
        t1 <= 0xFF,
        g0 <= 3,
        g1 <= 3,
        ips <= 7,
    ensures
        (((if e0 {
            t0 | (0b01u64 << 8u64) | (0b01u64 << 10u64) | (0b11u64 << 12u64) | (g0 << 14u64)
        } else {
            1u64 << 7u64
        }) | (if e1 {
            (t1 << 16u64) | (0b01u64 << 24u64) | (0b01u64 << 26u64) | (0b11u64 << 28u64) | (g1 << 30u64)
        } else {
            1u64 << 23u64
        }) | (ips << 32u64)) >> 32u64) & 7u64 == ips,
        ({
            let v = (if e0 {
                t0 | (0b01u64 << 8u64) | (0b01u64 << 10u64) | (0b11u64 << 12u64) | (g0 << 14u64)
            } else {
                1u64 << 7u64
            }) | (if e1 {
                (t1 << 16u64) | (0b01u64 << 24u64) | (0b01u64 << 26u64) | (0b11u64 << 28u64) | (g1 << 30u64)
            } else {
                1u64 << 23u64
            }) | (ips << 32u64);
            &&& e0 ==> (v >> 14u64) & 3u64 == g0
            &&& !e0 ==> (v >> 7u64) & 1u64 == 1u64
            &&& e1 ==> (v >> 30u64) & 3u64 == g1
            &&& !e1 ==> (v >> 23u64) & 1u64 == 1u64
        }),
{
}

/// The granule fields of a `TCR_ELx` value: for an enabled region its `TG0` (bits 15:14) or
/// `TG1` (bits 31:30) encodes the granule as the architecture defines it (`TG0`: 4 KiB 0,
/// 16 KiB 2, 64 KiB 1; `TG1`: 4 KiB 2, 16 KiB 1, 64 KiB 3); for a disabled region its `EPD0`
/// (bit 7) or `EPD1` (bit 23) is set.
pub open spec fn region_fields_encode(value: u64, s: VmsaV8Settings) -> bool {
    let g0 = (value >> 14u64) & 3u64;
    let g1 = (value >> 30u64) & 3u64;
    &&& s.ttbr0_enable ==> match s.granule {
        Granule::Page4KiB => g0 == 0,
        Granule::Page16KiB => g0 == 2,
        Granule::Page64KiB => g0 == 1,
    }
    &&& s.ttbr1_enable ==> match s.granule {
        Granule::Page4KiB => g1 == 2,
        Granule::Page16KiB => g1 == 1,
        Granule::Page64KiB => g1 == 3,
    }
    &&& !s.ttbr0_enable ==> (value >> 7u64) & 1u64 == 1
    &&& !s.ttbr1_enable ==> (value >> 23u64) & 1u64 == 1
}

/// The `IPS` field of the `TCR_ELx` value of every configuration encodes its physical address
/// size as the architecture defines it, and its region fields encode the granule and which
/// regions are disabled.
pub proof fn law_tcr_ips(s: VmsaV8Settings)
    ensures
        ips_encodes(ips_field(spec_tcr(s)), s.output.spec_bits()),
        region_fields_encode(spec_tcr(s), s),
{
    lemma_tcr_ips_bits(
        s.t0sz as u64,
        s.t1sz as u64,
        tg0(s.granule),
        tg1(s.granule),
        s.ttbr0_enable,
        s.ttbr1_enable,
        s.output.spec_ips(),
    );
}

/// Returns the `TCR_ELx` value that a configuration requires.
pub fn tcr(scheme: &VmsaV8TranslationScheme) -> (value: u64)
    ensures
        value == spec_tcr(scheme.settings()),
        ips_encodes(ips_field(value), scheme.settings().output.spec_bits()),
        region_fields_encode(value, scheme.settings()),
{
    proof {
        law_tcr_ips(scheme.settings());
    }
    let lower: u64 = if scheme.ttbr0_enabled() {
        let granule: u64 = match scheme.granule() {
            Granule::Page4KiB => 0b00,
            Granule::Page16KiB => 0b10,
            Granule::Page64KiB => 0b01,
        };
        (scheme.t0sz() as u64) | (0b01u64 << 8u64) | (0b01u64 << 10u64) | (0b11u64 << 12u64) | (granule
            << 14u64)
    } else {
        // Set the EPD0 bit, which disables translation table walks using TTBR0.
        1u64 << 7u64
    };
    let upper: u64 = if scheme.ttbr1_enabled() {
        let granule: u64 = match scheme.granule() {
            Granule::Page4KiB => 0b10,
            Granule::Page16KiB => 0b01,
            Granule::Page64KiB => 0b11,
        };
        ((scheme.t1sz() as u64) << 16u64) | (0b01u64 << 24u64) | (0b01u64 << 26u64) | (0b11u64
            << 28u64) | (granule << 30u64)
    } else {
        // Set the EPD1 bit, which disables translation table walks using TTBR1.
        1u64 << 23u64
    };
    let ipa: u64 = match scheme.ipa() {
        PhysicalAddressSpaceSize::Bits32 => 0b000,
        PhysicalAddressSpaceSize::Bits36 => 0b001,
        PhysicalAddressSpaceSize::Bits40 => 0b010,
        PhysicalAddressSpaceSize::Bits42 => 0b011,
        PhysicalAddressSpaceSize::Bits44 => 0b100,
        PhysicalAddressSpaceSize::Bits48 => 0b101,
        PhysicalAddressSpaceSize::Bits52 => 0b110,
        PhysicalAddressSpaceSize::Bits56 => 0b111,
    };
    lower | upper | (ipa << 32u64)
}


/// The configuration that an [`Aarch64TranslationScheme`] wraps.
enum Inner {
    /// VMSAv8 translation.
    VmsaV8(VmsaV8TranslationScheme),
}

/// The translation configuration for `aarch64`.
pub struct Aarch64TranslationScheme(Inner);

impl Aarch64TranslationScheme {
    /// The settings of this configuration.
    pub closed spec fn settings(&self) -> VmsaV8Settings {
        match self.0 {
            Inner::VmsaV8(scheme) => scheme.settings(),
        }
    }

    /// Constructs the most capable configuration for `machine`; only `aarch64` executables are
    /// handled.
    pub fn max_supported(
        machine: Machine,
        features: VmsaV8Features,
        ttbr0_table: Option<u64>,
        ttbr1_table: Option<u64>,
    ) -> (scheme: Option<Self>)
        requires
            machine == Machine::spec_aarch64() ==> features.el1 && (features.granule_4_supported
                || features.granule_16_supported || features.granule_64_supported),
        ensures
            scheme is Some <==> machine == Machine::spec_aarch64() && ttbr0_table is Some
                && ttbr1_table is Some,
            scheme matches Some(s) ==> s.settings().ttbr0 == ttbr0_table.unwrap()
                && s.settings().ttbr1 == ttbr1_table.unwrap() && s.settings().output
                == features.physical_address_bits,
    {
        if machine.0 != Machine::AARCH64 {
            return None;
        }
        match VmsaV8TranslationScheme::max_supported(features, ttbr0_table, ttbr1_table) {
            Some(scheme) => Some(Aarch64TranslationScheme(Inner::VmsaV8(scheme))),
            None => None,
        }
    }

    /// Returns the size, in bytes, of minimal translation region.
    pub fn granule(&self) -> (result: Granule)
        ensures
            result == self.settings().granule,
    {
        match &self.0 {
            Inner::VmsaV8(scheme) => scheme.granule(),
        }
    }

    /// Returns `true` if the `TTBR0` page tables are in use.
    pub fn ttbr0_enabled(&self) -> (result: bool)
        ensures
            result == self.settings().ttbr0_enable,
    {
        match &self.0 {
            Inner::VmsaV8(scheme) => scheme.ttbr0_enabled(),
        }
    }

    /// Returns `true` if the `TTBR1` page tables are in use.
    pub fn ttbr1_enabled(&self) -> (result: bool)
        ensures
            result == self.settings().ttbr1_enable,
    {
        match &self.0 {
            Inner::VmsaV8(scheme) => scheme.ttbr1_enabled(),
        }
    }

    /// Returns the location of the table referenced by `TTBR0`.
    pub fn ttbr0(&self) -> (result: u64)
        ensures
            result == self.settings().ttbr0,
    {
        match &self.0 {
            Inner::VmsaV8(scheme) => scheme.ttbr0(),
        }
    }

    /// Returns the location of the table referenced by `TTBR1`.
    pub fn ttbr1(&self) -> (result: u64)
        ensures
            result == self.settings().ttbr1,
    {
        match &self.0 {
            Inner::VmsaV8(scheme) => scheme.ttbr1(),
        }
    }

    /// Returns the value of `T0SZ`.
    pub fn t0sz(&self) -> (result: u8)
        ensures
            result == self.settings().t0sz,
    {
        match &self.0 {
            Inner::VmsaV8(scheme) => scheme.t0sz(),
        }
    }

    /// Returns the value of `T1SZ`.
    pub fn t1sz(&self) -> (result: u8)
        ensures
            result == self.settings().t1sz,
    {
        match &self.0 {
            Inner::VmsaV8(scheme) => scheme.t1sz(),
        }
    }

    /// Returns the size, in bits, of the output address.
    pub fn ipa(&self) -> (result: PhysicalAddressSpaceSize)
        ensures
            result == self.settings().output,
    {
        match &self.0 {
            Inner::VmsaV8(scheme) => scheme.ipa(),
        }
    }
}

/// Errors of VMSAv8 configurations.
#[derive(Clone, Copy, Debug, PartialEq, Eq, Structural)]
pub enum VmsaV8Error {
    /// A translation table could not be allocated.
    OutOfMemory,
}

/// Various errors that can occur when creating an [`Aarch64Scheme`].
#[derive(Clone, Copy, Debug, PartialEq, Eq, Structural)]
pub enum Aarch64SchemeError {
    /// An error occurred when building the VMSAv8 configuration.
    VmsaV8Error(VmsaV8Error),
    /// The operation is not supported.
    NotSupported,
}

/// Translation configurations for `aarch64`.
pub enum Aarch64Scheme {
    /// The VMSAv8 format.
    VmsaV8(VmsaV8TranslationScheme),
}

impl Aarch64Scheme {
    /// The settings of this configuration.
    pub open spec fn settings(&self) -> VmsaV8Settings {
        match self {
            Aarch64Scheme::VmsaV8(scheme) => scheme.settings(),
        }
    }

    /// Constructs the most capable configuration for `machine`.
    pub fn max_supported(
        machine: Machine,
        features: VmsaV8Features,
        ttbr0_table: Option<u64>,
        ttbr1_table: Option<u64>,
    ) -> (result: Result<Self, Aarch64SchemeError>)
        requires
            machine == Machine::spec_aarch64() ==> features.el1 && (features.granule_4_supported
                || features.granule_16_supported || features.granule_64_supported),
        ensures
            machine != Machine::spec_aarch64() ==> result == Err::<Self, Aarch64SchemeError>(
                Aarch64SchemeError::NotSupported,
            ),
            machine == Machine::spec_aarch64() ==> match result {
                Ok(s) => ttbr0_table is Some && ttbr1_table is Some && s.settings().ttbr0
                    == ttbr0_table.unwrap() && s.settings().ttbr1 == ttbr1_table.unwrap(),
                Err(error) => error == Aarch64SchemeError::VmsaV8Error(VmsaV8Error::OutOfMemory) && (
                ttbr0_table is None || ttbr1_table is None),
            },
    {
        if machine.0 != Machine::AARCH64 {
            return Err(Aarch64SchemeError::NotSupported);
        }
        match VmsaV8TranslationScheme::max_supported(features, ttbr0_table, ttbr1_table) {
            Some(scheme) => Ok(Aarch64Scheme::VmsaV8(scheme)),
            None => Err(Aarch64SchemeError::VmsaV8Error(VmsaV8Error::OutOfMemory)),
        }
    }

    /// Returns the size, in bytes, of minimal translation region.
    pub fn granule(&self) -> (result: Granule)
        ensures
            result == self.settings().granule,
    {
        match self {
            Aarch64Scheme::VmsaV8(scheme) => scheme.granule(),
        }
    }

    /// Returns `true` if the `TTBR0` page tables are in use.
    pub fn ttbr0_enabled(&self) -> (result: bool)
        ensures
            result == self.settings().ttbr0_enable,
    {
        match self {
            Aarch64Scheme::VmsaV8(scheme) => scheme.ttbr0_enabled(),
        }
    }

    /// Returns `true` if the `TTBR1` page tables are in use.
    pub fn ttbr1_enabled(&self) -> (result: bool)
        ensures
            result == self.settings().ttbr1_enable,
    {
        match self {
            Aarch64Scheme::VmsaV8(scheme) => scheme.ttbr1_enabled(),
        }
    }

    /// Returns the location of the table referenced by `TTBR0`.
    pub fn ttbr0(&self) -> (result: u64)
        ensures
            result == self.settings().ttbr0,
    {
        match self {
            Aarch64Scheme::VmsaV8(scheme) => scheme.ttbr0(),
        }
    }

    /// Returns the location of the table referenced by `TTBR1`.
    pub fn ttbr1(&self) -> (result: u64)
        ensures
            result == self.settings().ttbr1,
    {
        match self {
            Aarch64Scheme::VmsaV8(scheme) => scheme.ttbr1(),
        }
    }

    /// Returns the value of `T0SZ`.
    pub fn t0sz(&self) -> (result: u8)
        ensures
            result == self.settings().t0sz,
    {
        match self {
            Aarch64Scheme::VmsaV8(scheme) => scheme.t0sz(),
        }
    }

    /// Returns the value of `T1SZ`.
    pub fn t1sz(&self) -> (result: u8)
        ensures
            result == self.settings().t1sz,
    {
        match self {
            Aarch64Scheme::VmsaV8(scheme) => scheme.t1sz(),
        }
    }

    /// Returns the size, in bits, of the output address.
    pub fn ipa(&self) -> (result: PhysicalAddressSpaceSize)
        ensures
            result == self.settings().output,
    {
        match self {
            Aarch64Scheme::VmsaV8(scheme) => scheme.ipa(),
        }
    }
}

/// The policy under which the frames that the switch into the executable needs are allocated
/// on `aarch64`: anywhere.
pub fn arch_policy() -> (policy: crate::context::AllocationPolicy)
    ensures
        policy == crate::context::AllocationPolicy::Any,
{
    crate::context::AllocationPolicy::Any
}

/// Returns `true` if the protocol table handed to the executable has 64-bit fields, which it
/// always has on `aarch64`.
pub fn arch_table_64_bit(_scheme: &Aarch64Scheme) -> (result: bool)
    ensures
        result,
{
    true
}

} // verus!
