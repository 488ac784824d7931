//! Mapping and unmapping ranges of pages in the VMSAv8 tables of a configuration.
use vstd::prelude::*;

use crate::aarch64::{PhysicalAddressSpaceSize, VmsaV8TranslationScheme};
use crate::descriptor::{low_mask, AddressSpaceDescriptor};
use crate::paging::{ChunkRange, MapError, MappingType, Permissions};
use crate::physical_memory::{FrameAllocator, PhysicalMemory64};
use crate::vmsa::{address_limit, granule_bytes, lemma_levels, output_width, page_bits, table_or_page, valid_descriptor};
use crate::vmsa_tables::Geometry;
use crate::vmsa_map::{lemma_roots_apart, lemma_step_leaf, table_frames, trees_from};
use vstd::arithmetic::power2::pow2;

verus! {

impl VmsaV8TranslationScheme {
    /// The size, in bytes, of a page of this configuration.
    pub open spec fn page_bytes(&self) -> int {
        granule_bytes(self.settings().granule)
    }

    /// The chunk range holds at least one page and its addresses fit in 64 bits.
    pub open spec fn chunks_fit(&self, range: ChunkRange) -> bool {
        range.count > 0 && (range.start + range.count) * self.page_bytes() <= u64::MAX + 1
    }

    /// The first address of the pages of `range`.
    pub open spec fn first_address(&self, range: ChunkRange) -> int {
        range.start * self.page_bytes()
    }

    /// The last address of the pages of `range`.
    pub open spec fn last_address(&self, range: ChunkRange) -> int {
        (range.start + range.count) * self.page_bytes() - 1
    }

    /// Every address from `start` to `end` lies in the lower region, or every one in the upper.
    pub open spec fn input_range_valid(&self, start: int, end: int) -> bool {
        let s = self.settings();
        start <= end && ((s.ttbr0_enable && 0 <= start && end <= low_mask((64 - s.t0sz) as nat)) || (s.ttbr1_enable
            && pow2(64) - pow2((64 - s.t1sz) as nat) <= start && end < pow2(64)))
    }

    /// Every address from `start` to `end` is a physical address of the output size.
    pub open spec fn output_range_valid(&self, start: int, end: int) -> bool {
        0 <= start <= end && end <= low_mask(self.settings().output.spec_bits() as nat)
    }

    /// The root and size offset of the region that the valid range `input` lies in.
    pub open spec fn range_region(&self, input: ChunkRange) -> (u64, u8) {
        let s = self.settings();
        if 0 <= self.first_address(input) && self.last_address(input) <= low_mask((64 - s.t0sz) as nat) {
            (s.ttbr0, s.t0sz)
        } else {
            (s.ttbr1, s.t1sz)
        }
    }

    /// [`VmsaV8TranslationScheme::map_at`] maps `input` to `output` with the tables in `memory`:
    /// both ranges are valid and of the same size and no page of `input` is mapped.
    pub open spec fn map_at_accepts(&self, memory: PhysicalMemory64, input: ChunkRange, output: ChunkRange) -> bool {
        &&& self.input_range_valid(self.first_address(input), self.last_address(input))
        &&& self.output_range_valid(self.first_address(output), self.last_address(output))
        &&& input.count == output.count
        &&& forall|k: int| 0 <= k < input.count ==> #[trigger] self.region_translate(
            memory,
            ((input.start + k) * self.page_bytes()) as u64,
        ) is None
    }

    /// `va` lies in one of the first `count` pages of `input`.
    pub open spec fn in_chunks(&self, input: ChunkRange, count: int, va: u64) -> bool {
        input.start <= va as int / self.page_bytes() < input.start + count
    }

    /// The mask of the offset of an address within its page.
    pub open spec fn page_offset_mask(&self) -> u64 {
        ((1u64 << page_bits(self.settings().granule)) - 1) as u64
    }

    /// What translating `va` gives once the first `count` pages of `input` map the pages of
    /// `output` over the tables `before`.
    pub open spec fn mapped_after(
        &self,
        before: PhysicalMemory64,
        input: ChunkRange,
        output: ChunkRange,
        count: int,
        va: u64,
    ) -> Option<(Permissions, MappingType, u64)> {
        if self.in_chunks(input, count, va) {
            Some(
                (
                    Permissions::Read,
                    MappingType::Normal,
                    (((output.start + (va as int / self.page_bytes() - input.start)) * self.page_bytes()) as u64) | (va
                        & self.page_offset_mask()),
                ),
            )
        } else {
            self.region_translate(before, va)
        }
    }

    /// The tables `after` show the first `done` pages of `input` mapped over `before`.
    pub open spec fn shows_mapping(
        &self,
        before: PhysicalMemory64,
        after: PhysicalMemory64,
        input: ChunkRange,
        output: ChunkRange,
        done: int,
    ) -> bool {
        forall|va: u64| #[trigger] self.region_translate(after, va) == self.mapped_after(before, input, output, done, va)
    }

    /// The walk for `va` in `memory` lacks the table of its last level.
    pub open spec fn misses_table(&self, memory: PhysicalMemory64, va: u64) -> bool {
        match self.region_of(va) {
            Some((root, txsz)) => self.geometry(txsz).frame(memory, root as int, va, 1) is None,
            None => false,
        }
    }

    /// The largest physical address below which tables are allocated.
    pub open spec fn table_limit(&self) -> u64 {
        pow2(self.settings().output.spec_bits() as nat) as u64
    }

    /// Every page of a valid input range lies in the region of the range.
    proof fn lemma_chunk_region(&self, input: ChunkRange, k: int)
        requires
            self.walkable(),
            self.chunks_fit(input),
            self.input_range_valid(self.first_address(input), self.last_address(input)),
            0 <= k < input.count,
        ensures
            ((input.start + k) * self.page_bytes()) as u64 == (input.start + k) * self.page_bytes(),
            self.region_of(((input.start + k) * self.page_bytes()) as u64) == Some(self.range_region(input)),
    {
        let g = self.page_bytes();
        let s = self.settings();
        assert(g > 0);
        assert(input.start * g <= (input.start + k) * g <= (input.start + input.count) * g - g) by (nonlinear_arith)
            requires
                0 <= k < input.count,
                g > 0,
                input.start >= 0,
        ;
        self.lemma_region_bounds();
        let va = ((input.start + k) * g) as u64;
        assert(va as int == (input.start + k) * g);
    }

    /// The lower region ends below where the upper region starts.
    proof fn lemma_region_bounds(&self)
        requires
            self.walkable(),
        ensures
            low_mask((64 - self.settings().t0sz) as nat) < pow2(64) - pow2((64 - self.settings().t1sz) as nat),
            pow2(64) == u64::MAX + 1,
    {
        let s = self.settings();
        vstd::arithmetic::power2::lemma2_to64();
        vstd::arithmetic::power2::lemma2_to64_rest();
        if (64 - s.t0sz) < 48 {
            vstd::arithmetic::power2::lemma_pow2_strictly_increases((64 - s.t0sz) as nat, 48);
        }
        if (64 - s.t1sz) < 48 {
            vstd::arithmetic::power2::lemma_pow2_strictly_increases((64 - s.t1sz) as nat, 48);
        }
    }

    /// The page of `va` in a valid input range, mapped in its region, holds exactly the
    /// addresses of that page.
    proof fn lemma_chunk_page(&self, m: PhysicalMemory64, next: int, input: ChunkRange, k: int, out: u64, vb: u64)
        requires
            self.walkable(),
            self.trees_wf(m, next),
            self.chunks_fit(input),
            self.input_range_valid(self.first_address(input), self.last_address(input)),
            0 <= k < input.count,
        ensures
            self.page_mapped(
                self.range_region(input).0,
                self.range_region(input).1,
                ((input.start + k) * self.page_bytes()) as u64,
                out,
                vb,
            ) <==> (vb as int / self.page_bytes() == input.start + k),
    {
        let g = self.page_bytes();
        let s = self.settings();
        let (root, txsz) = self.range_region(input);
        self.lemma_chunk_region(input, k);
        self.lemma_region_bounds();
        let va = ((input.start + k) * g) as u64;
        let geo = self.geometry(txsz);
        let pb = page_bits(s.granule);
        vstd::arithmetic::power2::lemma2_to64();
        assert(pow2(pb as nat) == g);
        vstd::bits::lemma_u64_shr_is_div(va, pb);
        vstd::bits::lemma_u64_shr_is_div(vb, pb);
        assert(va as int / g == input.start + k) by {
            vstd::arithmetic::mul::lemma_mul_is_commutative(input.start + k, g);
            vstd::arithmetic::div_mod::lemma_div_multiples_vanish(input.start + k, g);
        }
        assert(geo.wf());
        if vb as int / g == input.start + k {
            crate::vmsa_tables::lemma_page_path(geo, vb, va);
            assert(input.start * g <= vb <= (input.start + input.count) * g - 1) by (nonlinear_arith)
                requires
                    vb as int / g == input.start + k,
                    0 <= k < input.count,
                    g > 0,
                    vb as int == g * (vb as int / g) + vb as int % g,
                    0 <= vb as int % g < g,
            {
            }
            assert(self.region_of(vb) == self.region_of(va));
        }
        if self.page_mapped(root, txsz, va, out, vb) {
            if self.in_lower_region(va) != self.in_lower_region(vb) {
                let g0 = self.geometry(s.t0sz);
                let g1 = self.geometry(s.t1sz);
                lemma_levels(s.granule, s.t0sz);
                lemma_levels(s.granule, s.t1sz);
                lemma_roots_apart(g0, s.ttbr0 as int, g1, s.ttbr1 as int, m);
            }
            self.lemma_region_high_bits(va, vb, root, txsz);
            assert((pb + crate::vmsa::input_bits(s.granule, txsz)) as u64 == (64 - txsz) as u64);
            crate::vmsa_tables::lemma_path_page(geo, vb, va);
        }
    }

    /// Mapping page `k` of `input` keeps what the mapping of the pages before it shows.
    proof fn lemma_map_step(
        &self,
        m0: PhysicalMemory64,
        before: PhysicalMemory64,
        after: PhysicalMemory64,
        next: int,
        input: ChunkRange,
        output: ChunkRange,
        k: int,
    )
        requires
            self.walkable(),
            self.trees_wf(before, next),
            self.chunks_fit(input),
            self.input_range_valid(self.first_address(input), self.last_address(input)),
            0 <= k < input.count,
            self.shows_mapping(m0, before, input, output, k),
            forall|vb: u64| #[trigger] self.region_translate(after, vb) == if self.page_mapped(
                self.range_region(input).0,
                self.range_region(input).1,
                ((input.start + k) * self.page_bytes()) as u64,
                ((output.start + k) * self.page_bytes()) as u64,
                vb,
            ) {
                Some(
                    (
                        Permissions::Read,
                        MappingType::Normal,
                        ((output.start + k) * self.page_bytes()) as u64 | (vb & self.geometry(
                            self.range_region(input).1,
                        ).offset_mask(1)),
                    ),
                )
            } else {
                self.region_translate(before, vb)
            },
        ensures
            self.shows_mapping(m0, after, input, output, k + 1),
    {
        let g = self.page_bytes();
        let (root, txsz) = self.range_region(input);
        let va = ((input.start + k) * g) as u64;
        let out = ((output.start + k) * g) as u64;
        assert forall|vb: u64| #[trigger] self.region_translate(after, vb) == self.mapped_after(m0, input, output, k + 1, vb) by {
            self.lemma_chunk_page(before, next, input, k, out, vb);
            if vb as int / g == input.start + k {
                assert(self.in_chunks(input, k + 1, vb));
                assert(vb as int / g - input.start == k);
            } else {
                assert(self.region_translate(before, vb) == self.mapped_after(m0, input, output, k, vb));
            }
        }
    }
}

impl VmsaV8TranslationScheme {
    /// Maps the pages of `output` to the pages of `input`, in the tables held in `memory`,
    /// allocating the missing tables from `allocator`. Every mapped page is readable and of the
    /// normal memory type, whatever `permissions` ask for.
    #[verifier::rlimit(40)]
    pub fn map_at(
        &mut self,
        memory: &mut PhysicalMemory64,
        allocator: &mut FrameAllocator,
        input: ChunkRange,
        output: ChunkRange,
        permissions: Permissions,
        mapping_type: MappingType,
    ) -> (result: Result<(), MapError>)
        requires
            old(self).tables_wf(*old(memory), *old(allocator)),
            old(self).chunks_fit(input),
            old(self).chunks_fit(output),
            mapping_type == MappingType::Normal,
        ensures
            *final(self) == *old(self),
            final(self).tables_wf(*final(memory), *final(allocator)),
            final(allocator).end == old(allocator).end,
            !old(self).map_at_accepts(*old(memory), input, output) ==> result == Err::<(), MapError>(
                MapError::FindFreeRegionError) && *final(memory) == *old(memory) && *final(allocator) == *old(allocator),
            old(self).map_at_accepts(*old(memory), input, output) ==> match result {
                Ok(()) => old(self).shows_mapping(*old(memory), *final(memory), input, output, input.count as int),
                Err(error) => {
                    &&& error == MapError::FrameAllocation
                    &&& !final(allocator).can_allocate_frames(table_frames(old(self).settings().granule), old(self).table_limit())
                    &&& exists|done: int| 0 <= done < input.count && #[trigger] old(self).shows_mapping(
                        *old(memory),
                        *final(memory),
                        input,
                        output,
                        done,
                    ) && old(self).misses_table(*final(memory), ((input.start + done) * old(self).page_bytes()) as u64)
                },
            },
    {
        let ghost s = self.settings();
        let ghost g = self.page_bytes();
        proof {
            self.lemma_region_bounds();
            vstd::arithmetic::power2::lemma2_to64();
            vstd::arithmetic::power2::lemma2_to64_rest();
            assert(g > 0);
            assert(input.start * g + (input.count - 1) * g + (g - 1) == (input.start + input.count) * g - 1) by (nonlinear_arith);
            assert(output.start * g + (output.count - 1) * g + (g - 1) == (output.start + output.count) * g - 1) by (nonlinear_arith);
            assert(input.start * g <= (input.start + input.count) * g - g) by (nonlinear_arith)
                requires input.count >= 1, g > 0, input.start >= 0;
            assert(output.start * g <= (output.start + output.count) * g - g) by (nonlinear_arith)
                requires output.count >= 1, g > 0, output.start >= 0;
            assert((input.count - 1) * g <= (input.start + input.count) * g - g) by (nonlinear_arith)
                requires input.count >= 1, g > 0, input.start >= 0;
            assert((output.count - 1) * g <= (output.start + output.count) * g - g) by (nonlinear_arith)
                requires output.count >= 1, g > 0, output.start >= 0;
        }
        let chunk = self.chunk_size();
        assert(chunk == g);
        let input_start = input.start * chunk;
        let input_end = input_start + (input.count - 1) * chunk + (chunk - 1);
        if !self.input_descriptor().is_valid_range(input_start, input_end) {
            return Err(MapError::FindFreeRegionError);
        }
        let output_start = output.start * chunk;
        let output_end = output_start + (output.count - 1) * chunk + (chunk - 1);
        if !self.output_descriptor().is_valid_range(output_start, output_end) {
            return Err(MapError::FindFreeRegionError);
        }
        if input.count != output.count {
            return Err(MapError::FindFreeRegionError);
        }
        assert(self.input_range_valid(self.first_address(input), self.last_address(input)));
        assert(self.output_range_valid(self.first_address(output), self.last_address(output)));
        let lower = AddressSpaceDescriptor::new(64 - self.t0sz(), false);
        let (root, txsz) = if lower.is_valid_range(input_start, input_end) {
            (self.ttbr0(), self.t0sz())
        } else {
            (self.ttbr1(), self.t1sz())
        };
        assert((root, txsz) == self.range_region(input));
        let mut k: u64 = 0;
        while k < input.count
            invariant
                *memory == *old(memory),
                *allocator == *old(allocator),
                self.tables_wf(*memory, *allocator),
                self.chunks_fit(input),
                self.input_range_valid(self.first_address(input), self.last_address(input)),
                input_start == input.start * g,
                chunk == g,
                g == self.page_bytes(),
                g > 0,
                k <= input.count,
                forall|i: int| 0 <= i < k ==> #[trigger] self.region_translate(*memory, ((input.start + i) * g) as u64) is None,
            decreases input.count - k,
        {
            proof {
                self.lemma_chunk_region(input, k as int);
                assert(input_start + k * chunk == (input.start + k) * g) by (nonlinear_arith)
                    requires input_start == input.start * g, chunk == g;
                assert(0 <= k * chunk <= (input.start + k) * g < (input.start + input.count) * g) by (nonlinear_arith)
                    requires k < input.count, g > 0, chunk == g, input.start >= 0, k >= 0;
                self.lemma_translate_walk(*memory, (input_start + k * chunk) as u64);
            }
            if self.translate(memory, input_start + k * chunk).is_some() {
                return Err(MapError::FindFreeRegionError);
            }
            k += 1;
        }
        assert(self.map_at_accepts(*old(memory), input, output));
        let bits = self.output_size_bits();
        proof {
            crate::vmsa::lemma_shl_one(bits as u64);
        }
        let limit = 1u64 << bits;
        assert(limit == self.table_limit());
        self.map_pages(memory, allocator, input, output, root, txsz, limit)
    }

    /// Returns the number of bits of the physical addresses.
    fn output_size_bits(&self) -> (bits: u8)
        requires
            self.walkable(),
        ensures
            bits == self.settings().output.spec_bits(),
            bits <= 52,
            pow2(bits as nat) <= address_limit(output_width(self.settings().output)),
    {
        proof {
            vstd::arithmetic::power2::lemma2_to64();
            vstd::arithmetic::power2::lemma2_to64_rest();
        }
        self.ipa().to_val()
    }

    /// Maps the pages of `input`, none of which is mapped, to the pages of `output`, in the
    /// region of `input`, allocating tables at or below `limit`.
    #[verifier::rlimit(40)]
    fn map_pages(
        &self,
        memory: &mut PhysicalMemory64,
        allocator: &mut FrameAllocator,
        input: ChunkRange,
        output: ChunkRange,
        root: u64,
        txsz: u8,
        limit: u64,
    ) -> (result: Result<(), MapError>)
        requires
            self.tables_wf(*old(memory), *old(allocator)),
            self.map_at_accepts(*old(memory), input, output),
            self.chunks_fit(input),
            self.chunks_fit(output),
            (root, txsz) == self.range_region(input),
            limit == self.table_limit(),
            limit <= address_limit(output_width(self.settings().output)),
            pow2(self.settings().output.spec_bits() as nat) <= address_limit(output_width(self.settings().output)),
        ensures
            self.tables_wf(*final(memory), *final(allocator)),
            final(allocator).end == old(allocator).end,
            match result {
                Ok(()) => self.shows_mapping(*old(memory), *final(memory), input, output, input.count as int),
                Err(error) => {
                    &&& error == MapError::FrameAllocation
                    &&& !final(allocator).can_allocate_frames(table_frames(self.settings().granule), limit)
                    &&& exists|done: int| 0 <= done < input.count && #[trigger] self.shows_mapping(
                        *old(memory),
                        *final(memory),
                        input,
                        output,
                        done,
                    ) && self.misses_table(*final(memory), ((input.start + done) * self.page_bytes()) as u64)
                },
            },
    {
        let ghost g = self.page_bytes();
        let ghost m0 = *memory;
        proof {
            self.lemma_region_bounds();
            vstd::arithmetic::power2::lemma2_to64();
            assert(g > 0);
            assert(input.start * g <= (input.start + input.count) * g) by (nonlinear_arith)
                requires g > 0, input.count >= 0;
            assert(output.start * g <= (output.start + output.count) * g) by (nonlinear_arith)
                requires g > 0, output.count >= 0;
        }
        let chunk = self.chunk_size();
        let input_start = input.start * chunk;
        let output_start = output.start * chunk;
        let mut k: u64 = 0;
        while k < input.count
            invariant
                m0 == *old(memory),
                self.tables_wf(*memory, *allocator),
                allocator.end == old(allocator).end,
                self.map_at_accepts(m0, input, output),
                self.chunks_fit(input),
                self.chunks_fit(output),
                (root, txsz) == self.range_region(input),
                limit <= address_limit(output_width(self.settings().output)),
                pow2(self.settings().output.spec_bits() as nat) <= address_limit(output_width(self.settings().output)),
                chunk == g,
                g == self.page_bytes(),
                g > 0,
                input_start == input.start * g,
                output_start == output.start * g,
                k <= input.count,
                self.shows_mapping(m0, *memory, input, output, k as int),
            decreases input.count - k,
        {
            proof {
                self.lemma_chunk_region(input, k as int);
                assert(input_start + k * chunk == (input.start + k) * g) by (nonlinear_arith)
                    requires input_start == input.start * g, chunk == g;
                assert(output_start + k * chunk == (output.start + k) * g) by (nonlinear_arith)
                    requires output_start == output.start * g, chunk == g;
                assert(0 <= k * chunk <= (input.start + k) * g < (input.start + input.count) * g) by (nonlinear_arith)
                    requires k < input.count, g > 0, chunk == g, input.start >= 0, k >= 0;
                assert(0 <= k * chunk <= (output.start + k) * g < (output.start + output.count) * g) by (nonlinear_arith)
                    requires k < output.count, g > 0, chunk == g, output.start >= 0, k >= 0;
                assert((output.start + k) * g <= (output.start + output.count) * g - g) by (nonlinear_arith)
                    requires k < output.count, g > 0, output.start >= 0;
                assert((output.start + k) * g % g == 0) by (nonlinear_arith) requires g > 0;
                assert(output.start * g >= 0) by (nonlinear_arith) requires g > 0, output.start >= 0;
            }
            let va = input_start + k * chunk;
            let out = output_start + k * chunk;
            let ghost before = *memory;
            let ghost before_next = allocator.next as int;
            proof {
                let vk = ((input.start + k) * g) as u64;
                assert(vk == va);
                assert(!self.in_chunks(input, k as int, va)) by {
                    assert(va as int == (input.start + k) * g);
                    vstd::arithmetic::mul::lemma_mul_is_commutative(input.start + k, g);
                    vstd::arithmetic::div_mod::lemma_div_multiples_vanish(input.start + k, g);
                    assert(va as int / g == input.start + k);
                }
                assert(self.region_translate(m0, vk) is None);
                assert(self.region_translate(before, va) is None);
                crate::vmsa::lemma_levels(self.settings().granule, txsz);
                assert(out < pow2(self.settings().output.spec_bits() as nat));
            }
            let result = self.map_page(memory, allocator, root, txsz, va, out, limit);
            match result {
                Ok(()) => {
                    proof {
                        self.lemma_map_step(m0, before, *memory, before_next, input, output, k as int);
                    }
                },
                Err(error) => {
                    proof {
                        assert(self.shows_mapping(m0, *memory, input, output, k as int));
                        assert(self.misses_table(*memory, ((input.start + k) * g) as u64));
                    }
                    return Err(error);
                },
            }
            k += 1;
        }
        Ok(())
    }
}

/// The offset within an aligned page joins its base by addition.
proof fn lemma_or_offset(base: u64, address: u64, pb: u64)
    by (bit_vector)
    requires
        pb < 64,
        base & (((1u64 << pb) - 1) as u64) == 0,
    ensures
        base | (address & (((1u64 << pb) - 1) as u64)) == base + (address & (((1u64 << pb) - 1) as u64)),
{
}

/// Once `map_at` has mapped `input` to `output`, every address of `input` translates to the same
/// offset into `output`.
pub proof fn law_vmsa_map_at_then_translate(
    scheme: &VmsaV8TranslationScheme,
    before: PhysicalMemory64,
    after: PhysicalMemory64,
    input: ChunkRange,
    output: ChunkRange,
    address: u64,
)
    requires
        scheme.walkable(),
        scheme.chunks_fit(input),
        scheme.chunks_fit(output),
        scheme.map_at_accepts(before, input, output),
        scheme.shows_mapping(before, after, input, output, input.count as int),
        scheme.first_address(input) <= address <= scheme.last_address(input),
    ensures
        scheme.spec_translate(after, address) == Some(
            (
                Permissions::Read,
                MappingType::Normal,
                (scheme.first_address(output) + (address - scheme.first_address(input))) as u64,
            ),
        ),
{
    let g = scheme.page_bytes();
    let pb = page_bits(scheme.settings().granule);
    vstd::arithmetic::power2::lemma2_to64();
    assert(g > 0 && pow2(pb as nat) == g);
    scheme.lemma_translate_walk(after, address);
    let page = address as int / g;
    let offset = address as int % g;
    assert(address as int == g * page + offset && 0 <= offset < g) by {
        vstd::arithmetic::div_mod::lemma_fundamental_div_mod(address as int, g);
        vstd::arithmetic::div_mod::lemma_mod_pos_bound(address as int, g);
    }
    assert(input.start <= page < input.start + input.count) by (nonlinear_arith)
        requires
            input.start * g <= address <= (input.start + input.count) * g - 1,
            address as int == g * page + offset,
            0 <= offset < g,
    ;
    assert(scheme.in_chunks(input, input.count as int, address));
    let base = (output.start + (page - input.start)) * g;
    assert(base + offset == output.start * g + (address - input.start * g)) by (nonlinear_arith)
        requires
            base == (output.start + (page - input.start)) * g,
            address as int == g * page + offset,
    ;
    assert(0 <= base && base + g <= (output.start + output.count) * g) by (nonlinear_arith)
        requires
            base == (output.start + (page - input.start)) * g,
            input.start <= page < input.start + input.count,
            input.count == output.count,
            g > 0,
            output.start >= 0,
    ;
    assert(base % g == 0) by {
        vstd::arithmetic::div_mod::lemma_mod_multiples_basic(output.start + (page - input.start), g);
    }
    crate::vmsa::lemma_shl_one(pb);
    vstd::bits::lemma_u64_low_bits_mask_is_mod(address, pb as nat);
    vstd::bits::lemma_u64_low_bits_mask_is_mod(base as u64, pb as nat);
    assert(scheme.page_offset_mask() == ((1u64 << pb) - 1) as u64);
    lemma_or_offset(base as u64, address, pb);
}

/// The descriptor at height `h` of the walk for `va` does not map a block.
pub open spec fn no_block_at(geo: Geometry, m: PhysicalMemory64, root: int, va: u64, h: nat) -> bool {
    geo.entry(m, root, va, h) matches Some(e) ==> !(valid_descriptor(e) && !table_or_page(e))
}

/// Writing the descriptor at height 1 of the walk for `target` keeps every descriptor above
/// height 1 that any walk reads.
proof fn lemma_leaf_write_keeps_upper(geo: Geometry, m1: PhysicalMemory64, m2: PhysicalMemory64, root: int, next: int, target: u64)
    requires
        geo.wf(),
        geo.tree_wf(m1, root, next),
        geo.frame(m1, root, target, 1) is Some,
        forall|k: int| k != geo.frame(m1, root, target, 1)->0 / 8 + geo.index(target, 1) ==> #[trigger] m2.word(k) == m1.word(k),
        forall|va: u64, h: nat| 1 <= h <= geo.levels() ==> #[trigger] geo.frame(m2, root, va, h) == geo.frame(m1, root, va, h),
    ensures
        forall|va: u64, h: nat| 2 <= h <= geo.levels() ==> #[trigger] geo.entry(m2, root, va, h) == geo.entry(m1, root, va, h),
{
    let t = geo.frame(m1, root, target, 1)->0;
    assert forall|va: u64, h: nat| 2 <= h <= geo.levels() implies #[trigger] geo.entry(m2, root, va, h) == geo.entry(m1, root, va, h) by {
        if let Some(f) = geo.frame(m1, root, va, h) {
            assert(geo.frame(m2, root, va, h) == Some(f));
            if f / 8 + geo.index(va, h) == t / 8 + geo.index(target, 1) {
                crate::vmsa_tables::lemma_index_bound(geo, va, h);
                crate::vmsa_tables::lemma_index_bound(geo, target, 1);
                crate::vmsa_tables::lemma_table_words(geo.table_bytes(), f, geo.index(va, h), t, geo.index(target, 1));
                assert(geo.frame(m1, root, target, 1) == geo.frame(m1, root, va, h));
            }
        }
    }
}

impl VmsaV8TranslationScheme {
    /// No page of `input` is mapped through a block by the tables in `memory`.
    pub open spec fn no_blocks(&self, memory: PhysicalMemory64, input: ChunkRange) -> bool {
        forall|k: int, h: nat| 0 <= k < input.count && 2 <= h <= self.geometry(self.range_region(input).1).levels()
            ==> #[trigger] no_block_at(
            self.geometry(self.range_region(input).1),
            memory,
            self.range_region(input).0 as int,
            ((input.start + k) * self.page_bytes()) as u64,
            h,
        )
    }

    /// What translating `va` gives once the first `count` pages of `input` are unmapped from the
    /// tables `before`.
    pub open spec fn unmapped_after(&self, before: PhysicalMemory64, input: ChunkRange, count: int, va: u64) -> Option<
        (Permissions, MappingType, u64),
    > {
        if self.in_chunks(input, count, va) {
            None
        } else {
            self.region_translate(before, va)
        }
    }

    /// Clears the page descriptor of `va`, in the region whose root is `root` and size offset
    /// `txsz`, if the walk reaches it.
    #[verifier::rlimit(60)]
    #[verifier::spinoff_prover]
    fn unmap_page(&self, memory: &mut PhysicalMemory64, allocator: &FrameAllocator, root: u64, txsz: u8, va: u64)
        requires
            self.tables_wf(*old(memory), *allocator),
            self.region_of(va) == Some((root, txsz)),
            forall|h: nat| 2 <= h <= self.geometry(txsz).levels() ==> #[trigger] no_block_at(
                self.geometry(txsz),
                *old(memory),
                root as int,
                va,
                h,
            ),
        ensures
            self.tables_wf(*final(memory), *allocator),
            forall|v: u64, h: nat| 2 <= h <= self.geometry(txsz).levels() ==> #[trigger] self.geometry(txsz).entry(
                *final(memory),
                root as int,
                v,
                h,
            ) == self.geometry(txsz).entry(*old(memory), root as int, v, h),
            forall|vb: u64| #[trigger] self.region_translate(*final(memory), vb) == if self.page_mapped(root, txsz, va, 0, vb) {
                None
            } else {
                self.region_translate(*old(memory), vb)
            },
    {
        let ghost ga = self.geometry(txsz);
        let ghost ra = root as int;
        let ghost (gb, rb, eb) = self.other_tree(va);
        let ghost m0 = *old(memory);
        let ghost next = allocator.next as int;
        proof {
            self.lemma_view(m0, next, va, root, txsz);
            lemma_levels(ga.granule, ga.txsz);
            if eb {
                lemma_levels(gb.granule, gb.txsz);
            }
        }
        let granule = self.granule();
        let offset_bits = crate::vmsa::granule_page_bits(granule);
        let bits_per_level = offset_bits - 3;
        let target_bits = 64 - txsz as u64 - offset_bits;
        let levels = (target_bits + bits_per_level - 1) / bits_per_level;
        let size = self.output_size();
        assert(levels == crate::vmsa::level_count(granule, txsz));
        proof {
            crate::vmsa::lemma_geometry(granule, txsz, va, 0, 0);
            assert((levels - 1) * bits_per_level <= 39) by (nonlinear_arith)
                requires
                    1 <= levels <= 4,
                    bits_per_level <= 13,
            ;
        }
        let mut level: u64 = 0;
        let mut base = (levels - 1) * bits_per_level;
        let mut table = root;
        loop
            invariant
                *memory == m0,
                m0 == *old(memory),
                ga == self.geometry(txsz),
                ga.wf(),
                eb ==> gb.wf(),
                ga.granule == gb.granule,
                (gb, rb, eb) == self.other_tree(va),
                trees_from(m0, next, ga, ra, gb, rb, eb),
                next == allocator.next as int,
                ra == root as int,
                self.walkable(),
                self.tables_wf(m0, *allocator),
                self.region_of(va) == Some((root, txsz)),
                granule == self.settings().granule,
                size == output_width(self.settings().output),
                offset_bits == page_bits(granule),
                bits_per_level == crate::vmsa::index_bits(granule),
                target_bits == crate::vmsa::input_bits(granule, txsz),
                levels == crate::vmsa::level_count(granule, txsz),
                levels == ga.levels(),
                level < levels,
                base == crate::vmsa::base_bit(granule, txsz, level),
                ga.tree_wf(m0, ra, next),
                ga.frame(m0, ra, va, (levels - level) as nat) == Some(table as int),
                forall|h: nat| 2 <= h <= ga.levels() ==> #[trigger] no_block_at(ga, m0, ra, va, h),
            decreases levels - level,
        {
            let ghost h = (levels - level) as nat;
            proof {
                crate::vmsa::lemma_geometry(granule, txsz, va, level, 0);
                crate::vmsa::lemma_index_fits(granule, txsz, va, level);
                assert(ga.index(va, h) == crate::vmsa::table_index(granule, txsz, va, level));
                assert(table as int % ga.table_bytes() == 0 && table + ga.table_bytes() <= next);
            }
            let top_bit = if base + bits_per_level < target_bits { base + bits_per_level } else { target_bits };
            let index = crate::vmsa::index_of(va, offset_bits, base, top_bit);
            let entry_address = table + index * 8;
            assert(entry_address / 8 == table / 8 + index);
            if level == levels - 1 {
                memory.write_u64(entry_address, 0);
                proof {
                    let m2 = *memory;
                    assert(h == 1);
                    assert forall|k: int| k != table / 8 + index implies #[trigger] m2.word(k) == m0.word(k) by {}
                    crate::vmsa_tables::lemma_write_leaf(ga, m0, m2, ra, next, va, 0);
                    lemma_leaf_write_keeps_upper(ga, m0, m2, ra, next, va);
                    lemma_step_leaf(m0, m2, next, va, 0, ga, ra, gb, rb, eb);
                    self.lemma_view(m2, next, va, root, txsz);
                    assert(self.trees_wf(m2, next));
                    assert(m2.words@.len() == m0.words@.len());
                    assert(m2.byte_len() == m0.byte_len());
                    if eb {
                        lemma_roots_apart(ga, ra, gb, rb, m0);
                    }
                    self.lemma_unmap_result(m0, m2, root, txsz, va);
                }
                return;
            }
            let e = memory.read_u64(entry_address);
            if e & 1 != 1 {
                proof {
                    self.lemma_unmapped_already(m0, root, txsz, va, h);
                }
                return;
            }
            proof {
                assert(ga.entry(m0, ra, va, h) == Some(e));
                assert(no_block_at(ga, m0, ra, va, h));
                crate::vmsa::lemma_geometry(granule, txsz, va, level, e);
                assert(((levels - (level + 1)) as nat) + 1 == h);
            }
            table = crate::vmsa::read_descriptor_address(granule, size, e);
            base = base - bits_per_level;
            level += 1;
        }
    }

    /// Where the walk for `va` reaches an invalid descriptor, no address of its page in its
    /// region translates.
    proof fn lemma_unmapped_already(&self, m: PhysicalMemory64, root: u64, txsz: u8, va: u64, h: nat)
        requires
            self.walkable(),
            self.region_of(va) == Some((root, txsz)),
            self.geometry(txsz).wf(),
            1 <= h <= self.geometry(txsz).levels(),
            self.geometry(txsz).frame(m, root as int, va, h) is Some,
            !valid_descriptor(m.word(self.geometry(txsz).frame(m, root as int, va, h)->0 / 8 + self.geometry(txsz).index(va, h))),
        ensures
            forall|vb: u64| #[trigger] self.page_mapped(root, txsz, va, 0, vb) ==> self.region_translate(m, vb) is None,
    {
        let geo = self.geometry(txsz);
        assert forall|vb: u64| #[trigger] self.page_mapped(root, txsz, va, 0, vb) implies self.region_translate(m, vb) is None by {
            assert(geo.same_path(vb, va, h));
            crate::vmsa_tables::lemma_frame_path(geo, m, root as int, vb, va, h);
            assert(geo.index(vb, h) == geo.index(va, h));
            crate::vmsa_tables::lemma_walk_invalid(geo, m, root as int, vb, geo.levels(), h);
        }
    }

    /// Once the page descriptor of `va` is cleared, the addresses with the path of `va` in its
    /// region translate to nothing and every other translation stays.
    proof fn lemma_unmap_result(&self, m0: PhysicalMemory64, m2: PhysicalMemory64, root: u64, txsz: u8, va: u64)
        requires
            self.walkable(),
            self.region_of(va) == Some((root, txsz)),
            forall|vb: u64| #[trigger] self.geometry(txsz).walk(m2, root as int, vb) == if self.geometry(txsz).same_path(vb, va, 0) {
                self.geometry(txsz).leaf_result(0, vb)
            } else {
                self.geometry(txsz).walk(m0, root as int, vb)
            },
            self.other_tree(va).2 ==> forall|vb: u64| #[trigger] self.other_tree(va).0.walk(m2, self.other_tree(va).1, vb)
                == self.other_tree(va).0.walk(m0, self.other_tree(va).1, vb),
            self.other_tree(va).2 ==> self.other_tree(va).1 != root as int,
        ensures
            forall|vb: u64| #[trigger] self.region_translate(m2, vb) == if self.page_mapped(root, txsz, va, 0, vb) {
                None
            } else {
                self.region_translate(m0, vb)
            },
    {
        let ga = self.geometry(txsz);
        assert(!valid_descriptor(0)) by {
            vstd::bits::lemma_u64_low_bits_mask_is_mod(0, 1);
            vstd::bits::lemma_low_bits_mask_values();
            vstd::arithmetic::power2::lemma2_to64();
            assert((vstd::bits::low_bits_mask(1) as u64) == 1u64);
            assert(0u64 & 1u64 == 0u64 % 2u64);
        }
        assert forall|vb: u64| #[trigger] self.region_translate(m2, vb) == if self.page_mapped(root, txsz, va, 0, vb) {
            None
        } else {
            self.region_translate(m0, vb)
        } by {
            if let Some((r, t)) = self.region_of(vb) {
                if (r, t) == (root, txsz) {
                    assert(ga.walk(m2, root as int, vb) == if ga.same_path(vb, va, 0) {
                        ga.leaf_result(0, vb)
                    } else {
                        ga.walk(m0, root as int, vb)
                    });
                } else {
                    assert(self.other_tree(va).0 == self.geometry(t));
                    assert(self.other_tree(va).1 == r as int);
                    assert(self.other_tree(va).0.walk(m2, self.other_tree(va).1, vb) == self.other_tree(va).0.walk(
                        m0,
                        self.other_tree(va).1,
                        vb,
                    ));
                }
            }
        }
    }
}

impl VmsaV8TranslationScheme {
    /// Unmaps the pages of `input` from the tables held in `memory`, whose frames come from
    /// `allocator`.
    pub fn unmap(&mut self, memory: &mut PhysicalMemory64, allocator: &FrameAllocator, input: ChunkRange)
        requires
            old(self).tables_wf(*old(memory), *allocator),
            old(self).chunks_fit(input),
            old(self).input_range_valid(old(self).first_address(input), old(self).last_address(input)),
            old(self).no_blocks(*old(memory), input),
        ensures
            *final(self) == *old(self),
            final(self).tables_wf(*final(memory), *allocator),
            forall|va: u64| #[trigger] final(self).region_translate(*final(memory), va) == old(self).unmapped_after(
                *old(memory),
                input,
                input.count as int,
                va,
            ),
    {
        let ghost g = self.page_bytes();
        let ghost m0 = *memory;
        proof {
            self.lemma_region_bounds();
            vstd::arithmetic::power2::lemma2_to64();
            vstd::arithmetic::power2::lemma2_to64_rest();
            assert(g > 0);
            assert(input.start * g <= (input.start + input.count) * g - g) by (nonlinear_arith)
                requires input.count >= 1, g > 0, input.start >= 0;
            assert(input.start * g + (input.count - 1) * g + (g - 1) == (input.start + input.count) * g - 1) by (nonlinear_arith);
            assert((input.count - 1) * g <= (input.start + input.count) * g - g) by (nonlinear_arith)
                requires input.count >= 1, g > 0, input.start >= 0;
        }
        let chunk = self.chunk_size();
        let input_start = input.start * chunk;
        let input_end = input_start + (input.count - 1) * chunk + (chunk - 1);
        let lower = AddressSpaceDescriptor::new(64 - self.t0sz(), false);
        let (root, txsz) = if lower.is_valid_range(input_start, input_end) {
            (self.ttbr0(), self.t0sz())
        } else {
            (self.ttbr1(), self.t1sz())
        };
        assert((root, txsz) == self.range_region(input));
        let mut k: u64 = 0;
        while k < input.count
            invariant
                m0 == *old(memory),
                *self == *old(self),
                self.tables_wf(*memory, *allocator),
                self.chunks_fit(input),
                self.input_range_valid(self.first_address(input), self.last_address(input)),
                self.no_blocks(*memory, input),
                (root, txsz) == self.range_region(input),
                chunk == g,
                g == self.page_bytes(),
                g > 0,
                input_start == input.start * g,
                k <= input.count,
                forall|va: u64| #[trigger] self.region_translate(*memory, va) == self.unmapped_after(m0, input, k as int, va),
            decreases input.count - k,
        {
            proof {
                self.lemma_chunk_region(input, k as int);
                assert(input_start + k * chunk == (input.start + k) * g) by (nonlinear_arith)
                    requires input_start == input.start * g, chunk == g;
                assert(0 <= k * chunk <= (input.start + k) * g < (input.start + input.count) * g) by (nonlinear_arith)
                    requires k < input.count, g > 0, chunk == g, input.start >= 0, k >= 0;
                lemma_levels(self.settings().granule, txsz);
            }
            let va = input_start + k * chunk;
            let ghost before = *memory;
            let ghost geo = self.geometry(txsz);
            proof {
                assert forall|h: nat| 2 <= h <= geo.levels() implies #[trigger] no_block_at(geo, before, root as int, va, h) by {
                    assert(self.no_blocks(before, input));
                    assert(root == self.range_region(input).0 && txsz == self.range_region(input).1);
                    assert(0 <= k < input.count);
                    assert(no_block_at(geo, before, root as int, ((input.start + k as int) * g) as u64, h));
                }
            }
            self.unmap_page(memory, allocator, root, txsz, va);
            proof {
                assert forall|j: int, h: nat| 0 <= j < input.count && 2 <= h <= geo.levels() implies #[trigger] no_block_at(
                    geo,
                    *memory,
                    root as int,
                    ((input.start + j) * g) as u64,
                    h,
                ) by {
                    assert(root == self.range_region(input).0 && txsz == self.range_region(input).1);
                    assert(no_block_at(geo, before, root as int, ((input.start + j) * g) as u64, h));
                    assert(geo.entry(*memory, root as int, ((input.start + j) * g) as u64, h) == geo.entry(
                        before,
                        root as int,
                        ((input.start + j) * g) as u64,
                        h,
                    ));
                }
                assert forall|vb: u64| #[trigger] self.region_translate(*memory, vb) == self.unmapped_after(m0, input, k + 1, vb) by {
                    self.lemma_chunk_page(before, allocator.next as int, input, k as int, 0, vb);
                    assert(self.region_translate(before, vb) == self.unmapped_after(m0, input, k as int, vb));
                }
            }
            k += 1;
        }
    }
}

/// Once `unmap` has unmapped `input`, no address of `input` translates, and every other address
/// translates as before.
pub proof fn law_vmsa_unmap_then_translate(
    scheme: &VmsaV8TranslationScheme,
    before: PhysicalMemory64,
    after: PhysicalMemory64,
    input: ChunkRange,
    address: u64,
)
    requires
        scheme.walkable(),
        forall|va: u64| #[trigger] scheme.region_translate(after, va) == scheme.unmapped_after(before, input, input.count as int, va),
    ensures
        scheme.first_address(input) <= address <= scheme.last_address(input) ==> scheme.spec_translate(after, address) is None,
        !scheme.in_chunks(input, input.count as int, address) ==> scheme.spec_translate(after, address) == scheme.spec_translate(
            before,
            address,
        ),
{
    let g = scheme.page_bytes();
    assert(g > 0);
    scheme.lemma_translate_walk(after, address);
    scheme.lemma_translate_walk(before, address);
    if scheme.first_address(input) <= address <= scheme.last_address(input) {
        let page = address as int / g;
        assert(address as int == g * page + address as int % g && 0 <= address as int % g < g) by {
            vstd::arithmetic::div_mod::lemma_fundamental_div_mod(address as int, g);
            vstd::arithmetic::div_mod::lemma_mod_pos_bound(address as int, g);
        }
        assert(input.start <= page < input.start + input.count) by (nonlinear_arith)
            requires
                input.start * g <= address <= (input.start + input.count) * g - 1,
                address as int == g * page + address as int % g,
                0 <= address as int % g < g,
        ;
    }
}

} // verus!
