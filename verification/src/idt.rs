//! The `x86_64` interrupt descriptor table.
use vstd::prelude::*;

verus! {

/// An `x86_64` interrupt gate: a 64-bit handler address split into three pieces, with its code
/// segment selector, interrupt stack table index and attributes.
#[derive(Clone, Copy, Debug, PartialEq, Eq, Structural)]
pub struct IdtEntry {
    /// Bits 15:0 of the handler address.
    pub offset_low: u16,
    /// The code segment selector.
    pub selector: u16,
    /// The interrupt stack table index.
    pub ist: u8,
    /// The descriptor type and attributes.
    pub attributes: u8,
    /// Bits 31:16 of the handler address.
    pub offset_middle: u16,
    /// Bits 63:32 of the handler address.
    pub offset_high: u32,
    /// Reserved.
    pub zero: u32,
}

impl IdtEntry {
    /// The handler address that the entry holds.
    pub open spec fn handler(self) -> int {
        self.offset_low + self.offset_middle * 0x1_0000 + self.offset_high * 0x1_0000_0000
    }

    /// Returns an entry with every field zero.
    pub fn missing() -> (entry: Self)
        ensures
            entry.offset_low == 0 && entry.selector == 0 && entry.ist == 0 && entry.attributes == 0
                && entry.offset_middle == 0 && entry.offset_high == 0 && entry.zero == 0,
    {
        IdtEntry {
            offset_low: 0,
            selector: 0,
            ist: 0,
            attributes: 0,
            offset_middle: 0,
            offset_high: 0,
            zero: 0,
        }
    }

    /// Returns an entry for `handler`.
    pub fn new(handler: u64, selector: u16, attributes: u8, ist: u8) -> (entry: Self)
        ensures
            entry.handler() == handler,
            entry.selector == selector,
            entry.attributes == attributes,
            entry.ist == ist,
            entry.zero == 0,
    {
        assert(handler == (handler & 0xFFFF) + ((handler >> 16u64) & 0xFFFF) * 0x1_0000 + (handler
            >> 32u64) * 0x1_0000_0000) by (bit_vector);
        assert((handler >> 32u64) <= 0xFFFF_FFFF && (handler & 0xFFFF) <= 0xFFFF && ((handler >> 16u64)
            & 0xFFFF) <= 0xFFFF) by (bit_vector);
        let offset_low = (handler & 0xFFFF) as u16;
        let offset_middle = ((handler >> 16u64) & 0xFFFF) as u16;
        let offset_high = (handler >> 32u64) as u32;
        IdtEntry { offset_low, selector, ist, attributes, offset_middle, offset_high, zero: 0 }
    }
}

/// An interrupt descriptor table of 256 entries.
pub struct Idt {
    /// The entries.
    entries: Vec<IdtEntry>,
}

impl View for Idt {
    type V = Seq<IdtEntry>;

    /// The entries of the table.
    closed spec fn view(&self) -> Seq<IdtEntry> {
        self.entries@
    }
}

impl Idt {
    /// The table holds exactly 256 entries.
    #[verifier::type_invariant]
    spec fn holds_every_vector(&self) -> bool {
        self.entries@.len() == 256
    }

    /// Returns a table whose 256 entries are all missing.
    pub fn new() -> (idt: Self)
        ensures
            idt@.len() == 256,
            forall|i: int| 0 <= i < 256 ==> #[trigger] idt@[i] == IdtEntry::missing_spec(),
    {
        let mut entries: Vec<IdtEntry> = Vec::new();
        while entries.len() < 256
            invariant
                entries.len() <= 256,
                forall|i: int| 0 <= i < entries.len() ==> #[trigger] entries@[i] == IdtEntry::missing_spec(),
            decreases 256 - entries.len(),
        {
            entries.push(IdtEntry::missing());
        }
        Idt { entries }
    }

    /// Returns the entry for interrupt `index`.
    pub fn entry(&self, index: usize) -> (entry: IdtEntry)
        requires
            index < 256,
        ensures
            entry == self@[index as int],
    {
        proof {
            use_type_invariant(self);
        }
        self.entries[index]
    }

    /// Installs the handler for interrupt `index`.
    pub fn set_handler(&mut self, index: usize, handler: u64, selector: u16, attributes: u8, ist: u8)
        requires
            index < 256,
        ensures
            final(self)@.len() == 256,
            final(self)@ == old(self)@.update(index as int, final(self)@[index as int]),
            final(self)@[index as int].handler() == handler,
            final(self)@[index as int].selector == selector,
            final(self)@[index as int].attributes == attributes,
            final(self)@[index as int].ist == ist,
            final(self)@[index as int].zero == 0,
    {
        proof {
            use_type_invariant(&*self);
        }
        let entry = IdtEntry::new(handler, selector, attributes, ist);
        let mut entries: Vec<IdtEntry> = Vec::new();
        let mut i: usize = 0;
        while i < 256
            invariant
                i <= 256,
                self.entries@.len() == 256,
                index < 256,
                entries@.len() == i,
                forall|k: int| 0 <= k < i ==> #[trigger] entries@[k] == if k == index { entry } else { self.entries@[k] },
            decreases 256 - i,
        {
            entries.push(if i == index { entry } else { self.entries[i] });
            i += 1;
        }
        assert(entries@ =~= old(self)@.update(index as int, entry));
        *self = Idt { entries };
    }
}

impl IdtEntry {
    /// The entry with every field zero.
    pub open spec fn missing_spec() -> Self {
        IdtEntry {
            offset_low: 0,
            selector: 0,
            ist: 0,
            attributes: 0,
            offset_middle: 0,
            offset_high: 0,
            zero: 0,
        }
    }
}

/// The handler that the switching code installs for interrupt `i`: its own handlers for divide
/// errors, debug exceptions, invalid opcodes and page faults, and for every other vector the
/// copy of the generic handler at `generic_base + i * generic_size`.
pub open spec fn switch_handler(
    i: int,
    generic_base: u64,
    generic_size: u64,
    divide_error: u64,
    debug: u64,
    invalid_opcode: u64,
    page_fault: u64,
) -> int {
    if i == 0 {
        divide_error as int
    } else if i == 1 {
        debug as int
    } else if i == 6 {
        invalid_opcode as int
    } else if i == 14 {
        page_fault as int
    } else {
        generic_base + i * generic_size
    }
}

/// The selector of the code segment that the handlers run in.
pub const HANDLER_SELECTOR: u16 = 8;

/// The attributes of the handlers' gates: present, privilege level 0.
pub const HANDLER_ATTRIBUTES: u8 = 0x8F;

impl Idt {
    /// Returns the table that the switching code installs in the executable's address space,
    /// each gate as [`switch_handler`] says, in code segment [`HANDLER_SELECTOR`] with
    /// [`HANDLER_ATTRIBUTES`].
    pub fn for_switch(
        generic_base: u64,
        generic_size: u64,
        divide_error: u64,
        debug: u64,
        invalid_opcode: u64,
        page_fault: u64,
    ) -> (idt: Self)
        requires
            generic_base + 255 * generic_size <= u64::MAX,
        ensures
            idt@.len() == 256,
            forall|i: int|
                0 <= i < 256 ==> {
                    &&& (#[trigger] idt@[i]).handler() == switch_handler(
                        i,
                        generic_base,
                        generic_size,
                        divide_error,
                        debug,
                        invalid_opcode,
                        page_fault,
                    )
                    &&& idt@[i].selector == HANDLER_SELECTOR
                    &&& idt@[i].attributes == HANDLER_ATTRIBUTES
                    &&& idt@[i].ist == 0
                    &&& idt@[i].zero == 0
                },
    {
        let mut entries: Vec<IdtEntry> = Vec::new();
        let mut i: u64 = 0;
        while i < 256
            invariant
                i <= 256,
                entries@.len() == i,
                generic_base + 255 * generic_size <= u64::MAX,
                forall|k: int|
                    0 <= k < i ==> {
                        &&& (#[trigger] entries@[k]).handler() == switch_handler(
                            k,
                            generic_base,
                            generic_size,
                            divide_error,
                            debug,
                            invalid_opcode,
                            page_fault,
                        )
                        &&& entries@[k].selector == HANDLER_SELECTOR
                        &&& entries@[k].attributes == HANDLER_ATTRIBUTES
                        &&& entries@[k].ist == 0
                        &&& entries@[k].zero == 0
                    },
            decreases 256 - i,
        {
            let handler = if i == 0 {
                divide_error
            } else if i == 1 {
                debug
            } else if i == 6 {
                invalid_opcode
            } else if i == 14 {
                page_fault
            } else {
                assert(i * generic_size <= 255 * generic_size) by (nonlinear_arith)
                    requires
                        i <= 255,
                ;
                generic_base + i * generic_size
            };
            entries.push(IdtEntry::new(handler, HANDLER_SELECTOR, HANDLER_ATTRIBUTES, 0));
            i += 1;
        }
        Idt { entries }
    }
}

} // verus!
