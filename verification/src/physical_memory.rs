//! A model of physical memory as the page table code sees it, and a frame allocator for
//! page tables.
use vstd::prelude::*;

verus! {

/// The size, in bytes, of a page table frame.
pub const TABLE_SIZE: u64 = 4096;

/// Physical memory made of 32-bit words; the word with index `i` lives at byte address `4 * i`.
///
/// Reads outside the backing words return zero, and writes there are dropped.
pub struct PhysicalMemory32 {
    /// The backing words.
    pub words: Vec<u32>,
}

impl PhysicalMemory32 {
    /// The word with index `index`.
    pub open spec fn word(&self, index: int) -> u32 {
        if 0 <= index < self.words@.len() {
            self.words@[index]
        } else {
            0
        }
    }

    /// The number of bytes that the memory holds.
    pub open spec fn byte_len(&self) -> int {
        4 * self.words@.len() as int
    }

    /// Creates a zeroed memory of `word_count` words.
    pub fn zeroed(word_count: usize) -> (memory: Self)
        ensures
            memory.words@.len() == word_count,
            forall|i: int| 0 <= i < word_count ==> memory.words@[i] == 0,
    {
        let mut words: Vec<u32> = Vec::new();
        while words.len() < word_count
            invariant
                words.len() <= word_count,
                forall|i: int| 0 <= i < words.len() ==> words@[i] == 0,
            decreases word_count - words.len(),
        {
            words.push(0);
        }
        PhysicalMemory32 { words }
    }

    /// Reads the 32-bit word at `address`.
    pub fn read_u32(&self, address: u64) -> (value: u32)
        ensures
            value == self.word((address / 4) as int),
    {
        let index = address / 4;
        if index < self.words.len() as u64 {
            self.words[index as usize]
        } else {
            0
        }
    }

    /// Writes `value` to the 32-bit word at `address`.
    pub fn write_u32(&mut self, address: u64, value: u32)
        ensures
            final(self).words@ == if address / 4 < old(self).words@.len() {
                old(self).words@.update((address / 4) as int, value)
            } else {
                old(self).words@
            },
    {
        let index = address / 4;
        if index < self.words.len() as u64 {
            self.words.set(index as usize, value);
        }
    }
}

/// Hands out 4 KiB frames for page tables from the region `[next, end)`, lowest first.
pub struct FrameAllocator {
    /// The address of the next frame to hand out.
    pub next: u64,
    /// The end of the region.
    pub end: u64,
}

impl FrameAllocator {
    /// The allocator hands out aligned frames.
    pub open spec fn wf(&self) -> bool {
        &&& self.next % 4096 == 0
        &&& self.next <= self.end
    }

    /// Creates an allocator over `[start, end)`, with `start` rounded up to a frame boundary.
    pub fn new(start: u64, end: u64) -> (allocator: Option<Self>)
        ensures
            allocator is Some <==> start as int + (4096 - start % 4096) % 4096 <= end,
            allocator matches Some(a) ==> a.wf() && a.end == end && a.next == start + (4096
                - start % 4096) % 4096,
    {
        let padding = (4096 - start % 4096) % 4096;
        if start > end || end - start < padding {
            None
        } else {
            Some(FrameAllocator { next: start + padding, end })
        }
    }

    /// Returns `true` if another frame can be handed out.
    pub open spec fn can_allocate(&self) -> bool {
        self.next + 4096 <= self.end
    }

    /// `count` consecutive frames can be handed out, all at or below `inclusive_max`.
    pub open spec fn can_allocate_frames(&self, count: u64, inclusive_max: u64) -> bool {
        &&& self.next + count * 4096 <= self.end
        &&& count > 0 ==> self.next + count * 4096 - 1 <= inclusive_max
    }

    /// Hands out `count` consecutive frames that lie at or below `inclusive_max`, returning the
    /// address of the first.
    pub fn allocate_frames(&mut self, count: u64, inclusive_max: u64) -> (base: Option<u64>)
        requires
            old(self).wf(),
        ensures
            final(self).wf(),
            final(self).end == old(self).end,
            base is Some <==> old(self).can_allocate_frames(count, inclusive_max),
            base matches Some(b) ==> b == old(self).next && final(self).next == old(self).next + count * 4096,
            base is None ==> *final(self) == *old(self),
    {
        if self.next > self.end {
            return None;
        }
        let available = (self.end - self.next) / 4096;
        if count > available {
            return None;
        }
        let size = count * 4096;
        if count > 0 && self.next + size - 1 > inclusive_max {
            return None;
        }
        let base = self.next;
        self.next = base + size;
        Some(base)
    }
}


/// The byte at `address` of the memory whose bytes are `bytes`; zero outside them.
pub open spec fn memory_byte(bytes: Seq<u8>, address: u64) -> u8 {
    if address < bytes.len() {
        bytes[address as int]
    } else {
        0
    }
}

/// The bytes `bytes` after `value` is written at `address`; a write outside them is dropped.
pub open spec fn memory_written(bytes: Seq<u8>, address: u64, value: u8) -> Seq<u8> {
    if address < bytes.len() {
        bytes.update(address as int, value)
    } else {
        bytes
    }
}

/// Physical memory addressed by bytes; the byte with index `i` lives at address `i`.
///
/// Reads outside the backing bytes return zero, and writes there are dropped.
pub struct PhysicalBytes {
    /// The backing bytes.
    pub bytes: Vec<u8>,
}

impl PhysicalBytes {
    /// Creates a zeroed memory of `len` bytes.
    pub fn zeroed(len: usize) -> (memory: Self)
        ensures
            memory.bytes@ == Seq::new(len as nat, |i: int| 0u8),
    {
        let mut bytes: Vec<u8> = Vec::new();
        while bytes.len() < len
            invariant
                bytes.len() <= len,
                forall|i: int| 0 <= i < bytes.len() ==> bytes@[i] == 0,
            decreases len - bytes.len(),
        {
            bytes.push(0);
        }
        assert(bytes@ =~= Seq::new(len as nat, |i: int| 0u8));
        PhysicalBytes { bytes }
    }

    /// Reads the byte at `address`.
    pub fn read_u8(&self, address: u64) -> (value: u8)
        ensures
            value == memory_byte(self.bytes@, address),
    {
        if address < self.bytes.len() as u64 {
            self.bytes[address as usize]
        } else {
            0
        }
    }

    /// Writes `value` to the byte at `address`.
    pub fn write_u8(&mut self, address: u64, value: u8)
        ensures
            final(self).bytes@ == memory_written(old(self).bytes@, address, value),
    {
        if address < self.bytes.len() as u64 {
            self.bytes.set(address as usize, value);
        }
    }
}


/// Physical memory made of 64-bit words; the word with index `i` lives at byte address `8 * i`.
///
/// Reads outside the backing words return zero, and writes there are dropped.
#[derive(Debug)]
pub struct PhysicalMemory64 {
    /// The backing words.
    pub words: Vec<u64>,
}

impl PhysicalMemory64 {
    /// The word with index `index`.
    pub open spec fn word(&self, index: int) -> u64 {
        if 0 <= index < self.words@.len() {
            self.words@[index]
        } else {
            0
        }
    }

    /// The number of bytes that the memory holds.
    pub open spec fn byte_len(&self) -> int {
        8 * self.words@.len() as int
    }

    /// Creates a zeroed memory of `word_count` words.
    pub fn zeroed(word_count: usize) -> (memory: Self)
        ensures
            memory.words@.len() == word_count,
            forall|i: int| 0 <= i < word_count ==> memory.words@[i] == 0,
    {
        let mut words: Vec<u64> = Vec::new();
        while words.len() < word_count
            invariant
                words.len() <= word_count,
                forall|i: int| 0 <= i < words.len() ==> words@[i] == 0,
            decreases word_count - words.len(),
        {
            words.push(0);
        }
        PhysicalMemory64 { words }
    }

    /// Reads the 64-bit word at `address`.
    pub fn read_u64(&self, address: u64) -> (value: u64)
        ensures
            value == self.word((address / 8) as int),
    {
        let index = address / 8;
        if index < self.words.len() as u64 {
            self.words[index as usize]
        } else {
            0
        }
    }

    /// Writes `value` to the 64-bit word at `address`.
    pub fn write_u64(&mut self, address: u64, value: u64)
        ensures
            final(self).words@ == if address / 8 < old(self).words@.len() {
                old(self).words@.update((address / 8) as int, value)
            } else {
                old(self).words@
            },
    {
        let index = address / 8;
        if index < self.words.len() as u64 {
            self.words.set(index as usize, value);
        }
    }
}

} // verus!
