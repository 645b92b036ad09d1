//! Table entries and the physical memory that holds the page tables.
use vstd::prelude::*;
use std::collections::HashMap;
use crate::address::{Frame, MAX_FRAMES, ENTRY_COUNT};

verus! {

broadcast use vstd::std_specs::hash::group_hash_axioms;

pub const PRESENT: u64 = 1;
pub const WRITABLE: u64 = 2;
pub const USER_ACCESSIBLE: u64 = 4;
pub const WRITE_THROUGH: u64 = 8;
pub const NO_CACHE: u64 = 16;
pub const ACCESSED: u64 = 32;
pub const DIRTY: u64 = 64;
pub const HUGE_PAGE: u64 = 128;
pub const GLOBAL: u64 = 256;
pub const NO_EXECUTE: u64 = 0x8000_0000_0000_0000;

/// One slot of a table: a frame and its flag bits. An unused entry is all
/// zero.
#[derive(Debug, Clone, Copy, PartialEq, Eq, Structural)]
pub struct Entry {
    pub frame: u64,
    pub flags: u64,
}

pub open spec fn has_flag(flags: u64, bit: u64) -> bool {
    flags & bit == bit
}

impl Entry {
    pub open spec fn present(self) -> bool {
        has_flag(self.flags, PRESENT)
    }

    pub open spec fn huge(self) -> bool {
        has_flag(self.flags, HUGE_PAGE)
    }

    /// The entry leads to a table of the next level.
    pub open spec fn leads_on(self) -> bool {
        self.present() && !self.huge()
    }

    pub open spec fn zero() -> Entry {
        Entry { frame: 0, flags: 0 }
    }

    pub fn unused() -> (r: Entry)
        ensures
            r == Entry::zero(),
    {
        Entry { frame: 0, flags: 0 }
    }

    pub fn is_unused(&self) -> (r: bool)
        ensures
            r == (*self == Entry::zero()),
    {
        self.frame == 0 && self.flags == 0
    }

    pub fn is_present(&self) -> (r: bool)
        ensures
            r == self.present(),
    {
        self.flags & PRESENT == PRESENT
    }

    pub fn is_huge(&self) -> (r: bool)
        ensures
            r == self.huge(),
    {
        self.flags & HUGE_PAGE == HUGE_PAGE
    }

    /// The frame of a present entry.
    pub fn pointed_frame(&self) -> (r: Option<Frame>)
        ensures
            r == (if self.present() {
                Some(Frame { number: self.frame })
            } else {
                None
            }),
    {
        if self.is_present() {
            Some(Frame { number: self.frame })
        } else {
            None
        }
    }
}

/// Adding PRESENT makes an entry present.
pub proof fn lemma_with_present(flags: u64)
    ensures
        has_flag(flags | PRESENT, PRESENT),
{
    assert((flags | 1u64) & 1u64 == 1u64) by (bit_vector);
}

/// The flags of an intermediate table entry.
pub proof fn lemma_table_flags()
    ensures
        has_flag(PRESENT | WRITABLE, PRESENT),
        !has_flag(PRESENT | WRITABLE, HUGE_PAGE),
{
    assert((1u64 | 2u64) & 1u64 == 1u64) by (bit_vector);
    assert((1u64 | 2u64) & 128u64 != 128u64) by (bit_vector);
}

/// An unused entry is not present and maps no huge page.
pub proof fn lemma_zero_entry()
    ensures
        !Entry::zero().present(),
        !Entry::zero().huge(),
{
    assert(0u64 & 1u64 != 1u64) by (bit_vector);
    assert(0u64 & 128u64 != 128u64) by (bit_vector);
}

pub open spec fn key(frame: u64, index: u64) -> u64 {
    (frame * 512 + index) as u64
}

pub proof fn lemma_key_injective(f: u64, i: u64, g: u64, j: u64)
    requires
        f < MAX_FRAMES,
        g < MAX_FRAMES,
        i < 512,
        j < 512,
    ensures
        key(f, i) == key(g, j) <==> f == g && i == j,
        key(f, i) == f * 512 + i,
{
    assert(f * 512 + i < 0x1_0000_0000_0000_0000) by (nonlinear_arith)
        requires f < MAX_FRAMES, i < 512;
    assert(g * 512 + j < 0x1_0000_0000_0000_0000) by (nonlinear_arith)
        requires g < MAX_FRAMES, j < 512;
    if f * 512 + i == g * 512 + j {
        assert(f == g && i == j) by (nonlinear_arith)
            requires f * 512 + i == g * 512 + j, i < 512, j < 512, f >= 0, g >= 0;
    }
}

/// The machine's physical memory, as far as it holds page tables: entry
/// `index` of the table in frame `frame`. A slot never written reads as an
/// unused entry.
pub struct PhysicalMemory {
    entries: HashMap<u64, Entry>,
}

impl PhysicalMemory {
    pub closed spec fn raw(&self) -> Map<u64, Entry> {
        self.entries@
    }

    pub open spec fn entry(&self, frame: u64, index: u64) -> Entry {
        if self.raw().contains_key(key(frame, index)) {
            self.raw()[key(frame, index)]
        } else {
            Entry::zero()
        }
    }

    /// Every stored entry names a frame of the machine.
    pub open spec fn wf(&self) -> bool {
        forall|k: u64| #[trigger] self.raw().contains_key(k) ==> self.raw()[k].frame < MAX_FRAMES
    }

    /// Memory in which every table slot is unused.
    pub fn new() -> (r: PhysicalMemory)
        ensures
            r.wf(),
            forall|f: u64, i: u64| #[trigger] r.entry(f, i) == Entry::zero(),
    {
        PhysicalMemory { entries: HashMap::new() }
    }

    pub fn read(&self, frame: u64, index: u64) -> (r: Entry)
        requires
            self.wf(),
            frame < MAX_FRAMES,
            index < 512,
        ensures
            r == self.entry(frame, index),
            r.frame < MAX_FRAMES,
    {
        proof {
            lemma_key_injective(frame, index, frame, index);
        }
        match self.entries.get(&(frame * 512 + index)) {
            Some(e) => *e,
            None => Entry { frame: 0, flags: 0 },
        }
    }

    pub fn write(&mut self, frame: u64, index: u64, e: Entry)
        requires
            old(self).wf(),
            frame < MAX_FRAMES,
            index < 512,
            e.frame < MAX_FRAMES,
        ensures
            final(self).wf(),
            final(self).entry(frame, index) == e,
            forall|f: u64, i: u64|
                f < MAX_FRAMES && i < 512 && !(f == frame && i == index) ==> #[trigger] final(self).entry(f, i) == old(self).entry(f, i),
    {
        proof {
            lemma_key_injective(frame, index, frame, index);
        }
        self.entries.insert(frame * 512 + index, e);
        proof {
            assert forall|f: u64, i: u64|
                f < MAX_FRAMES && i < 512 && !(f == frame && i == index) implies #[trigger] final(self).entry(f, i) == old(self).entry(f, i) by {
                lemma_key_injective(frame, index, f, i);
            }
            assert forall|k: u64| #[trigger] final(self).raw().contains_key(k) implies final(
                self).raw()[k].frame < MAX_FRAMES by {
                if k != key(frame, index) {
                    assert(old(self).raw().contains_key(k));
                }
            }
        }
    }

    /// Sets every entry of the table in `frame` to unused.
    pub fn zero(&mut self, frame: u64)
        requires
            old(self).wf(),
            frame < MAX_FRAMES,
        ensures
            final(self).wf(),
            forall|i: u64| i < 512 ==> #[trigger] final(self).entry(frame, i) == Entry::zero(),
            forall|f: u64, i: u64|
                f < MAX_FRAMES && i < 512 && f != frame ==> #[trigger] final(self).entry(f, i)
                    == old(self).entry(f, i),
    {
        let mut index: u64 = 0;
        while index < ENTRY_COUNT as u64
            invariant
                self.wf(),
                frame < MAX_FRAMES,
                index <= 512,
                forall|i: u64| i < index ==> #[trigger] self.entry(frame, i) == Entry::zero(),
                forall|f: u64, i: u64|
                    f < MAX_FRAMES && i < 512 && f != frame ==> #[trigger] self.entry(f, i)
                        == old(self).entry(f, i),
            decreases 512 - index,
        {
            self.write(frame, index, Entry { frame: 0, flags: 0 });
            index = index + 1;
        }
    }
}

} // verus!
