//! Physical frames and virtual pages, and the split of a page number into
//! the four table indices.
use vstd::prelude::*;

verus! {

/// Size of a frame and of a page, in bytes.
pub const PAGE_SIZE: u64 = 4096;

/// Number of entries in one table.
pub const ENTRY_COUNT: usize = 512;

/// Frames are numbered below this bound: physical addresses have 52 bits.
pub const MAX_FRAMES: u64 = 0x100_0000_0000;

pub type PhysicalAddress = u64;

pub type VirtualAddress = u64;

/// Lowest address of the upper canonical half.
pub const UPPER_HALF_START: u64 = 0xffff_8000_0000_0000;

/// First address past the lower canonical half.
pub const LOWER_HALF_END: u64 = 0x0000_8000_0000_0000;

/// Bits above bit 47 repeat bit 47.
pub open spec fn is_canonical(address: u64) -> bool {
    address < LOWER_HALF_END || address >= UPPER_HALF_START
}

/// One 4 KiB frame of physical memory.
#[derive(Debug, Clone, Copy, PartialEq, Eq, Structural)]
pub struct Frame {
    pub number: u64,
}

impl Frame {
    pub open spec fn wf(self) -> bool {
        self.number < MAX_FRAMES
    }

    pub open spec fn start_spec(self) -> int {
        self.number * PAGE_SIZE
    }

    /// The frame that holds `address`.
    pub fn containing_address(address: PhysicalAddress) -> (r: Frame)
        requires
            address < MAX_FRAMES * PAGE_SIZE,
        ensures
            r.number == address / PAGE_SIZE,
            r.wf(),
    {
        Frame { number: address / PAGE_SIZE }
    }

    pub fn start_address(&self) -> (r: PhysicalAddress)
        requires
            self.wf(),
        ensures
            r == self.start_spec(),
    {
        self.number * PAGE_SIZE
    }
}

/// One 4 KiB page of virtual memory.
#[derive(Debug, Clone, Copy, PartialEq, Eq, Structural)]
pub struct Page {
    pub number: u64,
}

impl Page {
    pub open spec fn p4_spec(self) -> u64 {
        (self.number >> 27u64) & 0o777u64
    }

    pub open spec fn p3_spec(self) -> u64 {
        (self.number >> 18u64) & 0o777u64
    }

    pub open spec fn p2_spec(self) -> u64 {
        (self.number >> 9u64) & 0o777u64
    }

    pub open spec fn p1_spec(self) -> u64 {
        self.number & 0o777u64
    }

    pub open spec fn start_spec(self) -> int {
        self.number * PAGE_SIZE
    }

    /// The page that holds `address`; the address must be canonical.
    pub fn containing_address(address: VirtualAddress) -> (r: Page)
        requires
            is_canonical(address),
        ensures
            r.number == address / PAGE_SIZE,
    {
        Page { number: address / PAGE_SIZE }
    }

    pub fn start_address(&self) -> (r: VirtualAddress)
        requires
            self.number < 0x10_0000_0000_0000,
        ensures
            r == self.start_spec(),
    {
        self.number * PAGE_SIZE
    }

    pub fn p4_index(&self) -> (r: u64)
        ensures
            r == self.p4_spec(),
            r < 512,
    {
        let n = self.number;
        assert((n >> 27u64) & 0o777u64 < 512) by (bit_vector);
        (n >> 27u64) & 0o777u64
    }

    pub fn p3_index(&self) -> (r: u64)
        ensures
            r == self.p3_spec(),
            r < 512,
    {
        let n = self.number;
        assert((n >> 18u64) & 0o777u64 < 512) by (bit_vector);
        (n >> 18u64) & 0o777u64
    }

    pub fn p2_index(&self) -> (r: u64)
        ensures
            r == self.p2_spec(),
            r < 512,
    {
        let n = self.number;
        assert((n >> 9u64) & 0o777u64 < 512) by (bit_vector);
        (n >> 9u64) & 0o777u64
    }

    pub fn p1_index(&self) -> (r: u64)
        ensures
            r == self.p1_spec(),
            r < 512,
    {
        let n = self.number;
        assert(n & 0o777u64 < 512) by (bit_vector);
        n & 0o777u64
    }

    /// The pages from `start` to `end`, both included.
    pub fn range_inclusive(start: Page, end: Page) -> (r: PageIter)
        ensures
            r.start == start,
            r.end == end,
    {
        PageIter { start: start, end: end }
    }
}

/// Each index selects one of 512 entries.
pub proof fn lemma_indices_bounded(p: Page)
    ensures
        p.p4_spec() < 512,
        p.p3_spec() < 512,
        p.p2_spec() < 512,
        p.p1_spec() < 512,
{
    let n = p.number;
    assert((n >> 27u64) & 0o777u64 < 512) by (bit_vector);
    assert((n >> 18u64) & 0o777u64 < 512) by (bit_vector);
    assert((n >> 9u64) & 0o777u64 < 512) by (bit_vector);
    assert(n & 0o777u64 < 512) by (bit_vector);
}

/// A page of the lower canonical half lies outside slot 511 of the P4.
pub proof fn lemma_lower_half_page(p: Page)
    requires
        p.number < 0x8_0000_0000,
    ensures
        p.p4_spec() < 256,
{
    let n = p.number;
    assert((n >> 27u64) & 0o777u64 < 256) by (bit_vector)
        requires
            n < 0x8_0000_0000u64,
    ;
}

/// Addresses that share a page number lie in one page.
pub proof fn lemma_same_page(a: u64, b: u64)
    requires
        a / PAGE_SIZE == b / PAGE_SIZE,
    ensures
        (Page { number: a / PAGE_SIZE }) == (Page { number: b / PAGE_SIZE }),
{
}

/// A page number is fixed by its four indices, as long as it lies in the
/// 36 bits that four levels of 512 entries can address.
pub proof fn lemma_index_round_trip(p: Page)
    requires
        p.number < 0x10_0000_0000,
    ensures
        (p.p4_spec() << 27u64) | (p.p3_spec() << 18u64) | (p.p2_spec() << 9u64) | p.p1_spec()
            == p.number,
        p.p4_spec() * 0x800_0000 + p.p3_spec() * 0x4_0000 + p.p2_spec() * 0x200 + p.p1_spec()
            == p.number,
{
    let n = p.number;
    assert((((n >> 27u64) & 0o777u64) << 27u64) | (((n >> 18u64) & 0o777u64) << 18u64) | (((n
        >> 9u64) & 0o777u64) << 9u64) | (n & 0o777u64) == n) by (bit_vector)
        requires
            n < 0x10_0000_0000u64,
    ;
    assert(((n >> 27u64) & 0o777u64) * 0x800_0000u64 + ((n >> 18u64) & 0o777u64) * 0x4_0000u64
        + ((n >> 9u64) & 0o777u64) * 0x200u64 + (n & 0o777u64) == n) by (bit_vector)
        requires
            n < 0x10_0000_0000u64,
    ;
}

/// The pages of an inclusive range, handed out one by one; a copy starts
/// over from where the original stood.
#[derive(Debug, Clone, Copy)]
pub struct PageIter {
    pub start: Page,
    pub end: Page,
}

impl PageIter {
    /// The pages still to come, in order.
    pub open spec fn remaining(self) -> Seq<Page> {
        Seq::new(
            if self.start.number <= self.end.number {
                (self.end.number - self.start.number + 1) as nat
            } else {
                0
            },
            |i: int| Page { number: (self.start.number + i) as u64 },
        )
    }

    /// The next page of the range, or `None` once it is used up.
    pub fn next(&mut self) -> (r: Option<Page>)
        requires
            old(self).end.number < u64::MAX,
        ensures
            old(self).remaining().len() == 0 ==> r.is_none() && *final(self) == *old(self),
            old(self).remaining().len() > 0 ==> r == Some(old(self).remaining()[0])
                && final(self).remaining() == old(self).remaining().drop_first()
                && final(self).start.number == old(self).start.number + 1
                && final(self).end == old(self).end,
    {
        if self.start.number <= self.end.number {
            let page = self.start;
            self.start.number = self.start.number + 1;
            proof {
                assert(final(self).remaining() =~= old(self).remaining().drop_first());
            }
            Some(page)
        } else {
            None
        }
    }
}

} // verus!
