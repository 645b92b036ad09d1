//! A heap that hands out memory by bumping a pointer and never takes any
//! back.
use vstd::prelude::*;

verus! {

/// `align` is a power of two.
pub open spec fn is_pow2(align: u64) -> bool {
    align != 0 && align & (align - 1u64) as u64 == 0
}

/// `x` is a multiple of `align`, a power of two.
pub open spec fn is_aligned(x: u64, align: u64) -> bool {
    x & ((align - 1u64) as u64) == 0
}

/// `addr` with the bits below `align` cleared; an alignment of zero leaves
/// `addr` as it is.
pub open spec fn align_down_spec(addr: u64, align: u64) -> u64 {
    if align == 0 {
        addr
    } else {
        addr & !((align - 1u64) as u64)
    }
}

/// Rounds `addr` down to a multiple of `align`, a power of two; an
/// alignment of zero leaves `addr` as it is.
pub fn align_down(addr: u64, align: u64) -> (r: u64)
    requires
        is_pow2(align) || align == 0,
    ensures
        r == align_down_spec(addr, align),
        is_pow2(align) ==> r <= addr && addr - r < align && is_aligned(r, align),
{
    if align != 0 && align & (align - 1) == 0 {
        let r = addr & !(align - 1);
        assert(r <= addr && addr - r < align && r & ((align - 1u64) as u64) == 0) by (bit_vector)
            requires
                align != 0,
                align & ((align - 1u64) as u64) == 0,
                r == addr & !((align - 1u64) as u64),
        ;
        r
    } else {
        addr
    }
}

/// Rounds `addr` up to a multiple of `align`.
pub fn align_up(addr: u64, align: u64) -> (r: u64)
    requires
        is_pow2(align),
        addr + align - 1 <= u64::MAX,
    ensures
        r == align_down_spec((addr + align - 1) as u64, align),
        addr <= r && r - addr < align && is_aligned(r, align),
{
    align_down(addr + (align - 1), align)
}

/// A heap over `[start, end)`; `next` is where the next block goes.
pub struct Heap {
    pub start: u64,
    pub end: u64,
    pub next: u64,
}

impl Heap {
    pub open spec fn wf(&self) -> bool {
        self.start <= self.next <= self.end
    }

    /// A heap with no memory: every allocation fails until `init`.
    pub fn empty() -> (r: Heap)
        ensures
            r.wf(),
            r.start == 0 && r.end == 0 && r.next == 0,
    {
        Heap { start: 0, end: 0, next: 0 }
    }

    /// Hands the heap the `size` bytes from `start`.
    pub fn init(&mut self, start: u64, size: u64)
        requires
            start + size <= u64::MAX,
        ensures
            final(self).wf(),
            final(self).start == start,
            final(self).end == start + size,
            final(self).next == start,
    {
        self.start = start;
        self.end = start + size;
        self.next = start;
    }

    /// A block of `size` bytes aligned to `align`, just past the last
    /// block, or `None` when it would not fit before the end.
    pub fn allocate(&mut self, size: u64, align: u64) -> (r: Option<u64>)
        requires
            old(self).wf(),
            is_pow2(align),
        ensures
            final(self).wf(),
            final(self).start == old(self).start,
            final(self).end == old(self).end,
            ({
                let fits = old(self).next + align - 1 <= u64::MAX && align_down_spec(
                    (old(self).next + align - 1) as u64,
                    align,
                ) + size <= old(self).end;
                let a = align_down_spec((old(self).next + align - 1) as u64, align);
                &&& fits ==> r == Some(a) && final(self).next == a + size
                &&& !fits ==> r.is_none() && final(self).next == old(self).next
                &&& fits ==> old(self).next <= a && a - old(self).next < align && is_aligned(a, align)
            }),
    {
        if self.next > u64::MAX - (align - 1) {
            return None;
        }
        let alloc_start = align_up(self.next, align);
        if size <= u64::MAX - alloc_start && alloc_start + size <= self.end {
            self.next = alloc_start + size;
            Some(alloc_start)
        } else {
            None
        }
    }
}

} // verus!
