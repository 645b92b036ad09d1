//! Stacks carved out of a range of pages, each below an unmapped guard
//! page, and the facade that owns the kernel's memory for good.
use vstd::prelude::*;
use crate::address::{Page, PageIter, PAGE_SIZE, lemma_lower_half_page};
use crate::allocator::{FrameAllocator, FramePool};
use crate::memory::WRITABLE;
use crate::paging::ActivePageTable;
use crate::remap::{remap_the_kernel, BootInformation, RemapError, TEMPORARY_PAGE_NUMBER};
use crate::mapper::{MapError, Mapper};

verus! {

/// The heap starts at the second entry of the P4.
pub const HEAP_START: u64 = 0o_000_001_000_000_0000;

/// Size of the heap, in bytes.
pub const HEAP_SIZE: u64 = 100 * 1024;

/// Pages set aside for stacks, past the heap.
pub const STACK_AREA_PAGES: u64 = 100;

/// No heap page is a frame that the remap identity-maps, nor the page of
/// the P4 in `root`.
pub open spec fn heap_pages_unlisted(boot_info: &BootInformation, root: u64) -> bool {
    forall|k: u64| HEAP_START / PAGE_SIZE <= k <= (HEAP_START + HEAP_SIZE - 1) as u64 / PAGE_SIZE
        ==> !#[trigger] crate::remap::listed_frame(boot_info, k) && k != root
}

/// A stack: it grows down from `top` to `bottom`.
#[derive(Debug, Clone, Copy, PartialEq, Eq, Structural)]
pub struct Stack {
    top: u64,
    bottom: u64,
}

impl Stack {
    pub closed spec fn top_spec(&self) -> u64 {
        self.top
    }

    pub closed spec fn bottom_spec(&self) -> u64 {
        self.bottom
    }

    /// The address just above the stack.
    pub fn top(&self) -> (r: u64)
        ensures
            r == self.top_spec(),
    {
        self.top
    }

    /// The lowest address of the stack.
    pub fn bottom(&self) -> (r: u64)
        ensures
            r == self.bottom_spec(),
    {
        self.bottom
    }
}

/// Hands out stacks from a range of unused pages of the lower half.
pub struct StackAllocator {
    range: PageIter,
}

impl StackAllocator {
    /// The first page not handed out yet.
    pub closed spec fn next_page(&self) -> u64 {
        self.range.start.number
    }

    /// The last page of the range.
    pub closed spec fn last_page(&self) -> u64 {
        self.range.end.number
    }

    pub open spec fn wf(&self) -> bool {
        self.last_page() < 0x8_0000_0000
    }

    pub fn new(page_range: PageIter) -> (r: StackAllocator)
        requires
            page_range.end.number < 0x8_0000_0000,
        ensures
            r.wf(),
            r.next_page() == page_range.start.number,
            r.last_page() == page_range.end.number,
    {
        StackAllocator { range: page_range }
    }

    /// A stack of `size_in_pages` pages, each mapped writable to a frame of
    /// `frame_allocator`, below one guard page that stays unmapped. `None`
    /// when the size is zero, when the range has fewer than
    /// `size_in_pages + 1` pages left, or when a page cannot be mapped.
    pub fn alloc_stack<A: FrameAllocator>(
        &mut self,
        active_table: &mut ActivePageTable,
        frame_allocator: &mut A,
        size_in_pages: u64,
    ) -> (r: Option<Stack>)
        requires
            old(self).wf(),
            old(active_table).wf(),
            old(frame_allocator).wf(),
            old(active_table).mapper.apart_from(old(frame_allocator).free()),
        ensures
            final(self).wf(),
            final(active_table).wf(),
            final(frame_allocator).wf(),
            final(active_table).mapper.apart_from(final(frame_allocator).free()),
            old(active_table).mapper.grows_to(&final(active_table).mapper, old(frame_allocator).free()),
            final(self).last_page() == old(self).last_page(),
            size_in_pages == 0 || old(self).next_page() + size_in_pages > old(self).last_page() ==> r.is_none()
                && *final(self) == *old(self) && final(active_table).mapper == old(active_table).mapper,
            r matches Some(stack) ==> {
                let start = old(self).next_page() + 1;
                let end = old(self).next_page() + size_in_pages;
                &&& end <= old(self).last_page()
                &&& stack.bottom_spec() == start * PAGE_SIZE
                &&& stack.top_spec() == (end + 1) * PAGE_SIZE
                &&& final(self).next_page() == end + 1
                &&& forall|k: u64| start <= k <= end ==> #[trigger] final(active_table).mapper.translate_page_spec(Page { number: k }).is_some()
                &&& final(active_table).mapper.translate_page_spec(Page { number: old(self).next_page() })
                    == old(active_table).mapper.translate_page_spec(Page { number: old(self).next_page() })
            },
            r is None ==> size_in_pages == 0 || old(self).next_page() + size_in_pages > old(self).last_page()
                || final(frame_allocator).free().len() < 4
                || exists|k: u64| old(self).next_page() < k <= old(self).next_page() + size_in_pages
                    && !#[trigger] old(active_table).mapper.clean(Page { number: k }),
    {
        if size_in_pages == 0 || self.range.start.number > self.range.end.number
            || size_in_pages > self.range.end.number - self.range.start.number {
            return None;
        }
        let start = self.range.start.number + 1;
        let end = self.range.start.number + size_in_pages;
        self.range = PageIter { start: Page { number: end + 1 }, end: self.range.end };
        let ghost m0 = active_table.mapper;
        let ghost free0 = frame_allocator.free();
        proof {
            assert(m0.grows_to(&m0, free0));
        }
        let mut k: u64 = start;
        while k <= end
            invariant
                start <= k <= end + 1,
                end < 0x8_0000_0000,
                self.wf(),
                self.last_page() == old(self).last_page(),
                self.next_page() == end + 1,
                start == old(self).next_page() + 1,
                end == old(self).next_page() + size_in_pages,
                end <= old(self).last_page(),
                m0 == old(active_table).mapper,
                free0 == old(frame_allocator).free(),
                active_table.mapper.translate_page_spec(Page { number: old(self).next_page() })
                    == m0.translate_page_spec(Page { number: old(self).next_page() }),
                (forall|j: u64| start <= j <= end ==> #[trigger] m0.clean(Page { number: j }))
                    ==> forall|j: u64| k <= j <= end ==> #[trigger] active_table.mapper.clean(Page { number: j }),
                active_table.wf(),
                frame_allocator.wf(),
                active_table.mapper.apart_from(frame_allocator.free()),
                m0.grows_to(&active_table.mapper, free0),
                frame_allocator.free().subset_of(free0),
                m0.wf(),
                forall|j: u64| start <= j < k ==> #[trigger] active_table.mapper.translate_page_spec(Page { number: j }).is_some(),
            decreases end + 1 - k,
        {
            let ghost before = active_table.mapper;
            let ghost before_free = frame_allocator.free();
            proof {
                lemma_lower_half_page(Page { number: k });
                frame_allocator.lemma_free_frames_valid();
            }
            let r = active_table.mapper.map(Page { number: k }, WRITABLE, frame_allocator);
            proof {
                m0.lemma_grows_trans(&before, &active_table.mapper, free0, before_free);
                frame_allocator.lemma_free_frames_valid();
                vstd::set_lib::lemma_len_subset(frame_allocator.free(), before_free);
            }
            if r.is_err() {
                proof {
                    if forall|j: u64| start <= j <= end ==> #[trigger] m0.clean(Page { number: j }) {
                        assert(before.clean(Page { number: k }));
                        match r {
                            Err(e) => {
                                assert(e == MapError::HugePage || e == MapError::AlreadyMapped || e == MapError::OutOfFrames);
                                assert(e == MapError::OutOfFrames);
                            },
                            Ok(_) => {},
                        }
                        assert(before_free.len() < 4);
                        assert(frame_allocator.free().len() < 4);
                    } else {
                        let j = choose|j: u64| !(start <= j <= end ==> #[trigger] m0.clean(Page { number: j }));
                        assert(!m0.clean(Page { number: j }));
                    }
                }
                return None;
            }
            proof {
                let g = old(self).next_page();
                lemma_lower_half_page(Page { number: g });
                if Mapper::same_indices(Page { number: k }, Page { number: g }) {
                    crate::address::lemma_index_round_trip(Page { number: k });
                    crate::address::lemma_index_round_trip(Page { number: g });
                }
                assert(active_table.mapper.translate_page_spec(Page { number: g }) == before.translate_page_spec(Page { number: g }));
                if forall|j: u64| start <= j <= end ==> #[trigger] m0.clean(Page { number: j }) {
                    assert forall|j: u64| k + 1 <= j <= end implies #[trigger] active_table.mapper.clean(Page { number: j }) by {
                        assert(before.clean(Page { number: j }));
                        lemma_lower_half_page(Page { number: j });
                        if Mapper::same_indices(Page { number: k }, Page { number: j }) {
                            crate::address::lemma_index_round_trip(Page { number: k });
                            crate::address::lemma_index_round_trip(Page { number: j });
                        }
                        before.lemma_maps_only_keeps_clean(&active_table.mapper, before_free, Page { number: k }, Page { number: j });
                    }
                }
            }
            proof {
                assert forall|j: u64| start <= j < k + 1 implies #[trigger] active_table.mapper.translate_page_spec(Page { number: j }).is_some() by {
                    if j < k {
                        before.lemma_grows_keeps_translation(&active_table.mapper, before_free, Page { number: j });
                    }
                }
            }
            k = k + 1;
        }
        Some(Stack { top: (end + 1) * PAGE_SIZE, bottom: start * PAGE_SIZE })
    }
}

/// Why the memory subsystem could not be set up.
#[derive(Debug, Clone, Copy, PartialEq, Eq, Structural)]
pub enum InitError {
    /// The kernel's address space could not be rebuilt.
    Remap(RemapError),
    /// A heap page could not be mapped.
    Heap(MapError),
}

/// The kernel's frame allocator, active table and stack allocator, owned
/// for the rest of the kernel's life.
pub struct MemoryController {
    pub active_table: ActivePageTable,
    pub frame_allocator: FramePool,
    pub stack_allocator: StackAllocator,
}

impl MemoryController {
    pub open spec fn wf(&self) -> bool {
        &&& self.active_table.wf()
        &&& self.frame_allocator.wf()
        &&& self.active_table.mapper.apart_from(self.frame_allocator.free())
        &&& self.stack_allocator.wf()
    }

    /// A stack of `size_in_pages` pages, as `StackAllocator::alloc_stack`
    /// gives it.
    pub fn alloc_stack(&mut self, size_in_pages: u64) -> (r: Option<Stack>)
        requires
            old(self).wf(),
        ensures
            final(self).wf(),
            size_in_pages == 0 || old(self).stack_allocator.next_page() + size_in_pages
                > old(self).stack_allocator.last_page() ==> r.is_none(),
            r matches Some(stack) ==> {
                let start = old(self).stack_allocator.next_page() + 1;
                let end = old(self).stack_allocator.next_page() + size_in_pages;
                &&& stack.bottom_spec() == start * PAGE_SIZE
                &&& stack.top_spec() == (end + 1) * PAGE_SIZE
                &&& forall|k: u64| start <= k <= end ==> #[trigger] final(self).active_table.mapper.translate_page_spec(Page { number: k }).is_some()
                &&& final(self).active_table.mapper.translate_page_spec(Page { number: old(self).stack_allocator.next_page() })
                    == old(self).active_table.mapper.translate_page_spec(Page { number: old(self).stack_allocator.next_page() })
            },
            r is None ==> size_in_pages == 0 || old(self).stack_allocator.next_page() + size_in_pages > old(self).stack_allocator.last_page()
                || final(self).frame_allocator.free().len() < 4
                || exists|k: u64| old(self).stack_allocator.next_page() < k <= old(self).stack_allocator.next_page() + size_in_pages
                    && !#[trigger] old(self).active_table.mapper.clean(Page { number: k }),
    {
        self.stack_allocator.alloc_stack(&mut self.active_table, &mut self.frame_allocator, size_in_pages)
    }

    /// Remaps the kernel, maps the heap pages writable, and keeps the
    /// pages past the heap for stacks.
    pub fn init(allocator: FramePool, boot_info: &BootInformation, active: ActivePageTable) -> (r: Result<MemoryController, InitError>)
        requires
            active.wf(),
            allocator.wf(),
            active.mapper.apart_from(allocator.free()),
            active.mapper.translate_page_spec(Page { number: TEMPORARY_PAGE_NUMBER }).is_none(),
            !active.mapper.path_blocked(Page { number: TEMPORARY_PAGE_NUMBER }),
            !active.mapper.slot_in_use(Page { number: TEMPORARY_PAGE_NUMBER }),
            active.mapper.root() < 0x8_0000_0000,
            boot_info.wf(),
        ensures
            r matches Ok(c) ==> {
                &&& c.wf()
                &&& forall|k: u64| HEAP_START / PAGE_SIZE <= k <= (HEAP_START + HEAP_SIZE - 1) as u64 / PAGE_SIZE
                    ==> #[trigger] c.active_table.mapper.translate_page_spec(Page { number: k }).is_some()
                &&& c.stack_allocator.next_page() == (HEAP_START + HEAP_SIZE - 1) as u64 / PAGE_SIZE + 1
                &&& c.stack_allocator.last_page() == (HEAP_START + HEAP_SIZE - 1) as u64 / PAGE_SIZE + 1 + STACK_AREA_PAGES
            },
            r == Err::<MemoryController, InitError>(InitError::Remap(RemapError::MisalignedSection))
                ==> crate::remap::has_misaligned_section(boot_info),
            crate::remap::has_misaligned_section(boot_info) ==> r is Err,
            r is Err && r->Err_0 is Heap && crate::remap::frames_listed_once(boot_info)
                && heap_pages_unlisted(boot_info, active.mapper.root())
                ==> r == Err::<MemoryController, InitError>(InitError::Heap(MapError::OutOfFrames)),
            (r == Err::<MemoryController, InitError>(InitError::Remap(RemapError::OutOfFrames)))
                == (!crate::remap::has_misaligned_section(boot_info) && allocator.free().len() <= 3),
    {
        let mut active_table = active;
        let mut frame_allocator = allocator;
        let ghost root0 = active_table.mapper.root();
        match remap_the_kernel(&mut frame_allocator, boot_info, &mut active_table) {
            Ok(()) => {},
            Err(e) => return Err(InitError::Remap(e)),
        }
        let heap_start_page = HEAP_START / PAGE_SIZE;
        let heap_end_page = (HEAP_START + HEAP_SIZE - 1) / PAGE_SIZE;
        let ghost m0 = active_table.mapper;
        let ghost free0 = frame_allocator.free();
        let ghost owed = crate::remap::frames_listed_once(boot_info) && heap_pages_unlisted(boot_info, root0);
        proof {
            assert(m0.grows_to(&m0, free0));
            if owed {
                assert forall|j: u64| heap_start_page <= j <= heap_end_page implies #[trigger] m0.clean(Page { number: j }) by {
                    assert(!crate::remap::listed_frame(boot_info, j));
                }
            }
        }
        let mut k: u64 = heap_start_page;
        while k <= heap_end_page
            invariant
                heap_start_page <= k <= heap_end_page + 1,
                allocator.free().len() > 3 || crate::remap::has_misaligned_section(boot_info),
                !crate::remap::has_misaligned_section(boot_info),
                heap_start_page == HEAP_START / PAGE_SIZE,
                heap_end_page == (HEAP_START + HEAP_SIZE - 1) as u64 / PAGE_SIZE,
                active_table.wf(),
                frame_allocator.wf(),
                active_table.mapper.apart_from(frame_allocator.free()),
                m0.grows_to(&active_table.mapper, free0),
                frame_allocator.free().subset_of(free0),
                m0.wf(),
                forall|j: u64| heap_start_page <= j < k ==> #[trigger] active_table.mapper.translate_page_spec(Page { number: j }).is_some(),
                owed == (crate::remap::frames_listed_once(boot_info) && heap_pages_unlisted(boot_info, root0)),
                owed ==> forall|j: u64| k <= j <= heap_end_page ==> #[trigger] active_table.mapper.clean(Page { number: j }),
                root0 == active.mapper.root(),
            decreases heap_end_page + 1 - k,
        {
            let ghost before = active_table.mapper;
            let ghost before_free = frame_allocator.free();
            proof {
                lemma_lower_half_page(Page { number: k });
            }
            let r = active_table.mapper.map(Page { number: k }, WRITABLE, &mut frame_allocator);
            proof {
                m0.lemma_grows_trans(&before, &active_table.mapper, free0, before_free);
            }
            match r {
                Ok(()) => {},
                Err(e) => {
                    proof {
                        if owed {
                            assert(before.clean(Page { number: k }));
                            assert(e == MapError::HugePage || e == MapError::AlreadyMapped || e == MapError::OutOfFrames);
                            assert(e == MapError::OutOfFrames);
                        }
                        assert(root0 == active.mapper.root());
                    }
                    return Err(InitError::Heap(e));
                },
            }
            proof {
                if owed {
                    assert forall|j: u64| k + 1 <= j <= heap_end_page implies #[trigger] active_table.mapper.clean(Page { number: j }) by {
                        assert(before.clean(Page { number: j }));
                        lemma_lower_half_page(Page { number: j });
                        if Mapper::same_indices(Page { number: k }, Page { number: j }) {
                            crate::address::lemma_index_round_trip(Page { number: k });
                            crate::address::lemma_index_round_trip(Page { number: j });
                        }
                        before.lemma_maps_only_keeps_clean(&active_table.mapper, before_free, Page { number: k }, Page { number: j });
                    }
                }
            }
            proof {
                assert forall|j: u64| heap_start_page <= j < k + 1 implies #[trigger] active_table.mapper.translate_page_spec(Page { number: j }).is_some() by {
                    if j < k {
                        before.lemma_grows_keeps_translation(&active_table.mapper, before_free, Page { number: j });
                    }
                }
            }
            k = k + 1;
        }
        let stack_start = heap_end_page + 1;
        let stack_end = stack_start + STACK_AREA_PAGES;
        let stack_allocator = StackAllocator::new(
            Page::range_inclusive(Page { number: stack_start }, Page { number: stack_end }),
        );
        Ok(MemoryController { active_table, frame_allocator, stack_allocator })
    }
}

} // verus!
