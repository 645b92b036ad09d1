//! The temporary page and the life cycle of page tables: the active one,
//! which the table-base register names, and inactive ones being built.
use vstd::prelude::*;
use crate::address::{Frame, Page, VirtualAddress, MAX_FRAMES};
use crate::allocator::{FrameAllocator, FramePool};
use crate::mapper::{Mapper, MapError, UnmapError};
use crate::memory::{Entry, PRESENT, WRITABLE};

verus! {

/// A page of virtual memory set aside to reach one frame at a time. It
/// keeps up to three frames of its own for the tables on its path.
pub struct TemporaryPage {
    page: Page,
    allocator: FramePool,
}

impl TemporaryPage {
    pub closed spec fn page_spec(&self) -> Page {
        self.page
    }

    /// The frames it keeps for tables.
    pub closed spec fn scratch(&self) -> Set<u64> {
        self.allocator.free()
    }

    pub closed spec fn wf(&self) -> bool {
        &&& self.allocator.wf()
        &&& self.page.p4_spec() != 511
        &&& self.page.number < 0x10_0000_0000_0000
    }

    /// A temporary page at `page`, with up to three frames of `allocator`.
    pub fn new<A: FrameAllocator>(page: Page, allocator: &mut A) -> (r: TemporaryPage)
        requires
            old(allocator).wf(),
            page.p4_spec() != 511,
            page.number < 0x10_0000_0000_0000,
        ensures
            r.wf(),
            r.page_spec() == page,
            final(allocator).wf(),
            r.scratch().subset_of(old(allocator).free()),
            final(allocator).free() == old(allocator).free().difference(r.scratch()),
            r.scratch().finite(),
            r.scratch().len() == if old(allocator).free().len() < 3 {
                old(allocator).free().len()
            } else {
                3
            },
    {
        proof {
            old(allocator).lemma_free_frames_valid();
        }
        let mut pool = FramePool::new();
        let mut k: u64 = 0;
        while k < 3
            invariant
                allocator.wf(),
                pool.wf(),
                pool.free().subset_of(old(allocator).free()),
                allocator.free() == old(allocator).free().difference(pool.free()),
                k <= 3,
                pool.free().finite(),
                allocator.free().finite(),
                old(allocator).free().finite(),
                pool.free().len() + allocator.free().len() == old(allocator).free().len(),
                pool.free().len() == k || (pool.free().len() < k && allocator.free().len() == 0),
            decreases 3 - k,
        {
            proof {
                allocator.lemma_free_frames_valid();
            }
            let ghost pool_before = pool.free();
            match allocator.allocate_frame() {
                Some(frame) => {
                    pool.deallocate_frame(frame);
                    assert(allocator.free() =~= old(allocator).free().difference(pool.free()));
                    assert(!pool_before.contains(frame.number));
                },
                None => {
                    assert(allocator.free().len() == 0);
                },
            }
            proof {
                allocator.lemma_free_frames_valid();
                pool.lemma_free_frames_valid();
            }
            k = k + 1;
        }
        TemporaryPage { page, allocator: pool }
    }

    /// The page, as it stands in the hierarchy of `active`.
    pub fn page(&self) -> (r: Page)
        ensures
            r == self.page_spec(),
    {
        self.page
    }

    /// Maps the temporary page to `frame` in the active hierarchy, writable,
    /// and returns its address.
    pub fn map(&mut self, frame: Frame, active: &mut ActivePageTable) -> (r: Result<
        VirtualAddress,
        MapError,
    >)
        requires
            old(self).wf(),
            old(active).wf(),
            old(active).mapper.apart_from(old(self).scratch()),
            old(active).mapper.translate_page_spec(old(self).page_spec()).is_none(),
            frame.wf(),
        ensures
            final(self).wf(),
            final(active).wf(),
            final(self).page_spec() == old(self).page_spec(),
            final(active).mapper.apart_from(final(self).scratch()),
            old(active).mapper.grows_to(&final(active).mapper, old(self).scratch()),
            final(self).scratch().subset_of(old(self).scratch()),
            r is Ok ==> final(active).mapper.translate_page_spec(old(self).page_spec()) == Some(
                frame.number,
            ),
            r is Ok ==> !final(active).mapper.maps_huge(old(self).page_spec()),
            r is Ok ==> old(active).mapper.maps_only(&final(active).mapper, old(self).page_spec()),
            r is Ok ==> forall|q: u64| (Page { number: q }).p4_spec() != 511 && !Mapper::same_indices(old(self).page_spec(), Page { number: q })
                ==> #[trigger] final(active).mapper.translate_page_spec(Page { number: q }) == old(active).mapper.translate_page_spec(Page { number: q }),
            r matches Ok(a) ==> a == old(self).page_spec().start_spec(),
            match old(active).mapper.mapping_error(old(self).page_spec(), old(self).scratch()) {
                Some(e) => r == Err::<VirtualAddress, MapError>(e),
                None => r is Ok,
            },
    {
        match active.mapper.map_to(self.page, frame, WRITABLE, &mut self.allocator) {
            Ok(()) => Ok(self.page.start_address()),
            Err(e) => {
                assert(e == MapError::HugePage || e == MapError::AlreadyMapped || e == MapError::OutOfFrames);
                Err(e)
            },
        }
    }

    /// Maps the temporary page to the table in `frame` and returns the
    /// frame whose table is now reachable.
    pub fn map_table_frame(&mut self, frame: Frame, active: &mut ActivePageTable) -> (r: Result<
        Frame,
        MapError,
    >)
        requires
            old(self).wf(),
            old(active).wf(),
            old(active).mapper.apart_from(old(self).scratch()),
            old(active).mapper.translate_page_spec(old(self).page_spec()).is_none(),
            frame.wf(),
        ensures
            final(self).wf(),
            final(active).wf(),
            final(self).page_spec() == old(self).page_spec(),
            final(active).mapper.apart_from(final(self).scratch()),
            old(active).mapper.grows_to(&final(active).mapper, old(self).scratch()),
            final(self).scratch().subset_of(old(self).scratch()),
            r matches Ok(f) ==> f == frame && final(active).mapper.translate_page_spec(
                old(self).page_spec(),
            ) == Some(frame.number) && !final(active).mapper.maps_huge(old(self).page_spec()),
            r is Ok ==> old(active).mapper.maps_only(&final(active).mapper, old(self).page_spec()),
            r is Ok ==> forall|q: u64| (Page { number: q }).p4_spec() != 511 && !Mapper::same_indices(old(self).page_spec(), Page { number: q })
                ==> #[trigger] final(active).mapper.translate_page_spec(Page { number: q }) == old(active).mapper.translate_page_spec(Page { number: q }),
            match old(active).mapper.mapping_error(old(self).page_spec(), old(self).scratch()) {
                Some(e) => r == Err::<Frame, MapError>(e),
                None => r is Ok,
            },
    {
        match self.map(frame, active) {
            Ok(_) => Ok(frame),
            Err(e) => Err(e),
        }
    }

    /// Removes the temporary mapping; the tables on its path stay.
    pub fn unmap(&mut self, active: &mut ActivePageTable)
        requires
            old(self).wf(),
            old(active).wf(),
        ensures
            *final(self) == *old(self),
            final(active).wf(),
            final(active).mapper.root() == old(active).mapper.root(),
            final(active).mapper.levels() == old(active).mapper.levels(),
            !old(active).mapper.maps_huge(old(self).page_spec()) ==> final(active).mapper.translate_page_spec(old(self).page_spec()).is_none(),
            !old(active).mapper.maps_huge(old(self).page_spec()) && old(active).mapper.translate_page_spec(old(self).page_spec()).is_some()
                ==> !final(active).mapper.maps_huge(old(self).page_spec()) && final(active).mapper.path_entry(old(self).page_spec(), 1) == Entry::zero(),
            final(active).mapper.target() == old(active).mapper.target(),
            final(active).mapper.parents() == old(active).mapper.parents(),
            final(active).mapper.translate_page_spec(old(self).page_spec()).is_none() || final(active).mapper.maps_huge(old(self).page_spec()),
            forall|g: u64, i: u64|
                g < MAX_FRAMES && i < 512 && !(g == old(active).mapper.path_entry(old(self).page_spec(), 2).frame
                    && i == old(self).page_spec().p1_spec()) ==> #[trigger] final(active).mapper.entry(g, i)
                    == old(active).mapper.entry(g, i),
            forall|q: u64| (Page { number: q }).p4_spec() != 511 && !Mapper::same_indices(old(self).page_spec(), Page { number: q })
                ==> #[trigger] final(active).mapper.translate_page_spec(Page { number: q }) == old(active).mapper.translate_page_spec(Page { number: q }),
            old(active).mapper.maps_huge(old(self).page_spec()) ==> final(active).mapper == old(active).mapper,
            forall|g: u64, i: u64|
                g < MAX_FRAMES && i < 512 && !(old(active).mapper.is_table(g) && old(
                    active,
                ).mapper.levels()[g] == 1 && old(active).mapper.rooted_at(g, old(active).mapper.target())) ==> #[trigger] final(active).mapper.entry(g, i) == old(
                    active,
                ).mapper.entry(g, i),
    {
        let r = active.mapper.unmap_entry(self.page);
        match r {
            Ok(_) => {},
            Err(e) => {
                assert(e == UnmapError::NotMapped || e == UnmapError::HugePage);
                assert(old(active).mapper.translate_page_spec(self.page).is_none()
                    || old(active).mapper.maps_huge(self.page));
            },
        }
    }
}

/// The hierarchy that the table-base register names.
pub struct ActivePageTable {
    pub mapper: Mapper,
}

/// A P4 in a frame of its own, self-mapped, that the table-base register
/// does not name.
pub struct InactivePageTable {
    p4_frame: Frame,
}

impl InactivePageTable {
    pub closed spec fn frame(&self) -> Frame {
        self.p4_frame
    }

    pub fn p4_frame(&self) -> (r: Frame)
        ensures
            r == self.frame(),
    {
        self.p4_frame
    }

    /// Makes the P4 of a new hierarchy in `frame`: maps it at the temporary
    /// page, zeroes it, points its slot 511 back to it, and unmaps the
    /// temporary page.
    pub fn new(frame: Frame, active_table: &mut ActivePageTable, temporary_page: &mut TemporaryPage) -> (r: Result<InactivePageTable, MapError>)
        requires
            old(active_table).wf(),
            old(temporary_page).wf(),
            old(active_table).mapper.apart_from(old(temporary_page).scratch()),
            old(active_table).mapper.translate_page_spec(old(temporary_page).page_spec()).is_none(),
            frame.wf(),
            !old(active_table).mapper.is_table(frame.number),
            !old(temporary_page).scratch().contains(frame.number),
        ensures
            final(active_table).wf(),
            final(temporary_page).wf(),
            final(temporary_page).page_spec() == old(temporary_page).page_spec(),
            final(temporary_page).scratch().subset_of(old(temporary_page).scratch()),
            final(active_table).mapper.apart_from(final(temporary_page).scratch()),
            final(active_table).mapper.root() == old(active_table).mapper.root(),
            r is Ok ==> final(active_table).mapper.translate_page_spec(old(temporary_page).page_spec()).is_none(),
            forall|f: u64| #[trigger] final(active_table).mapper.is_table(f) ==> old(active_table).mapper.is_table(f) || old(temporary_page).scratch().contains(f) || f == frame.number,
            forall|f: u64| #[trigger] old(active_table).mapper.is_table(f) ==> final(active_table).mapper.is_table(f),
            r matches Ok(t) ==> t.frame() == frame && final(active_table).mapper.is_inactive_p4(frame.number),
            match old(active_table).mapper.mapping_error(old(temporary_page).page_spec(), old(temporary_page).scratch()) {
                Some(e) => r == Err::<InactivePageTable, MapError>(e),
                None => r is Ok,
            },
            r is Ok ==> final(active_table).mapper.entry(frame.number, 511) == (Entry { frame: frame.number, flags: PRESENT | WRITABLE }),
            r is Ok ==> forall|i: u64| i < 511 ==> #[trigger] final(active_table).mapper.entry(frame.number, i) == Entry::zero(),
            r is Ok ==> forall|q: u64| (Page { number: q }).p4_spec() != 511
                ==> #[trigger] final(active_table).mapper.translate_page_spec(Page { number: q }) == old(active_table).mapper.translate_page_spec(Page { number: q }),
            r is Ok ==> final(active_table).mapper.path_entry(old(temporary_page).page_spec(), 1) == Entry::zero()
                && !final(active_table).mapper.maps_huge(old(temporary_page).page_spec()),
    {
        let table = match temporary_page.map_table_frame(frame, active_table) {
            Ok(table) => table,
            Err(e) => return Err(e),
        };
        let ghost before = active_table.mapper;
        active_table.mapper.format_p4(temporary_page.page(), table);
        proof {
            let m = active_table.mapper;
            let page = temporary_page.page_spec();
            crate::address::lemma_indices_bounded(page);
            let t = before.target();
            assert(before.is_table(t));
            assert(m.entry(t, page.p4_spec()) == before.entry(t, page.p4_spec()));
            assert(before.path_entry(page, 4).leads_on());
            assert(before.path_entry(page, 3).leads_on());
            assert(before.levels().contains_key(t));
            assert(before.entry(t, page.p4_spec()).leads_on());
            let f3 = before.path_entry(page, 4).frame;
            assert(before.is_table(f3));
            assert(m.entry(f3, page.p3_spec()) == before.entry(f3, page.p3_spec()));
            assert(before.levels().contains_key(f3));
            assert(before.entry(f3, page.p3_spec()).leads_on());
            let f2 = before.path_entry(page, 3).frame;
            assert(before.is_table(f2));
            assert(m.entry(f2, page.p2_spec()) == before.entry(f2, page.p2_spec()));
        }
        let ghost formatted = active_table.mapper;
        proof {
            let tp = temporary_page.page_spec();
            let r = before.target();
            assert forall|q: u64| (Page { number: q }).p4_spec() != 511
                implies #[trigger] formatted.translate_page_spec(Page { number: q }) == before.translate_page_spec(Page { number: q }) by {
                let pq = Page { number: q };
                crate::address::lemma_indices_bounded(pq);
                assert(before.levels().contains_key(r));
                assert(formatted.entry(r, pq.p4_spec()) == before.entry(r, pq.p4_spec()));
                let e4 = before.entry(r, pq.p4_spec());
                if e4.leads_on() {
                    let g3 = e4.frame;
                    assert(before.levels().contains_key(g3));
                    assert(formatted.entry(g3, pq.p3_spec()) == before.entry(g3, pq.p3_spec()));
                    let e3 = before.entry(g3, pq.p3_spec());
                    if e3.leads_on() {
                        let g2 = e3.frame;
                        assert(before.levels().contains_key(g2));
                        assert(formatted.entry(g2, pq.p2_spec()) == before.entry(g2, pq.p2_spec()));
                        let e2 = before.entry(g2, pq.p2_spec());
                        if e2.leads_on() {
                            assert(before.levels().contains_key(e2.frame));
                            assert(formatted.entry(e2.frame, pq.p1_spec()) == before.entry(e2.frame, pq.p1_spec()));
                        }
                    }
                }
            }
        }
        let ghost pre = *old(active_table);
        temporary_page.unmap(active_table);
        proof {
            let page = temporary_page.page_spec();
            assert forall|q: u64| (Page { number: q }).p4_spec() != 511
                implies #[trigger] active_table.mapper.translate_page_spec(Page { number: q }) == pre.mapper.translate_page_spec(Page { number: q }) by {
                let pq = Page { number: q };
                if Mapper::same_indices(page, pq) {
                    assert(active_table.mapper.translate_page_spec(pq) == active_table.mapper.translate_page_spec(page));
                    assert(pre.mapper.translate_page_spec(pq) == pre.mapper.translate_page_spec(page));
                } else {
                    assert(active_table.mapper.translate_page_spec(pq) == formatted.translate_page_spec(pq));
                    assert(formatted.translate_page_spec(pq) == before.translate_page_spec(pq));
                }
            }
            assert(formatted.is_table(frame.number) && formatted.levels()[frame.number] == 4);
            assert forall|i: u64| i < 512 implies #[trigger] active_table.mapper.entry(frame.number, i)
                == formatted.entry(frame.number, i) by {
            }
        }
        Ok(InactivePageTable { p4_frame: frame })
    }
}

impl ActivePageTable {
    /// The walker edits the active hierarchy itself.
    pub open spec fn wf(&self) -> bool {
        &&& self.mapper.wf()
        &&& self.mapper.target() == self.mapper.root()
    }

    /// The machine as the boot code leaves it: the table-base register
    /// names `root`, a P4 that maps nothing but itself through slot 511.
    pub fn new(root: Frame) -> (r: ActivePageTable)
        requires
            root.wf(),
        ensures
            r.wf(),
            r.mapper.root() == root.number,
            forall|f: u64| #[trigger] r.mapper.is_table(f) <==> f == root.number,
            forall|i: u64| i < 511 ==> #[trigger] r.mapper.entry(root.number, i) == Entry::zero(),
            forall|g: u64, i: u64|
                g < MAX_FRAMES && i < 512 && g != root.number ==> #[trigger] r.mapper.entry(g, i)
                    == Entry::zero(),
    {
        let mapper = Mapper::new(root);
        proof {
            crate::memory::lemma_zero_entry();
        }
        ActivePageTable { mapper }
    }

    /// Loads `new_table` into the table-base register and hands back the
    /// table that was active.
    pub fn switch(&mut self, new_table: InactivePageTable) -> (r: InactivePageTable)
        requires
            old(self).wf(),
            old(self).mapper.is_inactive_p4(new_table.frame().number),
        ensures
            final(self).wf(),
            final(self).mapper.root() == new_table.frame().number,
            r.frame().number == old(self).mapper.root(),
            final(self).mapper.is_inactive_p4(old(self).mapper.root()),
            final(self).mapper.levels() == old(self).mapper.levels(),
            final(self).mapper.parents() == old(self).mapper.parents(),
            final(self).mapper.memory() == old(self).mapper.memory(),
    {
        let old_root = self.mapper.load_root(new_table.p4_frame);
        InactivePageTable { p4_frame: old_root }
    }

    /// First half of editing an inactive table as if it were active: maps
    /// the active P4 at the temporary page and, through that mapping,
    /// points its slot 511 at `table`. The walker then edits `table`'s
    /// hierarchy. Returns the active P4's frame, for `restore`.
    pub fn splice(&mut self, table: &InactivePageTable, temporary_page: &mut TemporaryPage) -> (r: Result<Frame, MapError>)
        requires
            old(self).wf(),
            old(temporary_page).wf(),
            old(self).mapper.apart_from(old(temporary_page).scratch()),
            old(self).mapper.translate_page_spec(old(temporary_page).page_spec()).is_none(),
            old(self).mapper.is_inactive_p4(table.frame().number),
            table.frame().number != old(self).mapper.root(),
        ensures
            final(self).mapper.wf(),
            final(temporary_page).wf(),
            final(temporary_page).page_spec() == old(temporary_page).page_spec(),
            final(temporary_page).scratch().subset_of(old(temporary_page).scratch()),
            final(self).mapper.apart_from(final(temporary_page).scratch()),
            final(self).mapper.root() == old(self).mapper.root(),
            forall|f: u64| #[trigger] final(self).mapper.is_table(f) ==> old(self).mapper.is_table(f) || old(temporary_page).scratch().contains(f),
            forall|f: u64| #[trigger] old(self).mapper.is_table(f) ==> final(self).mapper.is_table(f) && final(self).mapper.levels()[f] == old(self).mapper.levels()[f],
            r matches Ok(backup) ==> backup.number == old(self).mapper.root() && final(self).mapper.target() == table.frame().number
                && final(self).mapper.is_inactive_p4(table.frame().number),
            r is Err ==> final(self).wf(),
            match old(self).mapper.mapping_error(old(temporary_page).page_spec(), old(temporary_page).scratch()) {
                Some(e) => r == Err::<Frame, MapError>(e),
                None => r is Ok,
            },
            r is Ok ==> forall|i: u64| i < 512 ==> #[trigger] final(self).mapper.entry(table.frame().number, i) == old(self).mapper.entry(table.frame().number, i),
            r is Ok ==> final(self).mapper.walk(old(self).mapper.root(), old(temporary_page).page_spec()) == Some(old(self).mapper.root()),
            r is Ok ==> final(self).mapper.mmu_page(old(temporary_page).page_spec()) == Some(old(self).mapper.root()),
            r is Ok ==> forall|q: u64| (Page { number: q }).p4_spec() != 511 && !Mapper::same_indices(old(temporary_page).page_spec(), Page { number: q })
                ==> #[trigger] final(self).mapper.walk(old(self).mapper.root(), Page { number: q }) == old(self).mapper.translate_page_spec(Page { number: q }),
            r is Ok ==> forall|g: u64, i: u64|
                g < MAX_FRAMES && i < 512 && old(self).mapper.is_table(g) && !(g == old(self).mapper.root() && i == 511)
                    && !(g == old(self).mapper.root() && i == old(temporary_page).page_spec().p4_spec())
                    && !(g == final(self).mapper.path_from(old(self).mapper.root(), old(temporary_page).page_spec(), 4).frame && i == old(temporary_page).page_spec().p3_spec())
                    && !(g == final(self).mapper.path_from(old(self).mapper.root(), old(temporary_page).page_spec(), 3).frame && i == old(temporary_page).page_spec().p2_spec())
                    && !(g == final(self).mapper.path_from(old(self).mapper.root(), old(temporary_page).page_spec(), 2).frame && i == old(temporary_page).page_spec().p1_spec())
                    ==> #[trigger] final(self).mapper.entry(g, i) == old(self).mapper.entry(g, i),
    {
        let backup = self.mapper.root_frame();
        let ghost before = self.mapper;
        match temporary_page.map_table_frame(backup, self) {
            Ok(_) => {},
            Err(e) => return Err(e),
        }
        let ghost mapped = self.mapper;
        proof {
            let m = self.mapper;
            let f = table.frame().number;
            let tp = temporary_page.page_spec();
            assert(before.is_table(f));
            assert(before.entry(f, 511).present());
            m.lemma_path_parents(m.target(), tp);
            assert forall|i: u64| i < 512 implies #[trigger] m.entry(f, i) == before.entry(f, i) by {
                assert(!m.on_path_slot(tp, f, i));
            }
        }
        self.mapper.set_recursive_slot(temporary_page.page(), table.p4_frame);
        proof {
            let tp = temporary_page.page_spec();
            let r = before.root();
            let fin = self.mapper;
            crate::address::lemma_indices_bounded(tp);
            assert(mapped.is_table(r));
            mapped.lemma_path_parents(r, tp);
            assert forall|q: u64| (Page { number: q }).p4_spec() != 511
                implies #[trigger] fin.walk(r, Page { number: q }) == mapped.walk(r, Page { number: q }) by {
                let pq = Page { number: q };
                crate::address::lemma_indices_bounded(pq);
                assert(fin.entry(r, pq.p4_spec()) == mapped.entry(r, pq.p4_spec()));
                let e4 = mapped.entry(r, pq.p4_spec());
                if e4.leads_on() {
                    let g3 = e4.frame;
                    assert(mapped.levels().contains_key(r));
                    assert(mapped.levels()[g3] == 3);
                    assert(fin.entry(g3, pq.p3_spec()) == mapped.entry(g3, pq.p3_spec()));
                    let e3 = mapped.entry(g3, pq.p3_spec());
                    if e3.leads_on() {
                        let g2 = e3.frame;
                        assert(mapped.levels()[g2] == 2);
                        assert(fin.entry(g2, pq.p2_spec()) == mapped.entry(g2, pq.p2_spec()));
                        let e2 = mapped.entry(g2, pq.p2_spec());
                        if e2.leads_on() {
                            assert(mapped.levels()[e2.frame] == 1);
                            assert(fin.entry(e2.frame, pq.p1_spec()) == mapped.entry(e2.frame, pq.p1_spec()));
                        }
                    }
                }
            }
            assert(fin.walk(r, tp) == mapped.walk(r, tp));
            assert(fin.path_from(r, tp, 1) == mapped.path_from(r, tp, 1));
            assert forall|q: u64| (Page { number: q }).p4_spec() != 511 && !Mapper::same_indices(tp, Page { number: q })
                implies #[trigger] fin.walk(r, Page { number: q }) == before.translate_page_spec(Page { number: q }) by {
                assert(fin.walk(r, Page { number: q }) == mapped.walk(r, Page { number: q }));
                assert(mapped.translate_page_spec(Page { number: q }) == before.translate_page_spec(Page { number: q }));
            }
            assert(mapped.target() == r);
            assert(mapped.translate_page_spec(tp) == Some(r));
            assert(mapped.path_from(r, tp, 4) == fin.path_from(r, tp, 4));
            assert(mapped.path_from(r, tp, 3) == fin.path_from(r, tp, 3));
            assert(mapped.path_from(r, tp, 2) == fin.path_from(r, tp, 2));
            assert forall|g: u64, i: u64|
                g < MAX_FRAMES && i < 512 && before.is_table(g) && !(g == r && i == 511)
                    && !(g == r && i == tp.p4_spec())
                    && !(g == fin.path_from(r, tp, 4).frame && i == tp.p3_spec())
                    && !(g == fin.path_from(r, tp, 3).frame && i == tp.p2_spec())
                    && !(g == fin.path_from(r, tp, 2).frame && i == tp.p1_spec())
                    implies #[trigger] fin.entry(g, i) == before.entry(g, i) by {
                assert(!mapped.on_path_slot(tp, g, i));
                assert(mapped.entry(g, i) == before.entry(g, i));
            }
        }
        proof {
            let f = table.frame().number;
            assert forall|i: u64| i < 512 implies #[trigger] self.mapper.entry(f, i) == before.entry(f, i) by {
                assert(self.mapper.entry(f, i) == mapped.entry(f, i));
            }
        }
        Ok(backup)
    }

    /// Second half: points slot 511 of the active P4 back at `backup`, the
    /// active P4, and removes the temporary mapping.
    pub fn restore(&mut self, backup: Frame, temporary_page: &mut TemporaryPage)
        requires
            old(self).mapper.wf(),
            old(temporary_page).wf(),
            backup.number == old(self).mapper.root(),
            old(self).mapper.mmu_page(old(temporary_page).page_spec()) == Some(old(self).mapper.root()),
        ensures
            final(self).wf(),
            *final(temporary_page) == *old(temporary_page),
            final(self).mapper.root() == old(self).mapper.root(),
            final(self).mapper.levels() == old(self).mapper.levels(),
            final(self).mapper.parents() == old(self).mapper.parents(),
            final(self).mapper.entry(old(self).mapper.root(), 511) == (Entry { frame: old(self).mapper.root(), flags: PRESENT | WRITABLE }),
            final(self).mapper.translate_page_spec(old(temporary_page).page_spec()).is_none() || final(self).mapper.maps_huge(old(temporary_page).page_spec()),
            forall|g: u64, i: u64|
                g < MAX_FRAMES && i < 512 && !(g == old(self).mapper.root() && i == 511) && !(old(self).mapper.full_path_from(
                    old(self).mapper.root(),
                    old(temporary_page).page_spec(),
                ) && g == old(self).mapper.path_from(old(self).mapper.root(), old(temporary_page).page_spec(), 2).frame
                    && i == old(temporary_page).page_spec().p1_spec()) ==> #[trigger] final(self).mapper.entry(g, i)
                    == old(self).mapper.entry(g, i),
            forall|q: u64| (Page { number: q }).p4_spec() != 511 && !Mapper::same_indices(old(temporary_page).page_spec(), Page { number: q })
                ==> #[trigger] final(self).mapper.translate_page_spec(Page { number: q }) == old(self).mapper.walk(old(self).mapper.root(), Page { number: q }),
            forall|g: u64, i: u64|
                g < MAX_FRAMES && i < 512 && !(g == old(self).mapper.root() && i == 511) && !(old(self).mapper.is_table(g) && old(self).mapper.levels()[g] == 1 && old(self).mapper.rooted_at(g, old(self).mapper.root())) ==> #[trigger] final(self).mapper.entry(g, i) == old(self).mapper.entry(g, i),
    {
        let ghost before = self.mapper;
        self.mapper.reset_recursive_slot(temporary_page.page());
        let ghost mid = self.mapper;
        proof {
            let tp = temporary_page.page_spec();
            let r = before.root();
            crate::address::lemma_indices_bounded(tp);
            assert(before.is_table(r));
            if before.full_path_from(r, tp) {
                before.lemma_path_parents(r, tp);
            }
            assert forall|q: u64| (Page { number: q }).p4_spec() != 511
                implies #[trigger] mid.translate_page_spec(Page { number: q }) == before.walk(r, Page { number: q }) by {
                let pq = Page { number: q };
                crate::address::lemma_indices_bounded(pq);
                assert(mid.entry(r, pq.p4_spec()) == before.entry(r, pq.p4_spec()));
                let e4 = before.entry(r, pq.p4_spec());
                if e4.leads_on() {
                    let g3 = e4.frame;
                    assert(before.levels().contains_key(r));
                    assert(before.levels()[g3] == 3);
                    assert(mid.entry(g3, pq.p3_spec()) == before.entry(g3, pq.p3_spec()));
                    let e3 = before.entry(g3, pq.p3_spec());
                    if e3.leads_on() {
                        let g2 = e3.frame;
                        assert(before.levels()[g2] == 2);
                        assert(mid.entry(g2, pq.p2_spec()) == before.entry(g2, pq.p2_spec()));
                        let e2 = before.entry(g2, pq.p2_spec());
                        if e2.leads_on() {
                            assert(before.levels()[e2.frame] == 1);
                            assert(mid.entry(e2.frame, pq.p1_spec()) == before.entry(e2.frame, pq.p1_spec()));
                        }
                    }
                }
            }
        }
        proof {
            let tp = temporary_page.page_spec();
            let r = before.root();
            let e4 = before.entry(r, tp.p4_spec());
            assert(mid.entry(r, tp.p4_spec()) == e4);
            if e4.leads_on() {
                assert(before.levels().contains_key(r));
                assert(before.levels()[e4.frame] == 3);
                assert(mid.entry(e4.frame, tp.p3_spec()) == before.entry(e4.frame, tp.p3_spec()));
                let e3 = before.entry(e4.frame, tp.p3_spec());
                if e3.leads_on() {
                    assert(before.levels()[e3.frame] == 2);
                    assert(mid.entry(e3.frame, tp.p2_spec()) == before.entry(e3.frame, tp.p2_spec()));
                }
            }
            assert(mid.full_path_from(r, tp) == before.full_path_from(r, tp));
            if before.full_path_from(r, tp) {
                assert(mid.path_entry(tp, 2).frame == before.path_from(r, tp, 2).frame);
            }
        }
        temporary_page.unmap(self);
    }
}

} // verus!
