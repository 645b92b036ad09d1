//! The table walker. Tables are reached the way the kernel reaches them:
//! through virtual addresses that the recursive slot 511 of the active P4
//! turns into table frames.
use vstd::prelude::*;
use crate::address::{Frame, Page, PAGE_SIZE, MAX_FRAMES, PhysicalAddress, VirtualAddress, is_canonical, lemma_indices_bounded};
use crate::memory::{Entry, PhysicalMemory, PRESENT, WRITABLE, lemma_with_present, lemma_table_flags, lemma_zero_entry};
use crate::allocator::FrameAllocator;

verus! {

/// The recursive slot of every P4.
pub const RECURSIVE_INDEX: u64 = 511;

/// The level of a table in the hierarchy.
#[derive(Debug, Clone, Copy, PartialEq, Eq, Structural)]
pub enum Level {
    P4,
    P3,
    P2,
    P1,
}

impl Level {
    pub open spec fn depth(self) -> int {
        match self {
            Level::P4 => 4,
            Level::P3 => 3,
            Level::P2 => 2,
            Level::P1 => 1,
        }
    }
}

/// A table as the kernel sees it: its level and the four indices of its
/// virtual address. Entry 511 of the P4 stands at the top of the address as
/// often as the walk must loop back through the P4.
#[derive(Debug, Clone, Copy)]
pub struct Table {
    pub level: Level,
    pub i4: u64,
    pub i3: u64,
    pub i2: u64,
    pub i1: u64,
}

impl Table {
    /// The P4, at the address whose four indices are all 511.
    pub fn p4() -> (r: Table)
        ensures
            r == (Table { level: Level::P4, i4: 511, i3: 511, i2: 511, i1: 511 }),
    {
        Table { level: Level::P4, i4: 511, i3: 511, i2: 511, i1: 511 }
    }

    /// The address of the table behind entry `index`: the indices move up
    /// by one level and `index` comes last.
    pub open spec fn child_spec(self, index: u64) -> Table {
        Table {
            level: match self.level {
                Level::P4 => Level::P3,
                Level::P3 => Level::P2,
                _ => Level::P1,
            },
            i4: self.i3,
            i3: self.i2,
            i2: self.i1,
            i1: index,
        }
    }

    pub fn child(&self, index: u64) -> (r: Table)
        requires
            self.level != Level::P1,
        ensures
            r == self.child_spec(index),
    {
        let level = match self.level {
            Level::P4 => Level::P3,
            Level::P3 => Level::P2,
            _ => Level::P1,
        };
        Table { level, i4: self.i3, i3: self.i2, i2: self.i1, i1: index }
    }

    /// The virtual address of the table, sign-extended from bit 47.
    pub open spec fn address_spec(self) -> u64 {
        let low = (self.i4 << 39u64) | (self.i3 << 30u64) | (self.i2 << 21u64) | (self.i1 << 12u64);
        if self.i4 >= 256 {
            low | 0xffff_0000_0000_0000u64
        } else {
            low
        }
    }

    pub fn address(&self) -> (r: VirtualAddress)
        requires
            self.i4 < 512,
            self.i3 < 512,
            self.i2 < 512,
            self.i1 < 512,
        ensures
            r == self.address_spec(),
    {
        let low = (self.i4 << 39u64) | (self.i3 << 30u64) | (self.i2 << 21u64) | (self.i1 << 12u64);
        if self.i4 >= 256 {
            low | 0xffff_0000_0000_0000u64
        } else {
            low
        }
    }
}

/// Why a page could not be mapped.
#[derive(Debug, Clone, Copy, PartialEq, Eq, Structural)]
pub enum MapError {
    /// The page already has a mapping.
    AlreadyMapped,
    /// The path to the page runs through a huge page.
    HugePage,
    /// A table was missing and no frame was left to make it.
    OutOfFrames,
}

/// Why a page could not be unmapped.
#[derive(Debug, Clone, Copy, PartialEq, Eq, Structural)]
pub enum UnmapError {
    /// The page has no mapping.
    NotMapped,
    /// The page lies inside a huge page.
    HugePage,
}

/// The page tables of the machine, the table-base register, and the
/// walker that edits the hierarchy that entry 511 of the active P4 names.
/// Every access walks the tables afresh: there is no translation cache, so
/// a flush after an edit has nothing left to do.
pub struct Mapper {
    memory: PhysicalMemory,
    cr3: u64,
    levels: Ghost<Map<u64, int>>,
    parents: Ghost<Map<u64, (u64, u64)>>,
}

impl Mapper {
    pub closed spec fn memory(&self) -> PhysicalMemory {
        self.memory
    }

    /// The frame of the P4 that the table-base register names.
    pub closed spec fn root(&self) -> u64 {
        self.cr3
    }

    /// The level of each frame that holds a table.
    pub closed spec fn levels(&self) -> Map<u64, int> {
        self.levels@
    }

    /// The slot that leads to each table below a P4.
    pub closed spec fn parents(&self) -> Map<u64, (u64, u64)> {
        self.parents@
    }

    pub open spec fn entry(&self, frame: u64, index: u64) -> Entry {
        self.memory().entry(frame, index)
    }

    /// The P4 that the walker edits: the one that entry 511 of the active
    /// P4 names. It is the active P4 itself, save while an inactive table
    /// is spliced in.
    pub open spec fn target(&self) -> u64 {
        self.entry(self.root(), 511).frame
    }

    pub open spec fn is_table(&self, frame: u64) -> bool {
        self.levels().contains_key(frame)
    }

    /// Present entries of a table lead to tables one level down, and each
    /// such table is led to from that one slot alone; the recursive slot of
    /// a P4 and the entries of a P1 are exempt.
    pub open spec fn closed_under_entries(&self) -> bool {
        forall|f: u64, i: u64|
            #![trigger self.levels().contains_key(f), self.entry(f, i)]
            self.is_table(f) && self.levels()[f] > 1 && i < 512 && !(self.levels()[f] == 4 && i
                == 511) && self.entry(f, i).leads_on() ==> self.is_table(self.entry(f, i).frame)
                && self.levels()[self.entry(f, i).frame] == self.levels()[f] - 1
                && self.parents().contains_key(self.entry(f, i).frame) && self.parents()[self.entry(
                f,
                i,
            ).frame] == (f, i)
    }

    pub open spec fn wf(&self) -> bool {
        &&& self.memory().wf()
        &&& self.root() < MAX_FRAMES
        &&& self.is_table(self.root())
        &&& self.levels()[self.root()] == 4
        &&& self.entry(self.root(), 511).leads_on()
        &&& self.is_table(self.target())
        &&& self.levels()[self.target()] == 4
        &&& self.entry(self.target(), 511).leads_on()
        &&& self.entry(self.target(), 511).frame == self.target()
        &&& forall|f: u64| #[trigger]
            self.levels().contains_key(f) ==> f < MAX_FRAMES && 1 <= self.levels()[f] <= 4
        &&& self.closed_under_entries()
        &&& forall|g: u64| #[trigger]
            self.parents().contains_key(g) ==> self.is_table(g) && self.levels()[g] < 4
    }

    /// What the MMU finds for the virtual address with these four table
    /// indices: the frame of the last entry of the walk from the root.
    pub open spec fn mmu(&self, i4: u64, i3: u64, i2: u64, i1: u64) -> Option<u64> {
        let e4 = self.entry(self.root(), i4);
        let e3 = self.entry(e4.frame, i3);
        let e2 = self.entry(e3.frame, i2);
        let e1 = self.entry(e2.frame, i1);
        if e4.leads_on() && e3.leads_on() && e2.leads_on() && e1.present() {
            Some(e1.frame)
        } else {
            None
        }
    }

    pub open spec fn table_frame(&self, t: Table) -> Option<u64> {
        self.mmu(t.i4, t.i3, t.i2, t.i1)
    }

    /// Entry `depth` of the walk for `page` that starts at the P4 in
    /// `root`: 4 is the P4's entry, 1 the P1's.
    pub open spec fn path_from(&self, root: u64, page: Page, depth: int) -> Entry {
        let e4 = self.entry(root, page.p4_spec());
        let e3 = self.entry(e4.frame, page.p3_spec());
        let e2 = self.entry(e3.frame, page.p2_spec());
        let e1 = self.entry(e2.frame, page.p1_spec());
        if depth == 4 {
            e4
        } else if depth == 3 {
            e3
        } else if depth == 2 {
            e2
        } else {
            e1
        }
    }

    /// The walk for `page` from `root` reaches a P1 without meeting a huge
    /// page.
    pub open spec fn full_path_from(&self, root: u64, page: Page) -> bool {
        self.path_from(root, page, 4).leads_on() && self.path_from(root, page, 3).leads_on()
            && self.path_from(root, page, 2).leads_on()
    }

    /// The frame that `page` maps to in the hierarchy of the P4 in `root`.
    pub open spec fn walk(&self, root: u64, page: Page) -> Option<u64> {
        let e4 = self.path_from(root, page, 4);
        let e3 = self.path_from(root, page, 3);
        let e2 = self.path_from(root, page, 2);
        let e1 = self.path_from(root, page, 1);
        if !e4.leads_on() || !e3.present() {
            None
        } else if e3.huge() {
            Some((e3.frame + page.p2_spec() * 512 + page.p1_spec()) as u64)
        } else if !e2.present() {
            None
        } else if e2.huge() {
            Some((e2.frame + page.p1_spec()) as u64)
        } else if !e1.present() {
            None
        } else {
            Some(e1.frame)
        }
    }

    /// The frame that `page` maps to in the edited hierarchy, if any.
    pub open spec fn translate_page_spec(&self, page: Page) -> Option<u64> {
        self.walk(self.target(), page)
    }

    /// The physical address that `address` maps to, if any.
    pub open spec fn translate_spec(&self, address: u64) -> Option<u64> {
        match self.translate_page_spec(Page { number: address / PAGE_SIZE }) {
            Some(f) => Some((f * PAGE_SIZE + address % PAGE_SIZE) as u64),
            None => None,
        }
    }

    /// The frame of the table at `t`, found through the MMU.
    fn resolve(&self, t: &Table) -> (r: Option<u64>)
        requires
            self.memory().wf(),
            self.root() < MAX_FRAMES,
            t.i4 < 512 && t.i3 < 512 && t.i2 < 512 && t.i1 < 512,
        ensures
            r == self.table_frame(*t),
            r matches Some(f) ==> f < MAX_FRAMES,
    {
        let e4 = self.memory.read(self.cr3, t.i4);
        if !e4.is_present() || e4.is_huge() {
            return None;
        }
        let e3 = self.memory.read(e4.frame, t.i3);
        if !e3.is_present() || e3.is_huge() {
            return None;
        }
        let e2 = self.memory.read(e3.frame, t.i2);
        if !e2.is_present() || e2.is_huge() {
            return None;
        }
        let e1 = self.memory.read(e2.frame, t.i1);
        if !e1.is_present() {
            return None;
        }
        Some(e1.frame)
    }

    /// The P4 handle resolves to the edited P4.
    proof fn lemma_p4(&self)
        requires
            self.wf(),
        ensures
            self.table_frame(Table { level: Level::P4, i4: 511, i3: 511, i2: 511, i1: 511 })
                == Some(self.target()),
    {
    }

    /// Entry `index` of table `t`, read through its virtual address.
    fn read_entry(&self, t: &Table, index: u64, Ghost(f): Ghost<u64>) -> (r: Entry)
        requires
            self.memory().wf(),
            self.root() < MAX_FRAMES,
            t.i4 < 512 && t.i3 < 512 && t.i2 < 512 && t.i1 < 512,
            index < 512,
            self.table_frame(*t) == Some(f),
        ensures
            r == self.entry(f, index),
            r.frame < MAX_FRAMES,
    {
        let frame = self.resolve(t);
        match frame {
            Some(frame) => self.memory.read(frame, index),
            None => Entry { frame: 0, flags: 0 },
        }
    }

    /// The table that entry `index` of `t` leads to, unless the entry is
    /// not present or maps a huge page.
    fn next_table(&self, t: &Table, index: u64, Ghost(f): Ghost<u64>) -> (r: Option<Table>)
        requires
            self.wf(),
            t.level != Level::P1,
            t.i4 < 512 && t.i3 < 512 && t.i2 < 512 && t.i1 < 512,
            index < 512,
            self.table_frame(*t) == Some(f),
            t.i4 == 511,
            t.i3 == 511,
            t.level != Level::P2 ==> t.i2 == 511,
            t.level == Level::P4 ==> t.i1 == 511,
            t.level == Level::P2 ==> self.entry(self.target(), t.i2).leads_on() && self.entry(
                self.entry(self.target(), t.i2).frame,
                t.i1,
            ).leads_on() && f == self.entry(self.entry(self.target(), t.i2).frame, t.i1).frame,
            t.level == Level::P3 ==> self.entry(self.target(), t.i1).leads_on() && f == self.entry(
                self.target(),
                t.i1,
            ).frame,
            t.level == Level::P4 ==> f == self.target(),
        ensures
            self.entry(f, index).leads_on() ==> r == Some(t.child_spec(index)) && self.table_frame(
                t.child_spec(index),
            ) == Some(self.entry(f, index).frame),
            !self.entry(f, index).leads_on() ==> r.is_none(),
    {
        let e = self.read_entry(t, index, Ghost(f));
        if e.is_present() && !e.is_huge() {
            Some(t.child(index))
        } else {
            None
        }
    }

    /// The physical address that `address` maps to in the edited hierarchy.
    pub fn translate(&self, virtual_address: VirtualAddress) -> (r: Option<PhysicalAddress>)
        requires
            self.wf(),
            is_canonical(virtual_address),
        ensures
            r == self.translate_spec(virtual_address),
    {
        let page = Page::containing_address(virtual_address);
        let offset = virtual_address % PAGE_SIZE;
        match self.translate_page(page) {
            Some(frame) => {
                assert(frame.number * PAGE_SIZE + offset < 0x1_0000_0000_0000_0000) by (nonlinear_arith)
                    requires frame.number < 0x200_0000_0000, offset < 4096;
                Some(frame.number * PAGE_SIZE + offset)
            },
            None => None,
        }
    }

    /// The frame that `page` maps to in the edited hierarchy.
    pub fn translate_page(&self, page: Page) -> (r: Option<Frame>)
        requires
            self.wf(),
        ensures
            r == (match self.translate_page_spec(page) {
                Some(n) => Some(Frame { number: n }),
                None => None,
            }),
            r matches Some(f) ==> f.number < 0x200_0000_0000,
    {
        let p4 = Table::p4();
        proof {
            self.lemma_p4();
        }
        let p3 = match self.next_table(&p4, page.p4_index(), Ghost(self.target())) {
            Some(p3) => p3,
            None => return None,
        };
        let ghost f3 = self.entry(self.target(), page.p4_spec()).frame;
        let e3 = self.read_entry(&p3, page.p3_index(), Ghost(f3));
        if e3.is_present() && e3.is_huge() {
            return Some(Frame { number: e3.frame + page.p2_index() * 512 + page.p1_index() });
        }
        let p2 = match self.next_table(&p3, page.p3_index(), Ghost(f3)) {
            Some(p2) => p2,
            None => return None,
        };
        let ghost f2 = self.entry(f3, page.p3_spec()).frame;
        let e2 = self.read_entry(&p2, page.p2_index(), Ghost(f2));
        if e2.is_present() && e2.is_huge() {
            return Some(Frame { number: e2.frame + page.p1_index() });
        }
        let p1 = match self.next_table(&p2, page.p2_index(), Ghost(f2)) {
            Some(p1) => p1,
            None => return None,
        };
        let ghost f1 = self.entry(f2, page.p2_spec()).frame;
        let e1 = self.read_entry(&p1, page.p1_index(), Ghost(f1));
        if e1.is_present() {
            Some(Frame { number: e1.frame })
        } else {
            None
        }
    }

    /// Entry `depth` of the page's path in the edited hierarchy.
    pub open spec fn path_entry(&self, page: Page, depth: int) -> Entry {
        self.path_from(self.target(), page, depth)
    }

    /// How many tables `map_to` has to make for `page`.
    pub open spec fn tables_missing(&self, page: Page) -> nat {
        if !self.path_entry(page, 4).leads_on() {
            3
        } else if !self.path_entry(page, 3).leads_on() {
            2
        } else if !self.path_entry(page, 2).leads_on() {
            1
        } else {
            0
        }
    }

    /// The existing part of the page's path stops at a huge page.
    pub open spec fn path_blocked(&self, page: Page) -> bool {
        if !self.path_entry(page, 4).leads_on() {
            self.path_entry(page, 4).huge()
        } else if !self.path_entry(page, 3).leads_on() {
            self.path_entry(page, 3).huge()
        } else if !self.path_entry(page, 2).leads_on() {
            self.path_entry(page, 2).huge()
        } else {
            false
        }
    }

    /// The page's P1 slot exists and is in use.
    pub open spec fn slot_in_use(&self, page: Page) -> bool {
        self.tables_missing(page) == 0 && self.path_entry(page, 1) != Entry::zero()
    }

    /// The error that mapping `page` with the frames `free` for new tables
    /// meets, if any.
    pub open spec fn mapping_error(&self, page: Page, free: Set<u64>) -> Option<MapError> {
        if self.path_blocked(page) {
            Some(MapError::HugePage)
        } else if self.slot_in_use(page) {
            Some(MapError::AlreadyMapped)
        } else if free.len() < self.tables_missing(page) {
            Some(MapError::OutOfFrames)
        } else {
            None
        }
    }

    /// `(g, i)` is one of the four slots that the walk for `page` reads.
    pub open spec fn on_path_slot(&self, page: Page, g: u64, i: u64) -> bool {
        ||| g == self.target() && i == page.p4_spec()
        ||| g == self.path_entry(page, 4).frame && i == page.p3_spec()
        ||| g == self.path_entry(page, 3).frame && i == page.p2_spec()
        ||| g == self.path_entry(page, 2).frame && i == page.p1_spec()
    }

    /// What a successful `map_to(page, ..)` changes, going from `self` to
    /// `new`: only the slots on the page's walk; tables it makes are empty
    /// but for that walk; a table of the walk that was there before is led
    /// to by the slot that led to it before; the parents of old tables stay.
    pub open spec fn maps_only(&self, new: &Mapper, page: Page) -> bool {
        let t = new.target();
        let f3 = new.path_entry(page, 4).frame;
        let f2 = new.path_entry(page, 3).frame;
        let f1 = new.path_entry(page, 2).frame;
        &&& forall|g: u64, i: u64|
            g < MAX_FRAMES && i < 512 && self.is_table(g) && !new.on_path_slot(page, g, i)
                ==> #[trigger] new.entry(g, i) == self.entry(g, i)
        &&& forall|g: u64, i: u64|
            new.is_table(g) && !self.is_table(g) && i < 512 && !new.on_path_slot(page, g, i)
                ==> #[trigger] new.entry(g, i) == Entry::zero()
        &&& self.is_table(f3) ==> new.entry(t, page.p4_spec()) == self.entry(t, page.p4_spec())
        &&& self.is_table(f2) ==> self.is_table(f3) && new.entry(f3, page.p3_spec()) == self.entry(f3, page.p3_spec())
        &&& self.is_table(f1) ==> self.is_table(f2) && new.entry(f2, page.p2_spec()) == self.entry(f2, page.p2_spec())
        &&& !self.is_table(f3) ==> !self.entry(t, page.p4_spec()).present()
        &&& self.is_table(f3) && !self.is_table(f2) ==> !self.entry(f3, page.p3_spec()).present()
        &&& self.is_table(f2) && !self.is_table(f1) ==> !self.entry(f2, page.p2_spec()).present()
        &&& forall|g: u64| #[trigger] self.parents().contains_key(g) ==> new.parents().contains_key(g)
            && new.parents()[g] == self.parents()[g]
    }

    /// No free frame of the allocator holds a table.
    pub open spec fn apart_from(&self, free: Set<u64>) -> bool {
        forall|n: u64| #[trigger] free.contains(n) ==> !self.is_table(n)
    }

    /// `new` differs from `self` only by tables made from `taken` frames
    /// and by entries that were not present: every mapping stays.
    pub open spec fn grows_to(&self, new: &Mapper, taken: Set<u64>) -> bool {
        &&& new.root() == self.root()
        &&& new.target() == self.target()
        &&& forall|f: u64| #[trigger]
            self.levels().contains_key(f) ==> new.levels().contains_key(f) && new.levels()[f]
                == self.levels()[f]
        &&& forall|f: u64| #[trigger]
            new.levels().contains_key(f) ==> self.levels().contains_key(f) || taken.contains(f)
        &&& forall|f: u64, i: u64|
            self.is_table(f) && i < 512 && self.entry(f, i).present() ==> #[trigger] new.entry(f, i)
                == self.entry(f, i)
        &&& forall|f: u64, i: u64|
            f < MAX_FRAMES && i < 512 && !self.is_table(f) && !taken.contains(f) ==> #[trigger] new.entry(f, i)
                == self.entry(f, i)
    }

    /// Writes entry `index` of table `t`, through its virtual address.
    fn set_entry(&mut self, t: &Table, index: u64, e: Entry, Ghost(f): Ghost<u64>)
        requires
            old(self).memory().wf(),
            old(self).root() < MAX_FRAMES,
            t.i4 < 512 && t.i3 < 512 && t.i2 < 512 && t.i1 < 512,
            index < 512,
            e.frame < MAX_FRAMES,
            old(self).table_frame(*t) == Some(f),
        ensures
            final(self).memory().wf(),
            final(self).root() == old(self).root(),
            final(self).levels() == old(self).levels(),
            final(self).parents() == old(self).parents(),
            final(self).entry(f, index) == e,
            forall|g: u64, i: u64|
                g < MAX_FRAMES && i < 512 && !(g == f && i == index) ==> #[trigger] final(self).entry(g, i)
                    == old(self).entry(g, i),
    {
        let frame = self.resolve(t);
        match frame {
            Some(frame) => self.memory.write(frame, index, e),
            None => {},
        }
    }

    /// Sets every entry of table `t` to unused, through its virtual address.
    fn zero_table(&mut self, t: &Table, Ghost(f): Ghost<u64>)
        requires
            old(self).memory().wf(),
            old(self).root() < MAX_FRAMES,
            t.i4 < 512 && t.i3 < 512 && t.i2 < 512 && t.i1 < 512,
            old(self).table_frame(*t) == Some(f),
        ensures
            final(self).memory().wf(),
            final(self).root() == old(self).root(),
            final(self).levels() == old(self).levels(),
            final(self).parents() == old(self).parents(),
            forall|i: u64| i < 512 ==> #[trigger] final(self).entry(f, i) == Entry::zero(),
            forall|g: u64, i: u64|
                g < MAX_FRAMES && i < 512 && g != f ==> #[trigger] final(self).entry(g, i) == old(
                    self,
                ).entry(g, i),
    {
        let frame = self.resolve(t);
        match frame {
            Some(frame) => self.memory.zero(frame),
            None => {},
        }
    }

    /// `t` is the address under which the walker reaches table `f`: the
    /// walk loops through slot 511 as often as `t` is above P1, then
    /// follows the edited hierarchy. Addresses in slot 511 itself are not
    /// walked.
    pub open spec fn reaches(&self, t: Table, f: u64) -> bool {
        &&& t.i4 < 512 && t.i3 < 512 && t.i2 < 512 && t.i1 < 512
        &&& t.i4 == 511
        &&& match t.level {
            Level::P4 => t.i3 == 511 && t.i2 == 511 && t.i1 == 511 && f == self.target(),
            Level::P3 => t.i3 == 511 && t.i2 == 511 && t.i1 != 511 && self.entry(
                self.target(),
                t.i1,
            ).leads_on() && f == self.entry(self.target(), t.i1).frame,
            Level::P2 => t.i3 == 511 && t.i2 != 511 && self.entry(self.target(), t.i2).leads_on()
                && self.entry(self.entry(self.target(), t.i2).frame, t.i1).leads_on() && f
                == self.entry(self.entry(self.target(), t.i2).frame, t.i1).frame,
            Level::P1 => t.i3 != 511 && self.entry(self.target(), t.i3).leads_on() && self.entry(
                self.entry(self.target(), t.i3).frame,
                t.i2,
            ).leads_on() && self.entry(
                self.entry(self.entry(self.target(), t.i3).frame, t.i2).frame,
                t.i1,
            ).leads_on() && f == self.entry(
                self.entry(self.entry(self.target(), t.i3).frame, t.i2).frame,
                t.i1,
            ).frame,
        }
    }

    proof fn lemma_reaches(&self, t: Table, f: u64)
        requires
            self.wf(),
            self.reaches(t, f),
        ensures
            self.table_frame(t) == Some(f),
            self.is_table(f),
            self.levels()[f] == t.level.depth(),
            f < MAX_FRAMES,
    {
        let tt = self.target();
        match t.level {
            Level::P4 => {},
            Level::P3 => {
                assert(self.levels().contains_key(tt));
                assert(self.entry(tt, t.i1).leads_on());
            },
            Level::P2 => {
                assert(self.levels().contains_key(tt));
                assert(self.entry(tt, t.i2).leads_on());
                let f3 = self.entry(tt, t.i2).frame;
                assert(self.levels().contains_key(f3));
                assert(self.entry(f3, t.i1).leads_on());
            },
            Level::P1 => {
                assert(self.levels().contains_key(tt));
                assert(self.entry(tt, t.i3).leads_on());
                let f3 = self.entry(tt, t.i3).frame;
                assert(self.levels().contains_key(f3));
                assert(self.entry(f3, t.i2).leads_on());
                let f2 = self.entry(f3, t.i2).frame;
                assert(self.levels().contains_key(f2));
                assert(self.entry(f2, t.i1).leads_on());
            },
        }
    }

    /// The table that entry `index` of `t` leads to; a missing one is made
    /// from a frame of `allocator`, zeroed, and entered with PRESENT and
    /// WRITABLE.
    fn next_table_create<A: FrameAllocator>(
        &mut self,
        t: &Table,
        index: u64,
        allocator: &mut A,
        Ghost(f): Ghost<u64>,
    ) -> (r: Result<Table, MapError>)
        requires
            old(self).wf(),
            old(self).reaches(*t, f),
            t.level != Level::P1,
            index < 512,
            t.level == Level::P4 ==> index != 511,
            old(allocator).wf(),
            old(self).apart_from(old(allocator).free()),
        ensures
            final(self).wf(),
            final(allocator).wf(),
            final(self).apart_from(final(allocator).free()),
            old(self).grows_to(&*final(self), old(allocator).free()),
            final(allocator).free().subset_of(old(allocator).free()),
            old(self).entry(f, index).leads_on() ==> r == Ok::<Table, MapError>(t.child_spec(index)) && *final(self)
                == *old(self) && *final(allocator) == *old(allocator),
            !old(self).entry(f, index).leads_on() && old(self).entry(f, index).huge() ==> r == Err::<Table, MapError>(MapError::HugePage) && *final(self) == *old(self) && *final(allocator) == *old(allocator),
            !old(self).entry(f, index).leads_on() && !old(self).entry(f, index).huge() && old(
                allocator,
            ).free().is_empty() ==> r == Err::<Table, MapError>(MapError::OutOfFrames) && *final(self) == *old(self)
                && final(allocator).free() == old(allocator).free(),
            !old(self).entry(f, index).leads_on() && !old(self).entry(f, index).huge() && !old(
                allocator,
            ).free().is_empty() ==> r == Ok::<Table, MapError>(t.child_spec(index)) && old(allocator).free().contains(
                final(self).entry(f, index).frame,
            ) && final(allocator).free() == old(allocator).free().remove(
                final(self).entry(f, index).frame,
            ) && (forall|i: u64|
                i < 512 ==> #[trigger] final(self).entry(final(self).entry(f, index).frame, i)
                    == Entry::zero()),
            r matches Ok(c) ==> final(self).reaches(c, final(self).entry(f, index).frame),
            forall|i: u64| i < 512 && i != index ==> #[trigger] final(self).entry(f, i) == old(self).entry(f, i),
            forall|g: u64, i: u64|
                g < MAX_FRAMES && i < 512 && !(g == f && i == index) && old(self).is_table(g)
                    ==> #[trigger] final(self).entry(g, i) == old(self).entry(g, i),
            forall|g: u64, i: u64|
                final(self).is_table(g) && !old(self).is_table(g) && i < 512 ==> #[trigger] final(self).entry(g, i) == Entry::zero(),
            forall|g: u64| #[trigger] final(self).is_table(g) && !old(self).is_table(g) ==> g == final(self).entry(f, index).frame,
            forall|g: u64| #[trigger] old(self).parents().contains_key(g) ==> final(self).parents().contains_key(g)
                && final(self).parents()[g] == old(self).parents()[g],
    {
        proof {
            self.lemma_reaches(*t, f);
        }
        let e = self.read_entry(t, index, Ghost(f));
        if e.is_present() && !e.is_huge() {
            return Ok(t.child(index));
        }
        if e.is_huge() {
            return Err(MapError::HugePage);
        }
        let frame = match allocator.allocate_frame() {
            Some(frame) => frame,
            None => return Err(MapError::OutOfFrames),
        };
        proof {
            old(allocator).lemma_free_frames_valid();
            lemma_table_flags();
        }
        let ghost before = *self;
        let ghost n = frame.number;
        proof {
            assert(before.is_table(before.root()));
            assert(before.is_table(before.target()));
            assert(!before.is_table(n));
            assert(before.levels()[f] == t.level.depth());
            assert(f != before.root() || index != 511);
            assert(f != before.target() || index != 511);
        }
        self.set_entry(t, index, Entry { frame: frame.number, flags: PRESENT | WRITABLE }, Ghost(f));
        let child = t.child(index);
        assert(self.table_frame(child) == Some(n));
        let ghost mid = *self;
        assert(mid.entry(before.root(), 511) == before.entry(before.root(), 511));
        assert(mid.entry(before.target(), 511) == before.entry(before.target(), 511));
        self.zero_table(&child, Ghost(n));
        let ghost zeroed = *self;
        assert(self.entry(before.root(), 511) == mid.entry(before.root(), 511));
        assert(self.entry(before.target(), 511) == mid.entry(before.target(), 511));
        let ghost depth = t.level.depth();
        self.levels = Ghost(self.levels@.insert(n, depth - 1));
        self.parents = Ghost(self.parents@.insert(n, (f, index)));
        proof {
            assert forall|g: u64, i: u64|
                g < MAX_FRAMES && i < 512 && g != n && !(g == f && i == index) implies #[trigger] self.entry(g, i)
                    == before.entry(g, i) by {
                assert(mid.entry(g, i) == before.entry(g, i));
                assert(zeroed.entry(g, i) == mid.entry(g, i));
                assert(self.memory() == zeroed.memory());
            }
            assert(self.entry(self.root(), 511) == before.entry(before.root(), 511));
            assert(self.target() == before.target());
            assert(self.entry(self.target(), 511) == before.entry(before.target(), 511));
            assert forall|g: u64, i: u64|
                #![trigger self.levels().contains_key(g), self.entry(g, i)]
                self.is_table(g) && self.levels()[g] > 1 && i < 512 && !(self.levels()[g] == 4
                    && i == 511) && self.entry(g, i).leads_on() implies self.is_table(
                self.entry(g, i).frame,
            ) && self.levels()[self.entry(g, i).frame] == self.levels()[g] - 1
                && self.parents().contains_key(self.entry(g, i).frame) && self.parents()[self.entry(
                g,
                i,
            ).frame] == (g, i) by {
                if g == n {
                    assert(zeroed.entry(n, i) == Entry::zero());
                    assert(self.memory() == zeroed.memory());
                    lemma_zero_entry();
                } else if g == f && i == index {
                    assert(self.levels()[f] == before.levels()[f]);
                    assert(zeroed.entry(f, index) == mid.entry(f, index));
                    assert(self.memory() == zeroed.memory());
                    assert(self.entry(f, index).frame == n);
                    assert(self.levels()[n] == depth - 1);
                } else {
                    assert(before.levels().contains_key(g));
                    assert(g < MAX_FRAMES);
                    assert(mid.entry(g, i) == before.entry(g, i));
                    assert(zeroed.entry(g, i) == mid.entry(g, i));
                    assert(self.memory() == zeroed.memory());
                    assert(self.entry(g, i) == before.entry(g, i));
                    assert(self.levels()[g] == before.levels()[g]);
                    let h = before.entry(g, i).frame;
                    assert(before.levels().contains_key(h));
                    assert(h != n);
                    assert(self.levels()[h] == before.levels()[h]);
                }
            }
            assert(zeroed.entry(f, index) == mid.entry(f, index));
            assert(self.entry(f, index).frame == n);
            assert(self.entry(f, index).leads_on());
            match t.level {
                Level::P4 => {},
                Level::P3 => {
                    assert(before.levels()[before.target()] == 4);
                    assert(self.entry(self.target(), t.i1) == before.entry(before.target(), t.i1));
                },
                Level::P2 => {
                    let f3 = before.entry(before.target(), t.i2).frame;
                    assert(before.levels().contains_key(f3));
                    assert(before.levels()[f3] == 3);
                    assert(before.levels()[before.target()] == 4);
                    assert(self.entry(self.target(), t.i2) == before.entry(before.target(), t.i2));
                    assert(self.entry(f3, t.i1) == before.entry(f3, t.i1));
                },
                Level::P1 => {},
            }
            assert(self.reaches(child, n));
            assert(!before.entry(f, index).present());
            assert(before.grows_to(&*self, old(allocator).free()));
            assert forall|g: u64| #[trigger] before.parents().contains_key(g) implies self.parents().contains_key(g)
                && self.parents()[g] == before.parents()[g] by {
                assert(before.is_table(g));
            }
            assert forall|g: u64, i: u64|
                g < MAX_FRAMES && i < 512 && !(g == f && i == index) && before.is_table(g)
                    implies #[trigger] self.entry(g, i) == before.entry(g, i) by {
            }
            assert forall|i: u64| i < 512 implies #[trigger] self.entry(n, i) == Entry::zero() by {
                assert(zeroed.entry(n, i) == Entry::zero());
                assert(self.memory() == zeroed.memory());
            }
        }
        Ok(child)
    }

    /// Maps `page` to `frame` with `flags` and PRESENT in the edited
    /// hierarchy, making the missing tables from frames of `allocator`.
    pub fn map_to<A: FrameAllocator>(
        &mut self,
        page: Page,
        frame: Frame,
        flags: u64,
        allocator: &mut A,
    ) -> (r: Result<(), MapError>)
        requires
            old(self).wf(),
            old(allocator).wf(),
            old(self).apart_from(old(allocator).free()),
            frame.wf(),
            page.p4_spec() != 511,
        ensures
            final(self).wf(),
            final(allocator).wf(),
            final(self).apart_from(final(allocator).free()),
            old(self).grows_to(&*final(self), old(allocator).free()),
            final(allocator).free().subset_of(old(allocator).free()),
            (r == Err::<(), MapError>(MapError::HugePage)) == old(self).path_blocked(page),
            (r == Err::<(), MapError>(MapError::AlreadyMapped)) == (!old(self).path_blocked(page)
                && old(self).slot_in_use(page)),
            (r == Err::<(), MapError>(MapError::OutOfFrames)) == (!old(self).path_blocked(page)
                && !old(self).slot_in_use(page) && old(allocator).free().len() < old(
                self,
            ).tables_missing(page)),
            old(self).path_blocked(page) || old(self).slot_in_use(page) ==> *final(self) == *old(
                self,
            ) && *final(allocator) == *old(allocator),
            r is Ok ==> !final(self).maps_huge(page),
            r is Ok ==> old(self).maps_only(&*final(self), page),
            r is Ok ==> forall|q: u64| (Page { number: q }).p4_spec() != 511 && !Self::same_indices(page, Page { number: q })
                ==> #[trigger] final(self).translate_page_spec(Page { number: q }) == old(self).translate_page_spec(Page { number: q }),
            r == Err::<(), MapError>(MapError::OutOfFrames) ==> final(allocator).free().is_empty(),
            r is Ok ==> final(self).translate_page_spec(page) == Some(frame.number)
                && final(self).path_entry(page, 1) == (Entry {
                frame: frame.number,
                flags: flags | PRESENT,
            }) && final(allocator).free().len() + old(self).tables_missing(page) == old(
                allocator,
            ).free().len(),
    {
        let p4 = Table::p4();
        let a = page.p4_index();
        let b = page.p3_index();
        let c = page.p2_index();
        let d = page.p1_index();
        let ghost s0 = *self;
        let ghost al0 = *allocator;
        let ghost s0_free = allocator.free();
        proof {
            al0.lemma_free_frames_valid();
        }
        let ghost t4 = self.target();
        let p3 = match self.next_table_create(&p4, a, allocator, Ghost(t4)) {
            Ok(p3) => p3,
            Err(e) => return Err(e),
        };
        let ghost s1 = *self;
        let ghost al1 = *allocator;
        let ghost f3 = self.entry(t4, a).frame;
        proof {
            al1.lemma_free_frames_valid();
        }
        proof {
            lemma_zero_entry();
            if !s0.path_entry(page, 4).leads_on() {
                assert(s1.entry(f3, b) == Entry::zero());
                assert(al0.free().len() == al1.free().len() + 1);
            } else {
                assert(s1 == s0);
            }
            al1.lemma_free_frames_valid();
            if al1.free().len() == 0 {
                assert(al1.free() =~= Set::<u64>::empty());
            }
        }
        let p2 = match self.next_table_create(&p3, b, allocator, Ghost(f3)) {
            Ok(p2) => p2,
            Err(e) => return Err(e),
        };
        let ghost s2 = *self;
        let ghost al2 = *allocator;
        let ghost f2 = self.entry(f3, b).frame;
        proof {
            al2.lemma_free_frames_valid();
        }
        proof {
            if !s1.entry(f3, b).leads_on() {
                assert(s2.entry(f2, c) == Entry::zero());
                assert(al1.free().len() == al2.free().len() + 1);
            } else {
                assert(s2 == s1);
            }
            if al2.free().len() == 0 {
                assert(al2.free() =~= Set::<u64>::empty());
            }
            if s0.path_entry(page, 4).leads_on() {
                assert(s2.entry(f2, c) == s0.path_entry(page, 2) || !s0.path_entry(page, 3).leads_on());
            }
        }
        let p1 = match self.next_table_create(&p2, c, allocator, Ghost(f2)) {
            Ok(p1) => p1,
            Err(e) => return Err(e),
        };
        let ghost s3 = *self;
        let ghost al3 = *allocator;
        let ghost f1 = self.entry(f2, c).frame;
        proof {
            self.lemma_reaches(p1, f1);
            if !s2.entry(f2, c).leads_on() {
                assert(s3.entry(f1, d) == Entry::zero());
                assert(al2.free().len() == al3.free().len() + 1);
            } else {
                assert(s3 == s2);
            }
        }
        let e = self.read_entry(&p1, d, Ghost(f1));
        if !e.is_unused() {
            return Err(MapError::AlreadyMapped);
        }
        proof {
            lemma_with_present(flags);
        }
        self.set_entry(&p1, d, Entry { frame: frame.number, flags: flags | PRESENT }, Ghost(f1));
        proof {
            assert(s3.levels()[t4] == 4);
            assert(s3.levels()[f3] == 3);
            assert(s3.levels()[f2] == 2);
            assert(s3.levels()[f1] == 1);
            assert(self.entry(t4, a) == s3.entry(t4, a));
            assert(self.entry(f3, b) == s3.entry(f3, b));
            assert(self.entry(f2, c) == s3.entry(f2, c));
            lemma_indices_bounded(page);
            lemma_zero_entry();
            assert(s3.entry(t4, a) == s1.entry(t4, a));
            assert(s3.entry(f3, b) == s2.entry(f3, b));
            assert(self.path_entry(page, 4).frame == f3);
            assert(self.path_entry(page, 3).frame == f2);
            assert(self.path_entry(page, 2).frame == f1);
            assert forall|g: u64, i: u64|
                g < MAX_FRAMES && i < 512 && s0.is_table(g) && !self.on_path_slot(page, g, i)
                    implies #[trigger] self.entry(g, i) == s0.entry(g, i) by {
                assert(s1.entry(g, i) == s0.entry(g, i));
                assert(s1.is_table(g));
                assert(s2.entry(g, i) == s1.entry(g, i));
                assert(s2.is_table(g));
                assert(s3.entry(g, i) == s2.entry(g, i));
            }
            assert forall|g: u64, i: u64|
                self.is_table(g) && !s0.is_table(g) && i < 512 && !self.on_path_slot(page, g, i)
                    implies #[trigger] self.entry(g, i) == Entry::zero() by {
                if s1.is_table(g) {
                    assert(g == f3);
                    assert(s1.entry(g, i) == Entry::zero());
                    assert(s2.entry(g, i) == s1.entry(g, i));
                    assert(s3.entry(g, i) == s2.entry(g, i));
                } else if s2.is_table(g) {
                    assert(g == f2);
                    assert(s2.entry(g, i) == Entry::zero());
                    assert(s3.entry(g, i) == s2.entry(g, i));
                } else {
                    assert(g == f1);
                    assert(s3.entry(g, i) == Entry::zero());
                }
            }
            assert forall|q: u64| (Page { number: q }).p4_spec() != 511 && !Self::same_indices(page, Page { number: q })
                implies #[trigger] self.translate_page_spec(Page { number: q }) == s0.translate_page_spec(Page { number: q }) by {
                s0.lemma_maps_only_keeps_translation(&*self, s0_free, page, Page { number: q });
            }
            if s0.is_table(f2) {
                if !s0.is_table(f3) {
                    assert(s1.entry(f3, b) == Entry::zero());
                    assert(!s2.is_table(f2) || s1.is_table(f2));
                }
            }
            if s0.is_table(f1) {
                if !s0.is_table(f2) {
                    if s1.is_table(f2) {
                        assert(s1.entry(f2, c) == Entry::zero());
                    } else {
                        assert(s2.entry(f2, c) == Entry::zero());
                    }
                }
            }
        }
        Ok(())
    }

    /// Maps the page whose number is the frame's number to that frame.
    pub fn identity_map<A: FrameAllocator>(
        &mut self,
        frame: Frame,
        flags: u64,
        allocator: &mut A,
    ) -> (r: Result<(), MapError>)
        requires
            old(self).wf(),
            old(allocator).wf(),
            old(self).apart_from(old(allocator).free()),
            frame.wf(),
            (Page { number: frame.number }).p4_spec() != 511,
        ensures
            final(self).wf(),
            final(allocator).wf(),
            final(self).apart_from(final(allocator).free()),
            old(self).grows_to(&*final(self), old(allocator).free()),
            final(allocator).free().subset_of(old(allocator).free()),
            ({
                let page = Page { number: frame.number };
                &&& (r == Err::<(), MapError>(MapError::HugePage)) == old(self).path_blocked(page)
                &&& (r == Err::<(), MapError>(MapError::AlreadyMapped)) == (!old(self).path_blocked(
                    page,
                ) && old(self).slot_in_use(page))
                &&& (r == Err::<(), MapError>(MapError::OutOfFrames)) == (!old(self).path_blocked(
                    page,
                ) && !old(self).slot_in_use(page) && old(allocator).free().len() < old(
                    self,
                ).tables_missing(page))
                &&& r is Ok ==> !final(self).maps_huge(page)
                &&& r is Ok ==> old(self).maps_only(&*final(self), page)
                &&& r is Ok ==> forall|q: u64| (Page { number: q }).p4_spec() != 511 && !Self::same_indices(page, Page { number: q })
                    ==> #[trigger] final(self).translate_page_spec(Page { number: q }) == old(self).translate_page_spec(Page { number: q })
                &&& r == Err::<(), MapError>(MapError::OutOfFrames) ==> final(allocator).free().is_empty()
                &&& r is Ok ==> final(self).translate_page_spec(page) == Some(frame.number)
                    && final(self).path_entry(page, 1) == (Entry {
                    frame: frame.number,
                    flags: flags | PRESENT,
                })
            }),
    {
        let page = Page { number: frame.number };
        self.map_to(page, frame, flags, allocator)
    }

    /// Maps `page` to a frame taken from `allocator`; when the mapping
    /// fails, the frame goes back.
    pub fn map<A: FrameAllocator>(&mut self, page: Page, flags: u64, allocator: &mut A) -> (r: Result<
        (),
        MapError,
    >)
        requires
            old(self).wf(),
            old(allocator).wf(),
            old(self).apart_from(old(allocator).free()),
            page.p4_spec() != 511,
        ensures
            final(self).wf(),
            final(allocator).wf(),
            final(self).apart_from(final(allocator).free()),
            old(self).grows_to(&*final(self), old(allocator).free()),
            final(allocator).free().subset_of(old(allocator).free()),
            (r == Err::<(), MapError>(MapError::OutOfFrames)) == (old(allocator).free().is_empty() || (
            !old(self).path_blocked(page) && !old(self).slot_in_use(page) && old(
                allocator,
            ).free().len() < old(self).tables_missing(page) + 1)),
            (r == Err::<(), MapError>(MapError::HugePage)) == (old(self).path_blocked(page) && !old(
                allocator,
            ).free().is_empty()),
            (r == Err::<(), MapError>(MapError::AlreadyMapped)) == (!old(self).path_blocked(page)
                && old(self).slot_in_use(page) && !old(allocator).free().is_empty()),
            old(self).path_blocked(page) || old(self).slot_in_use(page) ==> *final(self) == *old(
                self,
            ) && final(allocator).free() == old(allocator).free(),
            r is Ok ==> !final(self).maps_huge(page) && (final(self).translate_page_spec(page) matches Some(f)
                && old(allocator).free().contains(f) && !final(allocator).free().contains(f)),
            r is Ok ==> old(self).maps_only(&*final(self), page),
            r is Ok ==> forall|q: u64| (Page { number: q }).p4_spec() != 511 && !Self::same_indices(page, Page { number: q })
                ==> #[trigger] final(self).translate_page_spec(Page { number: q }) == old(self).translate_page_spec(Page { number: q }),
    {
        proof {
            old(allocator).lemma_free_frames_valid();
            if old(allocator).free().len() == 0 {
                assert(old(allocator).free() =~= Set::<u64>::empty());
            }
        }
        let frame = match allocator.allocate_frame() {
            Some(frame) => frame,
            None => return Err(MapError::OutOfFrames),
        };
        let ghost mid = *self;
        let ghost free1 = allocator.free();
        proof {
            assert(mid.grows_to(&mid, old(allocator).free()));
            allocator.lemma_free_frames_valid();
            assert(free1.len() + 1 == old(allocator).free().len());
            if free1.len() == 0 {
                assert(free1 =~= Set::<u64>::empty());
            }
        }
        let r = self.map_to(page, frame, flags, allocator);
        match r {
            Ok(()) => {
                proof {
                    assert(!mid.path_blocked(page));
                    assert(!mid.slot_in_use(page));
                    assert(free1.len() >= mid.tables_missing(page));
                    assert(mid == *old(self));
                }
                Ok(())
            },
            Err(e) => {
                proof {
                    assert(!mid.is_table(frame.number));
                    assert(!self.is_table(frame.number));
                }
                let ghost free2 = allocator.free();
                allocator.deallocate_frame(frame);
                proof {
                    assert(free2.subset_of(free1));
                    assert(allocator.free().subset_of(old(allocator).free()));
                    if mid.path_blocked(page) || mid.slot_in_use(page) {
                        assert(allocator.free() =~= old(allocator).free());
                    }
                }
                Err(e)
            },
        }
    }

    /// The page maps through a huge page rather than through a P1 slot.
    pub open spec fn maps_huge(&self, page: Page) -> bool {
        !self.full_path_from(self.target(), page)
    }

    /// Table `g` is a P1 that the hierarchy of the P4 in `root` leads to.
    pub open spec fn rooted_at(&self, g: u64, root: u64) -> bool {
        let p2 = self.parents()[g].0;
        let p3 = self.parents()[p2].0;
        &&& self.parents().contains_key(g)
        &&& self.parents().contains_key(p2)
        &&& self.parents().contains_key(p3)
        &&& self.parents()[p3].0 == root
    }

    /// The tables on a full walk from a P4 sit one level below each other,
    /// each led to from the slot the walk takes.
    pub proof fn lemma_path_parents(&self, root: u64, page: Page)
        requires
            self.wf(),
            self.is_table(root),
            self.levels()[root] == 4,
            page.p4_spec() != 511,
            self.full_path_from(root, page),
        ensures
            ({
                let f3 = self.path_from(root, page, 4).frame;
                let f2 = self.path_from(root, page, 3).frame;
                let f1 = self.path_from(root, page, 2).frame;
                &&& self.is_table(f3) && self.levels()[f3] == 3
                &&& self.is_table(f2) && self.levels()[f2] == 2
                &&& self.is_table(f1) && self.levels()[f1] == 1
                &&& self.parents()[f3] == (root, page.p4_spec())
                &&& self.parents()[f2] == (f3, page.p3_spec())
                &&& self.parents()[f1] == (f2, page.p2_spec())
                &&& self.rooted_at(f1, root)
            }),
    {
        crate::address::lemma_indices_bounded(page);
        let f3 = self.path_from(root, page, 4).frame;
        let f2 = self.path_from(root, page, 3).frame;
        assert(self.levels().contains_key(root));
        assert(self.entry(root, page.p4_spec()).leads_on());
        assert(self.levels().contains_key(f3));
        assert(self.entry(f3, page.p3_spec()).leads_on());
        assert(self.levels().contains_key(f2));
        assert(self.entry(f2, page.p2_spec()).leads_on());
    }

    /// Clears the P1 slot of `page` in the edited hierarchy and returns the
    /// frame it held.
    pub fn unmap_entry(&mut self, page: Page) -> (r: Result<Frame, UnmapError>)
        requires
            old(self).wf(),
            page.p4_spec() != 511,
        ensures
            final(self).wf(),
            final(self).root() == old(self).root(),
            final(self).target() == old(self).target(),
            final(self).levels() == old(self).levels(),
            (r == Err::<Frame, UnmapError>(UnmapError::NotMapped)) == old(self).translate_page_spec(
                page,
            ).is_none(),
            (r == Err::<Frame, UnmapError>(UnmapError::HugePage)) == (old(self).translate_page_spec(
                page,
            ).is_some() && old(self).maps_huge(page)),
            r is Err ==> *final(self) == *old(self),
            r matches Ok(f) ==> final(self).translate_page_spec(page).is_none() && Some(f.number)
                == old(self).translate_page_spec(page) && f.wf(),
            r is Ok ==> old(self).is_table(old(self).path_entry(page, 2).frame) && old(self).levels()[old(self).path_entry(page, 2).frame] == 1
                && old(self).rooted_at(old(self).path_entry(page, 2).frame, old(self).target()),
            final(self).parents() == old(self).parents(),
            r is Ok ==> final(self).full_path_from(final(self).target(), page) && final(self).path_entry(page, 1) == Entry::zero(),
            forall|q: u64| (Page { number: q }).p4_spec() != 511 && !Self::same_indices(page, Page { number: q })
                ==> #[trigger] final(self).translate_page_spec(Page { number: q }) == old(self).translate_page_spec(Page { number: q }),
            r is Ok ==> forall|g: u64, i: u64|
                g < MAX_FRAMES && i < 512 && !(g == old(self).path_entry(page, 2).frame && i
                    == page.p1_spec()) ==> #[trigger] final(self).entry(g, i) == old(self).entry(
                    g,
                    i,
                ),
    {
        if self.translate_page(page).is_none() {
            return Err(UnmapError::NotMapped);
        }
        let p4 = Table::p4();
        proof {
            self.lemma_p4();
        }
        let ghost t4 = self.target();
        let p3 = match self.next_table(&p4, page.p4_index(), Ghost(t4)) {
            Some(p3) => p3,
            None => return Err(UnmapError::HugePage),
        };
        let ghost f3 = self.entry(t4, page.p4_spec()).frame;
        proof {
            assert(self.reaches(p3, f3));
        }
        let p2 = match self.next_table(&p3, page.p3_index(), Ghost(f3)) {
            Some(p2) => p2,
            None => return Err(UnmapError::HugePage),
        };
        let ghost f2 = self.entry(f3, page.p3_spec()).frame;
        proof {
            assert(self.reaches(p2, f2));
            self.lemma_reaches(p3, f3);
        }
        let p1 = match self.next_table(&p2, page.p2_index(), Ghost(f2)) {
            Some(p1) => p1,
            None => return Err(UnmapError::HugePage),
        };
        let ghost f1 = self.entry(f2, page.p2_spec()).frame;
        proof {
            assert(self.reaches(p1, f1));
            self.lemma_reaches(p2, f2);
            self.lemma_reaches(p1, f1);
        }
        let e = self.read_entry(&p1, page.p1_index(), Ghost(f1));
        let ghost before = *self;
        self.set_entry(&p1, page.p1_index(), Entry::unused(), Ghost(f1));
        proof {
            lemma_zero_entry();
            assert(self.entry(t4, page.p4_spec()) == before.entry(t4, page.p4_spec()));
            assert(self.entry(f3, page.p3_spec()) == before.entry(f3, page.p3_spec()));
            assert(self.entry(f2, page.p2_spec()) == before.entry(f2, page.p2_spec()));
            assert(self.entry(self.root(), 511) == before.entry(before.root(), 511));
            assert(self.entry(t4, 511) == before.entry(t4, 511));
            assert forall|g: u64, i: u64|
                #![trigger self.levels().contains_key(g), self.entry(g, i)]
                self.is_table(g) && self.levels()[g] > 1 && i < 512 && !(self.levels()[g] == 4
                    && i == 511) && self.entry(g, i).leads_on() implies self.is_table(
                self.entry(g, i).frame,
            ) && self.levels()[self.entry(g, i).frame] == self.levels()[g] - 1
                && self.parents().contains_key(self.entry(g, i).frame) && self.parents()[self.entry(
                g,
                i,
            ).frame] == (g, i) by {
                assert(before.levels().contains_key(g));
                assert(g < MAX_FRAMES);
                if g == f1 && i == page.p1_spec() {
                } else {
                    assert(self.entry(g, i) == before.entry(g, i));
                }
            }
        }
        proof {
            assert forall|q: u64| (Page { number: q }).p4_spec() != 511 && !Self::same_indices(page, Page { number: q })
                implies #[trigger] self.translate_page_spec(Page { number: q }) == before.translate_page_spec(Page { number: q }) by {
                before.lemma_clear_keeps_translation(&*self, page, Page { number: q });
            }
        }
        Ok(Frame { number: e.frame })
    }

    /// Removes the mapping of `page` from the edited hierarchy and gives
    /// its frame back to `allocator`.
    pub fn unmap<A: FrameAllocator>(&mut self, page: Page, allocator: &mut A) -> (r: Result<
        (),
        UnmapError,
    >)
        requires
            old(self).wf(),
            old(allocator).wf(),
            page.p4_spec() != 511,
            old(self).translate_page_spec(page) matches Some(f) ==> !old(allocator).free().contains(
                f,
            ),
        ensures
            final(self).wf(),
            final(allocator).wf(),
            final(self).root() == old(self).root(),
            final(self).target() == old(self).target(),
            final(self).levels() == old(self).levels(),
            (r == Err::<(), UnmapError>(UnmapError::NotMapped)) == old(self).translate_page_spec(
                page,
            ).is_none(),
            (r == Err::<(), UnmapError>(UnmapError::HugePage)) == (old(self).translate_page_spec(
                page,
            ).is_some() && old(self).maps_huge(page)),
            r is Err ==> *final(self) == *old(self) && *final(allocator) == *old(allocator),
            r is Ok ==> final(self).translate_page_spec(page).is_none() && final(allocator).free()
                == old(allocator).free().insert(old(self).translate_page_spec(page).unwrap()),
            r is Ok ==> forall|g: u64, i: u64|
                g < MAX_FRAMES && i < 512 && !(g == old(self).path_entry(page, 2).frame && i
                    == page.p1_spec()) ==> #[trigger] final(self).entry(g, i) == old(self).entry(
                    g,
                    i,
                ),
    {
        match self.unmap_entry(page) {
            Ok(frame) => {
                allocator.deallocate_frame(frame);
                Ok(())
            },
            Err(e) => Err(e),
        }
    }

    /// A machine whose table-base register names `root`, a P4 that maps
    /// nothing and whose slot 511 points back to it.
    pub fn new(root: Frame) -> (r: Mapper)
        requires
            root.wf(),
        ensures
            r.wf(),
            r.root() == root.number,
            r.target() == root.number,
            r.levels() == Map::<u64, int>::empty().insert(root.number, 4),
            forall|i: u64| i < 511 ==> #[trigger] r.entry(root.number, i) == Entry::zero(),
            forall|g: u64, i: u64|
                g < MAX_FRAMES && i < 512 && g != root.number ==> #[trigger] r.entry(g, i) == Entry::zero(),
    {
        let mut memory = PhysicalMemory::new();
        proof {
            lemma_table_flags();
            lemma_zero_entry();
        }
        memory.write(root.number, 511, Entry { frame: root.number, flags: PRESENT | WRITABLE });
        Mapper {
            memory,
            cr3: root.number,
            levels: Ghost(Map::<u64, int>::empty().insert(root.number, 4)),
            parents: Ghost(Map::empty()),
        }
    }

    /// The frame that the table-base register names.
    pub fn root_frame(&self) -> (r: Frame)
        requires
            self.wf(),
        ensures
            r.number == self.root(),
            r.wf(),
    {
        Frame { number: self.cr3 }
    }

    /// The frame that the MMU finds for `page`, walking four levels from
    /// the table-base register.
    pub open spec fn mmu_page(&self, page: Page) -> Option<u64> {
        let e1 = self.path_from(self.root(), page, 1);
        if self.full_path_from(self.root(), page) && e1.present() {
            Some(e1.frame)
        } else {
            None
        }
    }

    /// The frame behind `page`, found through the MMU.
    fn resolve_page(&self, page: Page) -> (r: Option<u64>)
        requires
            self.memory().wf(),
            self.root() < MAX_FRAMES,
        ensures
            r == self.mmu_page(page),
            r matches Some(f) ==> f < MAX_FRAMES,
    {
        let e4 = self.memory.read(self.cr3, page.p4_index());
        if !e4.is_present() || e4.is_huge() {
            return None;
        }
        let e3 = self.memory.read(e4.frame, page.p3_index());
        if !e3.is_present() || e3.is_huge() {
            return None;
        }
        let e2 = self.memory.read(e3.frame, page.p2_index());
        if !e2.is_present() || e2.is_huge() {
            return None;
        }
        let e1 = self.memory.read(e2.frame, page.p1_index());
        if !e1.is_present() {
            return None;
        }
        Some(e1.frame)
    }

    /// Growing keeps what the MMU finds for a page outside slot 511.
    pub proof fn lemma_grows_keeps_mmu_page(&self, b: &Mapper, s: Set<u64>, page: Page)
        requires
            self.wf(),
            self.grows_to(b, s),
            self.mmu_page(page).is_some(),
            page.p4_spec() != 511,
        ensures
            b.mmu_page(page) == self.mmu_page(page),
    {
        lemma_indices_bounded(page);
        let r = self.root();
        assert(self.levels().contains_key(r));
        let e4 = self.entry(r, page.p4_spec());
        assert(b.entry(r, page.p4_spec()) == e4);
        let g3 = e4.frame;
        assert(self.levels().contains_key(g3) && self.levels()[g3] == 3);
        assert(b.entry(g3, page.p3_spec()) == self.entry(g3, page.p3_spec()));
        let g2 = self.entry(g3, page.p3_spec()).frame;
        assert(self.levels().contains_key(g2) && self.levels()[g2] == 2);
        assert(b.entry(g2, page.p2_spec()) == self.entry(g2, page.p2_spec()));
        let g1 = self.entry(g2, page.p2_spec()).frame;
        assert(self.levels().contains_key(g1));
        assert(b.entry(g1, page.p1_spec()) == self.entry(g1, page.p1_spec()));
    }

    /// Entry `index` of the table in `frame`, read from physical memory.
    pub fn read_table_entry(&self, frame: Frame, index: u64) -> (r: Entry)
        requires
            self.wf(),
            frame.wf(),
            index < 512,
        ensures
            r == self.entry(frame.number, index),
    {
        self.memory.read(frame.number, index)
    }

    /// `frame` holds a P4 that is not in use and whose slot 511 points
    /// back to it.
    pub open spec fn is_inactive_p4(&self, frame: u64) -> bool {
        &&& self.is_table(frame)
        &&& self.levels()[frame] == 4
        &&& self.entry(frame, 511).leads_on()
        &&& self.entry(frame, 511).frame == frame
    }

    /// Zeroes the table in `frame`, reached through `page`, and points its
    /// slot 511 back to it: `frame` then holds a P4 of its own.
    pub fn format_p4(&mut self, page: Page, frame: Frame)
        requires
            old(self).wf(),
            old(self).mmu_page(page) == Some(frame.number),
            frame.wf(),
            !old(self).is_table(frame.number),
        ensures
            final(self).wf(),
            final(self).root() == old(self).root(),
            final(self).target() == old(self).target(),
            final(self).levels() == old(self).levels().insert(frame.number, 4),
            final(self).is_inactive_p4(frame.number),
            final(self).entry(frame.number, 511) == (Entry { frame: frame.number, flags: PRESENT | WRITABLE }),
            forall|i: u64| i < 511 ==> #[trigger] final(self).entry(frame.number, i) == Entry::zero(),
            forall|g: u64, i: u64|
                g < MAX_FRAMES && i < 512 && g != frame.number ==> #[trigger] final(self).entry(g, i)
                    == old(self).entry(g, i),
    {
        let ghost before = *self;
        proof {
            lemma_table_flags();
            lemma_zero_entry();
            assert(before.is_table(before.root()));
            assert(before.is_table(before.target()));
        }
        let f = match self.resolve_page(page) {
            Some(f) => f,
            None => frame.number,
        };
        self.memory.zero(f);
        self.memory.write(f, 511, Entry { frame: frame.number, flags: PRESENT | WRITABLE });
        self.levels = Ghost(self.levels@.insert(frame.number, 4));
        proof {
            assert(self.entry(self.root(), 511) == before.entry(before.root(), 511));
            assert(self.entry(before.target(), 511) == before.entry(before.target(), 511));
            assert forall|g: u64| #[trigger] self.parents().contains_key(g) implies self.is_table(g)
                && self.levels()[g] < 4 by {
                assert(before.parents().contains_key(g));
            }
            assert forall|g: u64, i: u64|
                #![trigger self.levels().contains_key(g), self.entry(g, i)]
                self.is_table(g) && self.levels()[g] > 1 && i < 512 && !(self.levels()[g] == 4
                    && i == 511) && self.entry(g, i).leads_on() implies self.is_table(
                self.entry(g, i).frame,
            ) && self.levels()[self.entry(g, i).frame] == self.levels()[g] - 1
                && self.parents().contains_key(self.entry(g, i).frame) && self.parents()[self.entry(
                g,
                i,
            ).frame] == (g, i) by {
                if g != frame.number {
                    assert(before.levels().contains_key(g));
                    assert(self.entry(g, i) == before.entry(g, i));
                    assert(before.is_table(before.entry(g, i).frame));
                }
            }
        }
    }

    /// Points slot 511 of the active P4, reached through `page`, at the P4
    /// in `frame`. The walker then edits that P4's hierarchy.
    pub fn set_recursive_slot(&mut self, page: Page, frame: Frame)
        requires
            old(self).wf(),
            old(self).mmu_page(page) == Some(old(self).root()),
            old(self).is_inactive_p4(frame.number),
        ensures
            final(self).parents() == old(self).parents(),
            final(self).wf(),
            final(self).root() == old(self).root(),
            final(self).target() == frame.number,
            final(self).levels() == old(self).levels(),
            final(self).entry(old(self).root(), 511) == (Entry {
                frame: frame.number,
                flags: PRESENT | WRITABLE,
            }),
            forall|g: u64, i: u64|
                g < MAX_FRAMES && i < 512 && !(g == old(self).root() && i == 511) ==> #[trigger] final(self).entry(g, i) == old(self).entry(g, i),
    {
        let ghost before = *self;
        proof {
            lemma_table_flags();
        }
        let f = match self.resolve_page(page) {
            Some(f) => f,
            None => self.cr3,
        };
        self.memory.write(f, 511, Entry { frame: frame.number, flags: PRESENT | WRITABLE });
        proof {
            assert forall|g: u64| #[trigger] self.parents().contains_key(g) implies self.is_table(g)
                && self.levels()[g] < 4 by {
                assert(before.parents().contains_key(g));
            }
            assert forall|g: u64, i: u64|
                #![trigger self.levels().contains_key(g), self.entry(g, i)]
                self.is_table(g) && self.levels()[g] > 1 && i < 512 && !(self.levels()[g] == 4
                    && i == 511) && self.entry(g, i).leads_on() implies self.is_table(
                self.entry(g, i).frame,
            ) && self.levels()[self.entry(g, i).frame] == self.levels()[g] - 1
                && self.parents().contains_key(self.entry(g, i).frame) && self.parents()[self.entry(
                g,
                i,
            ).frame] == (g, i) by {
                assert(before.levels().contains_key(g));
                assert(g < MAX_FRAMES);
                assert(self.entry(g, i) == before.entry(g, i));
            }
            if frame.number != before.root() {
                assert(self.entry(frame.number, 511) == before.entry(frame.number, 511));
            }
        }
    }

    /// Loads `frame` into the table-base register and returns the frame it
    /// named before.
    pub fn load_root(&mut self, frame: Frame) -> (r: Frame)
        requires
            old(self).wf(),
            old(self).is_inactive_p4(frame.number),
        ensures
            final(self).parents() == old(self).parents(),
            final(self).wf(),
            r.number == old(self).root(),
            r.wf(),
            final(self).root() == frame.number,
            final(self).target() == frame.number,
            final(self).levels() == old(self).levels(),
            final(self).memory() == old(self).memory(),
    {
        let old_root = Frame { number: self.cr3 };
        proof {
            lemma_table_flags();
        }
        let ghost before = *self;
        self.cr3 = frame.number;
        proof {
            assert(self.memory() == before.memory());
            assert(self.levels() == before.levels());
            assert(self.root() == frame.number);
            assert(self.entry(frame.number, 511).leads_on());
            assert(self.target() == frame.number);
            assert forall|g: u64| #[trigger] self.parents().contains_key(g) implies self.is_table(g)
                && self.levels()[g] < 4 by {
                assert(before.parents().contains_key(g));
            }
            assert forall|g: u64, i: u64|
                #![trigger self.levels().contains_key(g), self.entry(g, i)]
                self.is_table(g) && self.levels()[g] > 1 && i < 512 && !(self.levels()[g] == 4
                    && i == 511) && self.entry(g, i).leads_on() implies self.is_table(
                self.entry(g, i).frame,
            ) && self.levels()[self.entry(g, i).frame] == self.levels()[g] - 1
                && self.parents().contains_key(self.entry(g, i).frame) && self.parents()[self.entry(
                g,
                i,
            ).frame] == (g, i) by {
                assert(before.levels().contains_key(g));
                assert(self.entry(g, i) == before.entry(g, i));
            }
        }
        old_root
    }

    /// Stops counting the P4 in `frame` as a table; nothing but its own
    /// slot 511 leads to it.
    pub fn retire_p4(&mut self, frame: Frame)
        requires
            old(self).wf(),
            old(self).is_table(frame.number),
            old(self).levels()[frame.number] == 4,
            frame.number != old(self).root(),
            frame.number != old(self).target(),
        ensures
            final(self).parents() == old(self).parents(),
            final(self).wf(),
            final(self).root() == old(self).root(),
            final(self).target() == old(self).target(),
            final(self).memory() == old(self).memory(),
            final(self).levels() == old(self).levels().remove(frame.number),
    {
        let ghost before = *self;
        self.levels = Ghost(self.levels@.remove(frame.number));
        proof {
            assert forall|g: u64| #[trigger] self.parents().contains_key(g) implies self.is_table(g)
                && self.levels()[g] < 4 by {
                assert(before.parents().contains_key(g));
            }
            assert forall|g: u64, i: u64|
                #![trigger self.levels().contains_key(g), self.entry(g, i)]
                self.is_table(g) && self.levels()[g] > 1 && i < 512 && !(self.levels()[g] == 4
                    && i == 511) && self.entry(g, i).leads_on() implies self.is_table(
                self.entry(g, i).frame,
            ) && self.levels()[self.entry(g, i).frame] == self.levels()[g] - 1
                && self.parents().contains_key(self.entry(g, i).frame) && self.parents()[self.entry(
                g,
                i,
            ).frame] == (g, i) by {
                assert(before.levels().contains_key(g));
                assert(before.levels()[before.entry(g, i).frame] == before.levels()[g] - 1);
            }
        }
    }

    /// Points slot 511 of the active P4, reached through `page`, back at
    /// the active P4. The walker then edits the active hierarchy again.
    pub fn reset_recursive_slot(&mut self, page: Page)
        requires
            old(self).wf(),
            old(self).mmu_page(page) == Some(old(self).root()),
        ensures
            final(self).entry(old(self).root(), 511) == (Entry { frame: old(self).root(), flags: PRESENT | WRITABLE }),
            final(self).parents() == old(self).parents(),
            final(self).wf(),
            final(self).root() == old(self).root(),
            final(self).target() == old(self).root(),
            final(self).levels() == old(self).levels(),
            forall|g: u64, i: u64|
                g < MAX_FRAMES && i < 512 && !(g == old(self).root() && i == 511) ==> #[trigger] final(self).entry(g, i) == old(self).entry(g, i),
    {
        let ghost before = *self;
        proof {
            lemma_table_flags();
        }
        let f = match self.resolve_page(page) {
            Some(f) => f,
            None => self.cr3,
        };
        self.memory.write(f, 511, Entry { frame: self.cr3, flags: PRESENT | WRITABLE });
        proof {
            assert forall|g: u64| #[trigger] self.parents().contains_key(g) implies self.is_table(g)
                && self.levels()[g] < 4 by {
                assert(before.parents().contains_key(g));
            }
            assert forall|g: u64, i: u64|
                #![trigger self.levels().contains_key(g), self.entry(g, i)]
                self.is_table(g) && self.levels()[g] > 1 && i < 512 && !(self.levels()[g] == 4
                    && i == 511) && self.entry(g, i).leads_on() implies self.is_table(
                self.entry(g, i).frame,
            ) && self.levels()[self.entry(g, i).frame] == self.levels()[g] - 1
                && self.parents().contains_key(self.entry(g, i).frame) && self.parents()[self.entry(
                g,
                i,
            ).frame] == (g, i) by {
                assert(before.levels().contains_key(g));
                assert(g < MAX_FRAMES);
                assert(self.entry(g, i) == before.entry(g, i));
            }
        }
    }

    /// One step of a walk from the edited P4 stays among the tables, one
    /// level down, or at the edited P4 through its slot 511.
    proof fn lemma_step(&self, g: u64, i: u64)
        requires
            self.wf(),
            self.is_table(g),
            self.levels()[g] > 1,
            i < 512,
            self.entry(g, i).leads_on(),
            self.levels()[g] == 4 ==> g == self.target(),
        ensures
            self.is_table(self.entry(g, i).frame),
            self.levels()[self.entry(g, i).frame] >= self.levels()[g] - 1,
            self.levels()[self.entry(g, i).frame] == 4 ==> self.entry(g, i).frame == self.target(),
    {
        assert(self.levels().contains_key(g));
        if self.levels()[g] == 4 && i == 511 {
        } else {
            assert(self.levels()[self.entry(g, i).frame] == self.levels()[g] - 1);
        }
    }

    /// Growing keeps every mapping that was there.
    pub proof fn lemma_grows_keeps_translation(&self, b: &Mapper, s: Set<u64>, page: Page)
        requires
            self.wf(),
            self.grows_to(b, s),
            self.translate_page_spec(page).is_some(),
        ensures
            b.translate_page_spec(page) == self.translate_page_spec(page),
            !self.maps_huge(page) ==> !b.maps_huge(page),
            !self.maps_huge(page) ==> b.path_entry(page, 1) == self.path_entry(page, 1),
    {
        crate::address::lemma_indices_bounded(page);
        let t = self.target();
        assert(self.levels().contains_key(t));
        let e4 = self.entry(t, page.p4_spec());
        assert(b.entry(t, page.p4_spec()) == e4);
        self.lemma_step(t, page.p4_spec());
        let f3 = e4.frame;
        let e3 = self.entry(f3, page.p3_spec());
        assert(b.entry(f3, page.p3_spec()) == e3);
        if !e3.huge() {
            self.lemma_step(f3, page.p3_spec());
            let f2 = e3.frame;
            let e2 = self.entry(f2, page.p2_spec());
            assert(b.entry(f2, page.p2_spec()) == e2);
            if !e2.huge() {
                self.lemma_step(f2, page.p2_spec());
                let f1 = e2.frame;
                assert(b.entry(f1, page.p1_spec()) == self.entry(f1, page.p1_spec()));
            }
        }
    }

    /// Mapping `page` would meet no huge page and no slot in use.
    pub open spec fn clean(&self, page: Page) -> bool {
        !self.path_blocked(page) && !self.slot_in_use(page)
    }

    /// A successful `map_to(page, ..)` leaves every page with other table
    /// indices as ready to be mapped as it was.
    pub proof fn lemma_maps_only_keeps_clean(&self, new: &Mapper, s: Set<u64>, page: Page, q: Page)
        requires
            self.wf(),
            new.wf(),
            self.grows_to(new, s),
            self.maps_only(new, page),
            !new.maps_huge(page),
            page.p4_spec() != 511,
            q.p4_spec() != 511,
            q.p4_spec() != page.p4_spec() || q.p3_spec() != page.p3_spec() || q.p2_spec()
                != page.p2_spec() || q.p1_spec() != page.p1_spec(),
            self.clean(q),
        ensures
            new.clean(q),
    {
        lemma_indices_bounded(page);
        lemma_indices_bounded(q);
        lemma_zero_entry();
        let t = new.target();
        new.lemma_path_parents(t, page);
        let f3 = new.path_entry(page, 4).frame;
        let f2 = new.path_entry(page, 3).frame;
        let f1 = new.path_entry(page, 2).frame;
        let (a, b, c, d) = (page.p4_spec(), page.p3_spec(), page.p2_spec(), page.p1_spec());
        let (a2, b2, c2, d2) = (q.p4_spec(), q.p3_spec(), q.p2_spec(), q.p1_spec());
        assert(self.levels().contains_key(t));
        assert(new.levels()[t] == 4);
        // The start of the walk for q, in the old tables, that differs from
        // the walk for page.
        if a2 != a {
            assert(new.entry(t, a2) == self.entry(t, a2));
            let e4 = self.entry(t, a2);
            if e4.leads_on() {
                let g3 = e4.frame;
                assert(self.levels().contains_key(g3) && self.levels()[g3] == 3);
                assert(self.parents()[g3] == (t, a2));
                assert(new.entry(g3, b2) == self.entry(g3, b2));
                let e3 = self.entry(g3, b2);
                if e3.leads_on() {
                    let g2 = e3.frame;
                    assert(self.levels().contains_key(g2) && self.levels()[g2] == 2);
                    assert(self.parents()[g2] == (g3, b2));
                    assert(new.entry(g2, c2) == self.entry(g2, c2));
                    let e2 = self.entry(g2, c2);
                    if e2.leads_on() {
                        let g1 = e2.frame;
                        assert(self.levels().contains_key(g1) && self.levels()[g1] == 1);
                        assert(self.parents()[g1] == (g2, c2));
                        assert(new.entry(g1, d2) == self.entry(g1, d2));
                    }
                }
            }
        } else if b2 != b {
            if self.is_table(f3) {
                assert(new.entry(f3, b2) == self.entry(f3, b2));
                let e3 = self.entry(f3, b2);
                if e3.leads_on() {
                    let g2 = e3.frame;
                    assert(self.levels().contains_key(f3));
                    assert(self.levels().contains_key(g2) && self.levels()[g2] == 2);
                    assert(self.parents()[g2] == (f3, b2));
                    assert(new.entry(g2, c2) == self.entry(g2, c2));
                    let e2 = self.entry(g2, c2);
                    if e2.leads_on() {
                        let g1 = e2.frame;
                        assert(self.levels().contains_key(g1) && self.levels()[g1] == 1);
                        assert(self.parents()[g1] == (g2, c2));
                        assert(new.entry(g1, d2) == self.entry(g1, d2));
                    }
                }
            } else {
                assert(new.entry(f3, b2) == Entry::zero());
            }
        } else if c2 != c {
            if self.is_table(f2) {
                assert(new.entry(f2, c2) == self.entry(f2, c2));
                let e2 = self.entry(f2, c2);
                if e2.leads_on() {
                    let g1 = e2.frame;
                    assert(self.levels().contains_key(f2));
                    assert(self.levels().contains_key(g1) && self.levels()[g1] == 1);
                    assert(self.parents()[g1] == (f2, c2));
                    assert(new.entry(g1, d2) == self.entry(g1, d2));
                }
            } else {
                assert(new.entry(f2, c2) == Entry::zero());
            }
        } else {
            if self.is_table(f1) {
                assert(new.entry(f1, d2) == self.entry(f1, d2));
            } else {
                assert(new.entry(f1, d2) == Entry::zero());
            }
        }
    }

    /// Two pages with the same four table indices.
    pub open spec fn same_indices(p: Page, q: Page) -> bool {
        p.p4_spec() == q.p4_spec() && p.p3_spec() == q.p3_spec() && p.p2_spec() == q.p2_spec()
            && p.p1_spec() == q.p1_spec()
    }

    /// A successful `map_to(page, ..)` keeps what every page with other
    /// table indices maps to.
    pub proof fn lemma_maps_only_keeps_translation(&self, new: &Mapper, s: Set<u64>, page: Page, q: Page)
        requires
            self.wf(),
            new.wf(),
            self.grows_to(new, s),
            self.maps_only(new, page),
            !new.maps_huge(page),
            page.p4_spec() != 511,
            q.p4_spec() != 511,
            !Self::same_indices(page, q),
        ensures
            new.translate_page_spec(q) == self.translate_page_spec(q),
    {
        lemma_indices_bounded(page);
        lemma_indices_bounded(q);
        lemma_zero_entry();
        let t = new.target();
        new.lemma_path_parents(t, page);
        let f3 = new.path_entry(page, 4).frame;
        let f2 = new.path_entry(page, 3).frame;
        let f1 = new.path_entry(page, 2).frame;
        let (a, b, c, d) = (page.p4_spec(), page.p3_spec(), page.p2_spec(), page.p1_spec());
        let (a2, b2, c2, d2) = (q.p4_spec(), q.p3_spec(), q.p2_spec(), q.p1_spec());
        assert(self.levels().contains_key(t));
        assert(new.levels()[t] == 4);
        if a2 != a {
            assert(new.entry(t, a2) == self.entry(t, a2));
            let e4 = self.entry(t, a2);
            if e4.leads_on() {
                let g3 = e4.frame;
                assert(self.levels().contains_key(g3) && self.levels()[g3] == 3);
                assert(self.parents()[g3] == (t, a2));
                assert(new.entry(g3, b2) == self.entry(g3, b2));
                let e3 = self.entry(g3, b2);
                if e3.leads_on() {
                    let g2 = e3.frame;
                    assert(self.levels().contains_key(g2) && self.levels()[g2] == 2);
                    assert(self.parents()[g2] == (g3, b2));
                    assert(new.entry(g2, c2) == self.entry(g2, c2));
                    let e2 = self.entry(g2, c2);
                    if e2.leads_on() {
                        let g1 = e2.frame;
                        assert(self.levels().contains_key(g1) && self.levels()[g1] == 1);
                        assert(self.parents()[g1] == (g2, c2));
                        assert(new.entry(g1, d2) == self.entry(g1, d2));
                    }
                }
            }
        } else if !self.is_table(f3) {
            assert(!self.entry(t, a).present());
            if b2 != b {
                assert(new.entry(f3, b2) == Entry::zero());
            } else if c2 != c {
                assert(!self.is_table(f2));
                assert(new.entry(f2, c2) == Entry::zero());
            } else {
                assert(!self.is_table(f2));
                assert(!self.is_table(f1));
                assert(new.entry(f1, d2) == Entry::zero());
            }
        } else if b2 != b {
            assert(new.entry(f3, b2) == self.entry(f3, b2));
            let e3 = self.entry(f3, b2);
            if e3.leads_on() {
                let g2 = e3.frame;
                assert(self.levels().contains_key(f3));
                assert(self.levels().contains_key(g2) && self.levels()[g2] == 2);
                assert(self.parents()[g2] == (f3, b2));
                assert(new.entry(g2, c2) == self.entry(g2, c2));
                let e2 = self.entry(g2, c2);
                if e2.leads_on() {
                    let g1 = e2.frame;
                    assert(self.levels().contains_key(g1) && self.levels()[g1] == 1);
                    assert(self.parents()[g1] == (g2, c2));
                    assert(new.entry(g1, d2) == self.entry(g1, d2));
                }
            }
        } else if !self.is_table(f2) {
            assert(!self.entry(f3, b).present());
            if c2 != c {
                assert(new.entry(f2, c2) == Entry::zero());
            } else {
                assert(!self.is_table(f1));
                assert(new.entry(f1, d2) == Entry::zero());
            }
        } else if c2 != c {
            assert(new.entry(f2, c2) == self.entry(f2, c2));
            let e2 = self.entry(f2, c2);
            if e2.leads_on() {
                let g1 = e2.frame;
                assert(self.levels().contains_key(f2));
                assert(self.levels().contains_key(g1) && self.levels()[g1] == 1);
                assert(self.parents()[g1] == (f2, c2));
                assert(new.entry(g1, d2) == self.entry(g1, d2));
            }
        } else if !self.is_table(f1) {
            assert(!self.entry(f2, c).present());
            assert(new.entry(f1, d2) == Entry::zero());
        } else {
            assert(new.entry(f1, d2) == self.entry(f1, d2));
        }
    }

    /// Clearing the P1 slot of `page` keeps what every page with other table
    /// indices maps to: no two walks share a P1 slot.
    pub proof fn lemma_clear_keeps_translation(&self, new: &Mapper, page: Page, q: Page)
        requires
            self.wf(),
            new.target() == self.target(),
            page.p4_spec() != 511,
            q.p4_spec() != 511,
            !self.maps_huge(page),
            !Self::same_indices(page, q),
            forall|g: u64, i: u64|
                g < MAX_FRAMES && i < 512 && !(g == self.path_entry(page, 2).frame && i == page.p1_spec())
                    ==> #[trigger] new.entry(g, i) == self.entry(g, i),
        ensures
            new.translate_page_spec(q) == self.translate_page_spec(q),
            new.clean(q) == self.clean(q),
    {
        lemma_indices_bounded(page);
        lemma_indices_bounded(q);
        let t = self.target();
        self.lemma_path_parents(t, page);
        let f1 = self.path_entry(page, 2).frame;
        let (a2, b2, c2, d2) = (q.p4_spec(), q.p3_spec(), q.p2_spec(), q.p1_spec());
        assert(self.levels().contains_key(t));
        assert(new.entry(t, a2) == self.entry(t, a2));
        let e4 = self.entry(t, a2);
        if e4.leads_on() {
            let g3 = e4.frame;
            assert(self.levels().contains_key(g3) && self.levels()[g3] == 3);
            assert(self.parents()[g3] == (t, a2));
            assert(new.entry(g3, b2) == self.entry(g3, b2));
            let e3 = self.entry(g3, b2);
            if e3.leads_on() {
                let g2 = e3.frame;
                assert(self.levels().contains_key(g2) && self.levels()[g2] == 2);
                assert(self.parents()[g2] == (g3, b2));
                assert(new.entry(g2, c2) == self.entry(g2, c2));
                let e2 = self.entry(g2, c2);
                if e2.leads_on() {
                    let g1 = e2.frame;
                    assert(self.levels().contains_key(g1) && self.levels()[g1] == 1);
                    assert(self.parents()[g1] == (g2, c2));
                    assert(new.entry(g1, d2) == self.entry(g1, d2));
                }
            }
        }
    }

    /// Growing twice is growing once, from the frames taken first.
    pub proof fn lemma_grows_trans(&self, b: &Mapper, c: &Mapper, s1: Set<u64>, s2: Set<u64>)
        requires
            self.grows_to(b, s1),
            b.grows_to(c, s2),
            s2.subset_of(s1),
        ensures
            self.grows_to(c, s1),
    {
        assert forall|f: u64, i: u64|
            self.is_table(f) && i < 512 && self.entry(f, i).present() implies #[trigger] c.entry(f, i)
                == self.entry(f, i) by {
            assert(b.entry(f, i) == self.entry(f, i));
            assert(b.levels().contains_key(f));
        }
        assert forall|f: u64, i: u64|
            f < MAX_FRAMES && i < 512 && !self.is_table(f) && !s1.contains(f) implies #[trigger] c.entry(f, i)
                == self.entry(f, i) by {
            assert(b.entry(f, i) == self.entry(f, i));
            assert(!b.levels().contains_key(f));
        }
    }
}

/// A page's first address translates to the first address of the frame
/// that the page maps to: after `map_to(page, frame, ..)`, `translate` of
/// `page.start_address()` is `frame.start_address()`.
pub proof fn lemma_translate_page_start(m: &Mapper, page: Page, frame: Frame)
    requires
        m.translate_page_spec(page) == Some(frame.number),
        frame.wf(),
        page.number < 0x10_0000_0000_0000,
    ensures
        m.translate_spec(page.start_spec() as u64) == Some(frame.start_spec() as u64),
        frame.start_spec() < 0x1_0000_0000_0000_0000,
{
    let a = page.number * 4096;
    assert(a / 4096 == page.number && a % 4096 == 0) by (nonlinear_arith)
        requires a == page.number * 4096;
    assert(a < 0x1_0000_0000_0000_0000) by (nonlinear_arith)
        requires a == page.number * 4096, page.number < 0x10_0000_0000_0000;
    assert(frame.number * 4096 < 0x1_0000_0000_0000_0000) by (nonlinear_arith)
        requires frame.number < MAX_FRAMES;
    assert((a as u64) / PAGE_SIZE == page.number);
}

/// After `identity_map(frame, ..)`, `translate` of the frame's first
/// address is that same address.
pub proof fn lemma_identity_translate(m: &Mapper, frame: Frame)
    requires
        m.translate_page_spec(Page { number: frame.number }) == Some(frame.number),
        frame.wf(),
    ensures
        m.translate_spec(frame.start_spec() as u64) == Some(frame.start_spec() as u64),
{
    lemma_translate_page_start(m, Page { number: frame.number }, frame);
}

} // verus!
