//! Rebuilding the kernel's address space from what the boot loader
//! reports, with a guard page where the old P4 was.
use vstd::prelude::*;
use crate::address::{Frame, Page, PAGE_SIZE, LOWER_HALF_END, MAX_FRAMES, lemma_lower_half_page, lemma_indices_bounded};
use crate::allocator::FrameAllocator;
use crate::mapper::{Mapper, MapError, UnmapError};
use crate::memory::{Entry, PRESENT, WRITABLE, NO_EXECUTE};
use crate::paging::{ActivePageTable, InactivePageTable, TemporaryPage};

verus! {

/// ELF section flag: writable.
pub const ELF_SECTION_WRITABLE: u64 = 0x1;
/// ELF section flag: occupies memory while the kernel runs.
pub const ELF_SECTION_ALLOCATED: u64 = 0x2;
/// ELF section flag: holds instructions.
pub const ELF_SECTION_EXECUTABLE: u64 = 0x4;

/// The page that the temporary mappings of the remap use.
pub const TEMPORARY_PAGE_NUMBER: u64 = 0xcafebabe;

/// Physical address of the text-mode display buffer.
pub const VGA_BUFFER_ADDRESS: u64 = 0xb8000;

/// One section of the kernel image, as the boot loader reports it.
#[derive(Debug, Clone, Copy, PartialEq, Eq, Structural)]
pub struct ElfSection {
    pub start_address: u64,
    pub size: u64,
    pub flags: u64,
}

impl ElfSection {
    pub open spec fn allocated(self) -> bool {
        self.flags & ELF_SECTION_ALLOCATED == ELF_SECTION_ALLOCATED
    }

    pub fn is_allocated(&self) -> (r: bool)
        ensures
            r == self.allocated(),
    {
        self.flags & ELF_SECTION_ALLOCATED == ELF_SECTION_ALLOCATED
    }

    /// An allocated section lies in the lower half of the address space,
    /// where identity-mapped addresses are canonical.
    pub open spec fn wf(self) -> bool {
        self.allocated() ==> self.start_address + self.size <= LOWER_HALF_END
    }
}

/// What the remap reads of the boot information: the kernel's sections and
/// the extent `[start_address, end_address)` of the structure itself.
pub struct BootInformation {
    pub sections: Vec<ElfSection>,
    pub start_address: u64,
    pub end_address: u64,
}

impl BootInformation {
    pub open spec fn wf(&self) -> bool {
        &&& forall|i: int| 0 <= i < self.sections@.len() ==> #[trigger] self.sections@[i].wf()
        &&& self.start_address < self.end_address <= LOWER_HALF_END
    }
}

/// The entry flags for a section: PRESENT if it is allocated, WRITABLE if
/// it is writable, NO_EXECUTE unless it holds instructions.
pub open spec fn section_entry_flags(section: ElfSection) -> u64 {
    (if section.flags & ELF_SECTION_ALLOCATED == ELF_SECTION_ALLOCATED {
            PRESENT
        } else {
            0
        }) | (if section.flags & ELF_SECTION_WRITABLE == ELF_SECTION_WRITABLE {
            WRITABLE
        } else {
            0
        }) | (if section.flags & ELF_SECTION_EXECUTABLE == ELF_SECTION_EXECUTABLE {
            0
        } else {
            NO_EXECUTE
        })
}

pub fn entry_flags_from_elf_section_flags(section: &ElfSection) -> (r: u64)
    ensures
        r == section_entry_flags(*section),
{
    let mut flags: u64 = 0;
    if section.flags & ELF_SECTION_ALLOCATED == ELF_SECTION_ALLOCATED {
        flags = flags | PRESENT;
    }
    if section.flags & ELF_SECTION_WRITABLE == ELF_SECTION_WRITABLE {
        flags = flags | WRITABLE;
    }
    if section.flags & ELF_SECTION_EXECUTABLE != ELF_SECTION_EXECUTABLE {
        flags = flags | NO_EXECUTE;
    }
    proof {
        assert(0u64 | 0u64 == 0u64) by (bit_vector);
        assert(forall|x: u64| 0u64 | x == x) by (bit_vector);
        assert(forall|x: u64| x | 0u64 == x) by (bit_vector);
    }
    flags
}

/// Why the kernel's address space could not be rebuilt.
#[derive(Debug, Clone, Copy, PartialEq, Eq, Structural)]
pub enum RemapError {
    /// An allocated section does not start on a page boundary.
    MisalignedSection,
    /// No frame was left for the new P4.
    OutOfFrames,
    /// A page of the new address space could not be mapped.
    MapFailed(MapError),
    /// The old P4's page could not be turned into a guard page.
    GuardFailed(UnmapError),
}

/// Frame `n` holds part of an allocated section before the `i`th.
pub open spec fn in_sections_before(boot_info: &BootInformation, i: int, n: u64) -> bool {
    exists|j: int| 0 <= j < i && section_frame(#[trigger] boot_info.sections@[j], n)
}

/// No frame is listed twice among the allocated sections, the display
/// buffer and the boot information.
pub open spec fn frames_listed_once(boot_info: &BootInformation) -> bool {
    &&& forall|j1: int, j2: int, n: u64|
        #![trigger section_frame(boot_info.sections@[j1], n), section_frame(boot_info.sections@[j2], n)]
        0 <= j1 < boot_info.sections@.len() && 0 <= j2 < boot_info.sections@.len() && j1 != j2
            && section_frame(boot_info.sections@[j1], n) ==> !section_frame(boot_info.sections@[j2], n)
    &&& forall|j: int, n: u64|
        0 <= j < boot_info.sections@.len() && #[trigger] section_frame(boot_info.sections@[j], n)
            ==> n != VGA_BUFFER_ADDRESS / PAGE_SIZE && !boot_info_frame(boot_info, n)
    &&& !boot_info_frame(boot_info, VGA_BUFFER_ADDRESS / PAGE_SIZE)
}

/// Frame `n` is one that the new address space identity-maps.
pub open spec fn listed_frame(boot_info: &BootInformation, n: u64) -> bool {
    ||| exists|j: int| 0 <= j < boot_info.sections@.len() && section_frame(#[trigger] boot_info.sections@[j], n)
    ||| n == VGA_BUFFER_ADDRESS / PAGE_SIZE
    ||| boot_info_frame(boot_info, n)
}

/// Some allocated section does not start on a page boundary.
pub open spec fn has_misaligned_section(boot_info: &BootInformation) -> bool {
    exists|i: int|
        0 <= i < boot_info.sections@.len() && (#[trigger] boot_info.sections@[i]).allocated()
            && boot_info.sections@[i].start_address % PAGE_SIZE != 0
}

/// Frame `n` holds part of `section`, which is allocated.
pub open spec fn section_frame(section: ElfSection, n: u64) -> bool {
    &&& section.allocated()
    &&& section.size > 0
    &&& section.start_address / PAGE_SIZE <= n <= (section.start_address + section.size - 1) as u64
        / PAGE_SIZE
}

/// Frame `n` holds part of the boot information.
pub open spec fn boot_info_frame(boot_info: &BootInformation, n: u64) -> bool {
    boot_info.start_address / PAGE_SIZE <= n <= (boot_info.end_address - 1) as u64 / PAGE_SIZE
}

/// `mapper` maps page `n` to frame `n` through a P1.
pub open spec fn identity_mapped(mapper: &Mapper, n: u64) -> bool {
    &&& mapper.translate_page_spec(Page { number: n }) == Some(n)
    &&& !mapper.maps_huge(Page { number: n })
}

/// `mapper` maps page `n` to frame `n` through a P1 entry with `flags`
/// and PRESENT.
pub open spec fn identity_leaf(mapper: &Mapper, n: u64, flags: u64) -> bool {
    &&& identity_mapped(mapper, n)
    &&& mapper.path_entry(Page { number: n }, 1) == (Entry { frame: n, flags: flags | PRESENT })
}

/// Whether every allocated section starts on a page boundary.
pub fn sections_aligned(boot_info: &BootInformation) -> (r: bool)
    ensures
        r == !has_misaligned_section(boot_info),
{
    let mut i: usize = 0;
    while i < boot_info.sections.len()
        invariant
            i <= boot_info.sections@.len(),
            forall|j: int| 0 <= j < i ==> !((#[trigger] boot_info.sections@[j]).allocated()
                && boot_info.sections@[j].start_address % PAGE_SIZE != 0),
        decreases boot_info.sections@.len() - i,
    {
        let section = &boot_info.sections[i];
        if section.is_allocated() && section.start_address % PAGE_SIZE != 0 {
            return false;
        }
        i = i + 1;
    }
    true
}

/// The invariant of a run of identity mappings into `mapper`.
pub open spec fn edit_ok<A: FrameAllocator>(start: &Mapper, mapper: &Mapper, start_free: Set<u64>, allocator: &A) -> bool {
    &&& mapper.wf()
    &&& allocator.wf()
    &&& mapper.apart_from(allocator.free())
    &&& start.grows_to(mapper, start_free)
    &&& allocator.free().subset_of(start_free)
}

/// Identity-maps the frames `first` to `last` with `flags`.
fn identity_map_range<A: FrameAllocator>(
    mapper: &mut Mapper,
    first: u64,
    last: u64,
    flags: u64,
    allocator: &mut A,
    Ghost(start): Ghost<Mapper>,
    Ghost(start_free): Ghost<Set<u64>>,
    Ghost(track): Ghost<bool>,
    Ghost(done): Ghost<spec_fn(u64) -> bool>,
) -> (r: Result<(), MapError>)
    requires
        edit_ok(&start, &*old(mapper), start_free, &*old(allocator)),
        last < 0x8_0000_0000,
        track ==> forall|q: u64| q < 0x8_0000_0000 && !done(q) ==> #[trigger] old(mapper).clean(Page { number: q }),
        track ==> forall|k: u64| first <= k <= last ==> !#[trigger] done(k),
    ensures
        track && r is Ok ==> forall|q: u64| q < 0x8_0000_0000 && !done(q) && !(first <= q <= last)
            ==> #[trigger] final(mapper).clean(Page { number: q }),
        track && r is Err ==> r == Err::<(), MapError>(MapError::OutOfFrames),
        edit_ok(&start, &*final(mapper), start_free, &*final(allocator)),
        old(mapper).grows_to(&*final(mapper), old(allocator).free()),
        r == Err::<(), MapError>(MapError::OutOfFrames) ==> final(allocator).free().is_empty(),
        r is Ok ==> forall|k: u64| first <= k <= last ==> #[trigger] identity_leaf(&*final(mapper), k, flags),
{
    let mut n: u64 = first;
    let ghost m0 = *mapper;
    let ghost free0 = allocator.free();
    proof {
        assert(m0.grows_to(&m0, free0));
    }
    while n <= last
        invariant
            edit_ok(&start, &*mapper, start_free, &*allocator),
            m0 == *old(mapper),
            free0 == old(allocator).free(),
            m0.grows_to(&*mapper, free0),
            allocator.free().subset_of(free0),
            last < 0x8_0000_0000,
            first <= n,
            first <= last ==> n <= last + 1,
            first > last ==> n == first,
            forall|k: u64| first <= k < n ==> #[trigger] identity_leaf(&*mapper, k, flags),
            track ==> forall|q: u64| q < 0x8_0000_0000 && !done(q) && !(first <= q < n)
                ==> #[trigger] mapper.clean(Page { number: q }),
            track ==> forall|k: u64| first <= k <= last ==> !#[trigger] done(k),
        decreases last + 1 - n,
    {
        let ghost before = *mapper;
        let ghost before_free = allocator.free();
        proof {
            lemma_lower_half_page(Page { number: n });
        }
        match mapper.identity_map(Frame { number: n }, flags, allocator) {
            Ok(()) => {},
            Err(e) => {
                proof {
                    start.lemma_grows_trans(&before, &*mapper, start_free, before_free);
                    m0.lemma_grows_trans(&before, &*mapper, free0, before_free);
                    if track {
                        assert(before.clean(Page { number: n }));
                        assert(e == MapError::OutOfFrames);
                    }
                }
                return Err(e);
            },
        }
        proof {
            start.lemma_grows_trans(&before, &*mapper, start_free, before_free);
            m0.lemma_grows_trans(&before, &*mapper, free0, before_free);
            if track {
                assert forall|q: u64| q < 0x8_0000_0000 && !done(q) && !(first <= q < n + 1)
                    implies #[trigger] mapper.clean(Page { number: q }) by {
                    assert(before.clean(Page { number: q }));
                    lemma_lower_half_page(Page { number: q });
                    if q != n {
                        let (pq, pn) = (Page { number: q }, Page { number: n });
                        if pq.p4_spec() == pn.p4_spec() && pq.p3_spec() == pn.p3_spec()
                            && pq.p2_spec() == pn.p2_spec() && pq.p1_spec() == pn.p1_spec() {
                            lemma_indices_determine(Page { number: q }, Page { number: n });
                        }
                    }
                    before.lemma_maps_only_keeps_clean(&*mapper, before_free, Page { number: n }, Page { number: q });
                }
            }
            assert forall|k: u64| first <= k < n + 1 implies #[trigger] identity_leaf(&*mapper, k, flags) by {
                if k < n {
                    assert(identity_leaf(&before, k, flags));
                    before.lemma_grows_keeps_translation(&*mapper, before_free, Page { number: k });
                }
            }
        }
        n = n + 1;
    }
    Ok(())
}

/// Identity-maps into `mapper` the frames of every allocated section, the
/// display buffer, and the boot information.
pub fn map_kernel<A: FrameAllocator>(mapper: &mut Mapper, boot_info: &BootInformation, allocator: &mut A) -> (r: Result<(), RemapError>)
    requires
        old(mapper).wf(),
        old(allocator).wf(),
        old(mapper).apart_from(old(allocator).free()),
        boot_info.wf(),
        forall|q: u64| q < 0x8_0000_0000 ==> #[trigger] old(mapper).clean(Page { number: q }),
    ensures
        edit_ok(&*old(mapper), &*final(mapper), old(allocator).free(), &*final(allocator)),
        frames_listed_once(boot_info) && r is Ok ==> forall|q: u64| q < 0x8_0000_0000 && !listed_frame(boot_info, q)
            ==> #[trigger] final(mapper).translate_page_spec(Page { number: q }).is_none(),
        frames_listed_once(boot_info) && r is Ok ==> forall|q: u64| q < 0x8_0000_0000 && !listed_frame(boot_info, q)
            ==> #[trigger] final(mapper).clean(Page { number: q }),
        frames_listed_once(boot_info) && r is Err ==> r == Err::<(), RemapError>(RemapError::MisalignedSection)
            || r == Err::<(), RemapError>(RemapError::MapFailed(MapError::OutOfFrames)),
        r == Err::<(), RemapError>(RemapError::MisalignedSection) ==> has_misaligned_section(boot_info),
        has_misaligned_section(boot_info) ==> r is Err,
        r == Err::<(), RemapError>(RemapError::MapFailed(MapError::OutOfFrames)) ==> final(allocator).free().is_empty(),
        r is Err ==> r == Err::<(), RemapError>(RemapError::MisalignedSection) || r is Err && (r->Err_0 is MapFailed),
        r is Ok ==> forall|j: int, n: u64|
            0 <= j < boot_info.sections@.len() && section_frame(#[trigger] boot_info.sections@[j], n)
                ==> #[trigger] identity_leaf(&*final(mapper), n, section_entry_flags(boot_info.sections@[j])),
        r is Ok ==> identity_leaf(&*final(mapper), VGA_BUFFER_ADDRESS / PAGE_SIZE, WRITABLE),
        r is Ok ==> forall|n: u64| boot_info_frame(boot_info, n) ==> #[trigger] identity_leaf(&*final(mapper), n, PRESENT),
{
    let ghost start = *mapper;
    let ghost start_free = allocator.free();
    proof {
        assert(start.grows_to(&start, start_free));
    }
    let mut i: usize = 0;
    while i < boot_info.sections.len()
        invariant
            edit_ok(&start, &*mapper, start_free, &*allocator),
            start == *old(mapper),
            start_free == old(allocator).free(),
            boot_info.wf(),
            i <= boot_info.sections@.len(),
            forall|j: int| 0 <= j < i ==> !((#[trigger] boot_info.sections@[j]).allocated()
                && boot_info.sections@[j].start_address % PAGE_SIZE != 0),
            forall|j: int, n: u64|
                0 <= j < i && section_frame(#[trigger] boot_info.sections@[j], n)
                    ==> #[trigger] identity_leaf(&*mapper, n, section_entry_flags(boot_info.sections@[j])),
            frames_listed_once(boot_info) ==> forall|q: u64| q < 0x8_0000_0000 && !in_sections_before(boot_info, i as int, q)
                ==> #[trigger] mapper.clean(Page { number: q }),
        decreases boot_info.sections@.len() - i,
    {
        let section = boot_info.sections[i];
        let ghost before = *mapper;
        let ghost before_free = allocator.free();
        if section.is_allocated() {
            if section.start_address % PAGE_SIZE != 0 {
                return Err(RemapError::MisalignedSection);
            }
            let flags = entry_flags_from_elf_section_flags(&section);
            if section.size > 0 {
                assert(section.wf());
                let first = section.start_address / PAGE_SIZE;
                let last = (section.start_address + section.size - 1) / PAGE_SIZE;
                let ghost track = frames_listed_once(boot_info);
                let ghost done = |q: u64| in_sections_before(boot_info, i as int, q);
                proof {
                    assert forall|k: u64| first <= k <= last implies #[trigger] section_frame(boot_info.sections@[i as int], k) by {}
                    if track {
                        assert forall|k: u64| first <= k <= last implies !#[trigger] done(k) by {
                            if in_sections_before(boot_info, i as int, k) {
                                let j = choose|j: int| 0 <= j < i && section_frame(#[trigger] boot_info.sections@[j], k);
                                assert(section_frame(boot_info.sections@[i as int], k));
                            }
                        }
                    }
                }
                match identity_map_range(mapper, first, last, flags, allocator, Ghost(start), Ghost(start_free), Ghost(track), Ghost(done)) {
                    Ok(()) => {},
                    Err(e) => return Err(RemapError::MapFailed(e)),
                }
            }
        }
        proof {
            if frames_listed_once(boot_info) {
                assert forall|q: u64| q < 0x8_0000_0000 && !in_sections_before(boot_info, i + 1, q)
                    implies #[trigger] mapper.clean(Page { number: q }) by {
                    if in_sections_before(boot_info, i as int, q) {
                        let j = choose|j: int| 0 <= j < i && section_frame(#[trigger] boot_info.sections@[j], q);
                        assert(0 <= j < i + 1 && section_frame(boot_info.sections@[j], q));
                    }
                    if section_frame(boot_info.sections@[i as int], q) {
                        assert(in_sections_before(boot_info, i + 1, q));
                    }
                }
            }
            assert forall|j: int, n: u64|
                0 <= j < i + 1 && section_frame(#[trigger] boot_info.sections@[j], n)
                    implies #[trigger] identity_leaf(&*mapper, n, section_entry_flags(boot_info.sections@[j])) by {
                if j < i {
                    assert(identity_leaf(&before, n, section_entry_flags(boot_info.sections@[j])));
                    if *mapper != before {
                        before.lemma_grows_keeps_translation(&*mapper, before_free, Page { number: n });
                    }
                }
            }
        }
        i = i + 1;
    }
    let ghost m_sections = *mapper;
    let ghost free_sections = allocator.free();
    let vga = VGA_BUFFER_ADDRESS / PAGE_SIZE;
    let ghost track = frames_listed_once(boot_info);
    let ghost len = boot_info.sections@.len() as int;
    let ghost done_vga = |q: u64| in_sections_before(boot_info, len, q);
    proof {
        if track && in_sections_before(boot_info, len, vga) {
            let j = choose|j: int| 0 <= j < len && section_frame(#[trigger] boot_info.sections@[j], vga);
        }
    }
    match identity_map_range(mapper, vga, vga, WRITABLE, allocator, Ghost(start), Ghost(start_free), Ghost(track), Ghost(done_vga)) {
        Ok(()) => {},
        Err(e) => return Err(RemapError::MapFailed(e)),
    }
    let ghost m_vga = *mapper;
    let ghost free_vga = allocator.free();
    let first = boot_info.start_address / PAGE_SIZE;
    let last = (boot_info.end_address - 1) / PAGE_SIZE;
    let ghost done_boot = |q: u64| in_sections_before(boot_info, len, q) || q == vga;
    proof {
        if track {
            assert forall|k: u64| first <= k <= last implies !#[trigger] done_boot(k) by {
                assert(boot_info_frame(boot_info, k));
                if in_sections_before(boot_info, len, k) {
                    let j = choose|j: int| 0 <= j < len && section_frame(#[trigger] boot_info.sections@[j], k);
                }
            }
        }
    }
    match identity_map_range(mapper, first, last, PRESENT, allocator, Ghost(start), Ghost(start_free), Ghost(track), Ghost(done_boot)) {
        Ok(()) => {},
        Err(e) => return Err(RemapError::MapFailed(e)),
    }
    proof {
        if track {
            assert forall|q: u64| q < 0x8_0000_0000 && !listed_frame(boot_info, q)
                implies #[trigger] mapper.clean(Page { number: q }) by {
                assert(!done_boot(q));
                assert(!(first <= q <= last));
            }
            crate::memory::lemma_zero_entry();
            assert forall|q: u64| q < 0x8_0000_0000 && !listed_frame(boot_info, q)
                implies #[trigger] mapper.translate_page_spec(Page { number: q }).is_none() by {
                assert(!done_boot(q));
                assert(!(first <= q <= last));
                assert(mapper.clean(Page { number: q }));
                let pq = Page { number: q };
                if mapper.tables_missing(pq) == 0 {
                    assert(mapper.path_entry(pq, 1) == Entry::zero());
                }
            }
        }
        assert(identity_leaf(&m_vga, vga, WRITABLE));
        m_vga.lemma_grows_keeps_translation(&*mapper, free_vga, Page { number: vga });
        assert forall|j: int, n: u64|
            0 <= j < boot_info.sections@.len() && section_frame(#[trigger] boot_info.sections@[j], n)
                implies #[trigger] identity_leaf(&*mapper, n, section_entry_flags(boot_info.sections@[j])) by {
            assert(identity_leaf(&m_sections, n, section_entry_flags(boot_info.sections@[j])));
            m_sections.lemma_grows_keeps_translation(&m_vga, free_sections, Page { number: n });
            m_vga.lemma_grows_keeps_translation(&*mapper, free_vga, Page { number: n });
        }
    }
    Ok(())
}

/// The walk for `page` from `x` does not read slot 511 of another P4, nor
/// a P1 of that P4's hierarchy: putting the other P4 back in charge keeps it.
proof fn lemma_restore_keeps(m3: &Mapper, m4: &Mapper, page: Page)
    requires
        m3.wf(),
        m3.target() != m3.root(),
        page.p4_spec() != 511,
        m3.full_path_from(m3.target(), page),
        m4.parents() == m3.parents(),
        forall|g: u64, i: u64|
            g < MAX_FRAMES && i < 512 && !(g == m3.root() && i == 511) && !(m3.is_table(g)
                && m3.levels()[g] == 1 && m3.rooted_at(g, m3.root())) ==> #[trigger] m4.entry(g, i)
                == m3.entry(g, i),
    ensures
        m4.walk(m3.target(), page) == m3.walk(m3.target(), page),
        m4.full_path_from(m3.target(), page),
        m4.path_from(m3.target(), page, 1) == m3.path_from(m3.target(), page, 1),
{
    let x = m3.target();
    lemma_indices_bounded(page);
    m3.lemma_path_parents(x, page);
    let f3 = m3.path_from(x, page, 4).frame;
    let f2 = m3.path_from(x, page, 3).frame;
    let f1 = m3.path_from(x, page, 2).frame;
    assert(m3.levels().contains_key(x));
    assert(m4.entry(x, page.p4_spec()) == m3.entry(x, page.p4_spec()));
    assert(m3.levels().contains_key(f3));
    assert(m4.entry(f3, page.p3_spec()) == m3.entry(f3, page.p3_spec()));
    assert(m3.levels().contains_key(f2));
    assert(m4.entry(f2, page.p2_spec()) == m3.entry(f2, page.p2_spec()));
    assert(m3.levels().contains_key(f1));
    assert(!m3.rooted_at(f1, m3.root()));
    assert(m4.entry(f1, page.p1_spec()) == m3.entry(f1, page.p1_spec()));
}

/// The walk for any page from the spliced-in P4 survives the restore.
proof fn lemma_restore_keeps_walk(m3: &Mapper, m4: &Mapper, m5: &Mapper, page: Page)
    requires
        m5.memory() == m4.memory(),
        m5.target() == m3.target(),
        m3.wf(),
        m3.target() != m3.root(),
        page.p4_spec() != 511,
        forall|g: u64, i: u64|
            g < MAX_FRAMES && i < 512 && !(g == m3.root() && i == 511) && !(m3.is_table(g)
                && m3.levels()[g] == 1 && m3.rooted_at(g, m3.root())) ==> #[trigger] m4.entry(g, i)
                == m3.entry(g, i),
    ensures
        m4.walk(m3.target(), page) == m3.walk(m3.target(), page),
        m5.clean(page) == m3.clean(page),
{
    let x = m3.target();
    lemma_indices_bounded(page);
    assert(m3.levels().contains_key(x));
    assert(m4.entry(x, page.p4_spec()) == m3.entry(x, page.p4_spec()));
    let e4 = m3.entry(x, page.p4_spec());
    if e4.leads_on() {
        let g3 = e4.frame;
        assert(m3.levels().contains_key(g3) && m3.levels()[g3] == 3);
        assert(m4.entry(g3, page.p3_spec()) == m3.entry(g3, page.p3_spec()));
        let e3 = m3.entry(g3, page.p3_spec());
        if e3.leads_on() {
            let g2 = e3.frame;
            assert(m3.levels().contains_key(g2) && m3.levels()[g2] == 2);
            assert(m4.entry(g2, page.p2_spec()) == m3.entry(g2, page.p2_spec()));
            let e2 = m3.entry(g2, page.p2_spec());
            if e2.leads_on() {
                let g1 = e2.frame;
                assert(m3.levels().contains_key(g1) && m3.levels()[g1] == 1);
                assert(m3.parents()[g1] == (g2, page.p2_spec()));
                assert(m3.parents()[g2] == (g3, page.p3_spec()));
                assert(m3.parents()[g3] == (x, page.p4_spec()));
                assert(m3.rooted_at(g1, x));
                assert(m4.entry(g1, page.p1_spec()) == m3.entry(g1, page.p1_spec()));
            }
        }
    }
}

/// Clearing the P1 slot of one page keeps the mapping of every page with
/// other table indices: no two walks share a P1 slot.
proof fn lemma_guard_keeps(m5: &Mapper, m6: &Mapper, guard: Page, page: Page)
    requires
        m5.wf(),
        guard.p4_spec() != 511,
        page.p4_spec() != 511,
        m5.full_path_from(m5.target(), guard),
        m5.full_path_from(m5.target(), page),
        guard.p4_spec() != page.p4_spec() || guard.p3_spec() != page.p3_spec() || guard.p2_spec()
            != page.p2_spec() || guard.p1_spec() != page.p1_spec(),
        m6.target() == m5.target(),
        forall|g: u64, i: u64|
            g < MAX_FRAMES && i < 512 && !(g == m5.path_entry(guard, 2).frame && i
                == guard.p1_spec()) ==> #[trigger] m6.entry(g, i) == m5.entry(g, i),
    ensures
        m6.translate_page_spec(page) == m5.translate_page_spec(page),
        !m6.maps_huge(page),
        m6.path_entry(page, 1) == m5.path_entry(page, 1),
{
    let x = m5.target();
    lemma_indices_bounded(page);
    lemma_indices_bounded(guard);
    m5.lemma_path_parents(x, page);
    m5.lemma_path_parents(x, guard);
    let f3 = m5.path_from(x, page, 4).frame;
    let f2 = m5.path_from(x, page, 3).frame;
    let f1 = m5.path_from(x, page, 2).frame;
    let g1 = m5.path_from(x, guard, 2).frame;
    assert(m5.levels().contains_key(x));
    assert(m6.entry(x, page.p4_spec()) == m5.entry(x, page.p4_spec()));
    assert(m5.levels().contains_key(f3));
    assert(m6.entry(f3, page.p3_spec()) == m5.entry(f3, page.p3_spec()));
    assert(m5.levels().contains_key(f2));
    assert(m6.entry(f2, page.p2_spec()) == m5.entry(f2, page.p2_spec()));
    assert(m5.levels().contains_key(f1));
    if f1 == g1 && page.p1_spec() == guard.p1_spec() {
        assert(m5.parents()[f1] == m5.parents()[g1]);
        assert(false);
    }
    assert(m6.entry(f1, page.p1_spec()) == m5.entry(f1, page.p1_spec()));
}

/// Two pages of the lower half with the same four indices are one page.
proof fn lemma_indices_determine(p: Page, q: Page)
    requires
        p.number < 0x8_0000_0000,
        q.number < 0x8_0000_0000,
        p.p4_spec() == q.p4_spec(),
        p.p3_spec() == q.p3_spec(),
        p.p2_spec() == q.p2_spec(),
        p.p1_spec() == q.p1_spec(),
    ensures
        p == q,
{
    crate::address::lemma_index_round_trip(p);
    crate::address::lemma_index_round_trip(q);
}

/// An identity mapping made in the spliced-in hierarchy survives the
/// restore, the switch, and the cut of the guard page at another page.
proof fn lemma_remap_keeps(m3: &Mapper, m4: &Mapper, m5: &Mapper, m6: &Mapper, guard: Page, n: u64, flags: u64)
    requires
        m3.wf(),
        m3.target() != m3.root(),
        m4.parents() == m3.parents(),
        forall|g: u64, i: u64|
            g < MAX_FRAMES && i < 512 && !(g == m3.root() && i == 511) && !(m3.is_table(g)
                && m3.levels()[g] == 1 && m3.rooted_at(g, m3.root())) ==> #[trigger] m4.entry(g, i)
                == m3.entry(g, i),
        m5.wf(),
        m5.memory() == m4.memory(),
        m5.target() == m3.target(),
        guard.number < 0x8_0000_0000,
        m5.full_path_from(m5.target(), guard),
        m6.target() == m5.target(),
        forall|g: u64, i: u64|
            g < MAX_FRAMES && i < 512 && !(g == m5.path_entry(guard, 2).frame && i
                == guard.p1_spec()) ==> #[trigger] m6.entry(g, i) == m5.entry(g, i),
        identity_leaf(m3, n, flags),
        n < 0x8_0000_0000,
        n != guard.number,
    ensures
        m6.translate_page_spec(Page { number: n }) == Some(n),
        m6.path_entry(Page { number: n }, 1) == (Entry { frame: n, flags: flags | PRESENT }),
{
    let page = Page { number: n };
    lemma_lower_half_page(page);
    lemma_lower_half_page(guard);
    lemma_restore_keeps(m3, m4, page);
    assert(m5.walk(m3.target(), page) == m4.walk(m3.target(), page));
    assert(m5.full_path_from(m3.target(), page) == m4.full_path_from(m3.target(), page));
    if guard.p4_spec() == page.p4_spec() && guard.p3_spec() == page.p3_spec() && guard.p2_spec()
        == page.p2_spec() && guard.p1_spec() == page.p1_spec() {
        lemma_indices_determine(guard, page);
    }
    lemma_guard_keeps(m5, m6, guard, page);
}

/// Checks that every allocated section starts on a page boundary, then
/// builds a new address space that identity-maps the kernel's sections,
/// the display buffer and the boot information, makes it active, and turns
/// the page of the old P4 into a guard page; the frame that the guard page
/// mapped goes back to `allocator` when it is the old P4's own frame.
pub fn remap_the_kernel<A: FrameAllocator>(
    allocator: &mut A,
    boot_info: &BootInformation,
    active_table: &mut ActivePageTable,
) -> (r: Result<(), RemapError>)
    requires
        old(active_table).wf(),
        old(allocator).wf(),
        old(active_table).mapper.apart_from(old(allocator).free()),
        old(active_table).mapper.translate_page_spec(Page { number: TEMPORARY_PAGE_NUMBER }).is_none(),
        !old(active_table).mapper.path_blocked(Page { number: TEMPORARY_PAGE_NUMBER }),
        !old(active_table).mapper.slot_in_use(Page { number: TEMPORARY_PAGE_NUMBER }),
        old(active_table).mapper.root() < 0x8_0000_0000,
        boot_info.wf(),
    ensures
        (r == Err::<(), RemapError>(RemapError::OutOfFrames)) == (!has_misaligned_section(boot_info)
            && old(allocator).free().len() <= 3),
        r is Err && !(r->Err_0 is GuardFailed) ==> final(active_table).mapper.root() == old(active_table).mapper.root(),
        r is Err ==> r == Err::<(), RemapError>(RemapError::OutOfFrames) || r == Err::<(), RemapError>(RemapError::MisalignedSection)
            || r->Err_0 is GuardFailed || (r->Err_0 is MapFailed && old(allocator).free().len() > 3),
        r == Err::<(), RemapError>(RemapError::MapFailed(MapError::OutOfFrames)) ==> final(allocator).free().is_empty(),
        r is Ok && listed_frame(boot_info, old(active_table).mapper.root()) ==> final(allocator).free().contains(old(active_table).mapper.root()),
        !has_misaligned_section(boot_info) && frames_listed_once(boot_info) && listed_frame(boot_info, old(active_table).mapper.root())
            ==> r is Ok || r == Err::<(), RemapError>(RemapError::OutOfFrames)
                || (r == Err::<(), RemapError>(RemapError::MapFailed(MapError::OutOfFrames)) && final(allocator).free().is_empty()),
        r is Err && r->Err_0 is GuardFailed ==> !listed_frame(boot_info, old(active_table).mapper.root()),
        r is Ok && frames_listed_once(boot_info) ==> forall|q: u64| q < 0x8_0000_0000 && !listed_frame(boot_info, q)
            ==> #[trigger] final(active_table).mapper.translate_page_spec(Page { number: q }).is_none(),
        r is Ok && frames_listed_once(boot_info) ==> forall|q: u64| q < 0x8_0000_0000 && !listed_frame(boot_info, q)
            && q != old(active_table).mapper.root() ==> #[trigger] final(active_table).mapper.clean(Page { number: q }),
        r is Err && r->Err_0 is MapFailed ==> !frames_listed_once(boot_info)
            || (r == Err::<(), RemapError>(RemapError::MapFailed(MapError::OutOfFrames)) && final(allocator).free().is_empty()),
        final(allocator).wf(),
        final(active_table).mapper.wf(),
        r is Ok ==> final(active_table).wf(),
        r is Ok ==> final(active_table).mapper.entry(final(active_table).mapper.root(), 511) == (Entry {
            frame: final(active_table).mapper.root(),
            flags: PRESENT | WRITABLE,
        }),
        r is Ok ==> final(active_table).mapper.root() != old(active_table).mapper.root()
            && old(allocator).free().contains(final(active_table).mapper.root()),
        r is Ok ==> final(active_table).mapper.translate_page_spec(
            Page { number: old(active_table).mapper.root() },
        ).is_none(),
        r is Ok ==> !final(active_table).mapper.is_table(old(active_table).mapper.root()),
        r is Ok ==> final(active_table).mapper.apart_from(final(allocator).free()),
        (r == Err::<(), RemapError>(RemapError::MisalignedSection)) == has_misaligned_section(boot_info),
        r is Ok ==> forall|j: int, n: u64|
            0 <= j < boot_info.sections@.len() && section_frame(#[trigger] boot_info.sections@[j], n)
                && n != old(active_table).mapper.root() ==> #[trigger] final(active_table).mapper.translate_page_spec(
                Page { number: n },
            ) == Some(n) && final(active_table).mapper.path_entry(Page { number: n }, 1) == (Entry {
                frame: n,
                flags: section_entry_flags(boot_info.sections@[j]) | PRESENT,
            }),
        r is Ok && VGA_BUFFER_ADDRESS / PAGE_SIZE != old(active_table).mapper.root() ==> final(active_table).mapper.translate_page_spec(Page { number: VGA_BUFFER_ADDRESS / PAGE_SIZE }) == Some(
            VGA_BUFFER_ADDRESS / PAGE_SIZE,
        ) && final(active_table).mapper.path_entry(Page { number: VGA_BUFFER_ADDRESS / PAGE_SIZE }, 1) == (Entry {
            frame: VGA_BUFFER_ADDRESS / PAGE_SIZE,
            flags: WRITABLE | PRESENT,
        }),
        r is Ok ==> forall|n: u64|
            boot_info_frame(boot_info, n) && n != old(active_table).mapper.root() ==> #[trigger] final(active_table).mapper.translate_page_spec(Page { number: n }) == Some(n)
                && final(active_table).mapper.path_entry(Page { number: n }, 1) == (Entry { frame: n, flags: PRESENT | PRESENT }),
{
    if !sections_aligned(boot_info) {
        return Err(RemapError::MisalignedSection);
    }
    let ghost m0 = active_table.mapper;
    proof {
        let n = TEMPORARY_PAGE_NUMBER;
        assert((n >> 27u64) & 0o777u64 == 25) by (bit_vector)
            requires
                n == 0xcafebabeu64,
        ;
    }
    let ghost free0 = allocator.free();
    proof {
        allocator.lemma_free_frames_valid();
    }
    let mut temporary_page = TemporaryPage::new(Page { number: TEMPORARY_PAGE_NUMBER }, allocator);
    proof {
        allocator.lemma_free_frames_valid();
        let sc = temporary_page.scratch();
        assert(free0.intersect(sc) =~= sc);
        vstd::set_lib::lemma_set_difference_len(free0, sc);
        if allocator.free().len() == 0 {
            assert(allocator.free() =~= Set::<u64>::empty());
        }
    }
    let frame = match allocator.allocate_frame() {
        Some(frame) => frame,
        None => return Err(RemapError::OutOfFrames),
    };
    let mut new_table = match InactivePageTable::new(frame, active_table, &mut temporary_page) {
        Ok(t) => t,
        Err(e) => {
            assert(false);
            return Err(RemapError::MapFailed(e));
        },
    };
    proof {
        let tp = temporary_page.page_spec();
        crate::memory::lemma_zero_entry();
        assert(active_table.mapper.tables_missing(tp) == 0);
        assert(!active_table.mapper.path_blocked(tp));
        assert(!active_table.mapper.slot_in_use(tp));
    }
    let backup = match active_table.splice(&new_table, &mut temporary_page) {
        Ok(backup) => backup,
        Err(e) => {
            assert(false);
            return Err(RemapError::MapFailed(e));
        },
    };
    let ghost m2 = active_table.mapper;
    let ghost allocator_free_at_splice = allocator.free();
    proof {
        crate::memory::lemma_zero_entry();
        let x = new_table.frame().number;
        assert(m2.target() == x);
        assert forall|q: u64| q < 0x8_0000_0000 implies #[trigger] m2.clean(Page { number: q }) by {
            lemma_lower_half_page(Page { number: q });
            let a = Page { number: q }.p4_spec();
            assert(m2.entry(x, a) == Entry::zero());
        }
    }
    let result = map_kernel(&mut active_table.mapper, boot_info, allocator);
    let ghost m3 = active_table.mapper;
    proof {
        lemma_indices_bounded(temporary_page.page_spec());
        m2.lemma_grows_keeps_mmu_page(&m3, allocator_free_at_splice, temporary_page.page_spec());
    }
    active_table.restore(backup, &mut temporary_page);
    let ghost m4 = active_table.mapper;
    match result {
        Ok(()) => {},
        Err(e) => {
            assert(e == RemapError::MisalignedSection || e is MapFailed);
            return Err(e);
        },
    }
    proof {
        let f = new_table.frame().number;
        assert(m2.is_table(f));
        assert(m2.entry(f, 511).present());
        assert(m3.entry(f, 511) == m2.entry(f, 511));
        assert(m3.levels()[f] == 4);
        assert(active_table.mapper.entry(f, 511) == m3.entry(f, 511));
        assert(m3.entry(f, 511) == (Entry { frame: f, flags: PRESENT | WRITABLE }));
    }
    let ghost new_table_frame = new_table.frame().number;
    let old_table = active_table.switch(new_table);
    let ghost m5 = active_table.mapper;
    let old_frame = old_table.p4_frame();
    let old_p4_page = Page::containing_address(old_frame.start_address());
    proof {
        assert(old_p4_page.number == old_frame.number);
        lemma_lower_half_page(old_p4_page);
    }
    proof {
        if listed_frame(boot_info, m0.root()) {
            let n = m0.root();
            if exists|j: int| 0 <= j < boot_info.sections@.len() && section_frame(#[trigger] boot_info.sections@[j], n) {
                let j = choose|j: int| 0 <= j < boot_info.sections@.len() && section_frame(#[trigger] boot_info.sections@[j], n);
                assert(identity_leaf(&m3, n, section_entry_flags(boot_info.sections@[j])));
            } else if n == VGA_BUFFER_ADDRESS / PAGE_SIZE {
                assert(identity_leaf(&m3, n, WRITABLE));
            } else {
                assert(identity_leaf(&m3, n, PRESENT));
            }
            lemma_restore_keeps(&m3, &m4, old_p4_page);
            assert(m5.walk(m3.target(), old_p4_page) == m4.walk(m3.target(), old_p4_page));
            assert(m5.translate_page_spec(old_p4_page) == Some(n));
            assert(!m5.maps_huge(old_p4_page));
        }
    }
    let freed = match active_table.mapper.unmap_entry(old_p4_page) {
        Ok(f) => f,
        Err(e) => {
            assert(!listed_frame(boot_info, m0.root()));
            return Err(RemapError::GuardFailed(e));
        },
    };
    let ghost m6 = active_table.mapper;
    proof {
        let f = new_table_frame;
        assert(m5.levels()[f] == 4);
        assert(m6.entry(f, 511) == m5.entry(f, 511));
        if listed_frame(boot_info, m0.root()) {
            let n = m0.root();
            if exists|j: int| 0 <= j < boot_info.sections@.len() && section_frame(#[trigger] boot_info.sections@[j], n) {
                let j = choose|j: int| 0 <= j < boot_info.sections@.len() && section_frame(#[trigger] boot_info.sections@[j], n);
                assert(identity_leaf(&m3, n, section_entry_flags(boot_info.sections@[j])));
            } else if n == VGA_BUFFER_ADDRESS / PAGE_SIZE {
                assert(identity_leaf(&m3, n, WRITABLE));
            } else {
                assert(identity_leaf(&m3, n, PRESENT));
            }
            assert(identity_mapped(&m3, n));
            lemma_lower_half_page(old_p4_page);
            lemma_restore_keeps(&m3, &m4, old_p4_page);
            assert(m5.walk(m3.target(), old_p4_page) == m4.walk(m3.target(), old_p4_page));
            assert(freed.number == n);
        }
        assert(m6.is_table(old_frame.number));
        assert(!allocator.free().contains(old_frame.number));
    }
    active_table.mapper.retire_p4(old_frame);
    if freed.number == old_frame.number {
        allocator.deallocate_frame(old_frame);
    }
    proof {
        let m7 = active_table.mapper;
        if frames_listed_once(boot_info) {
            assert forall|q: u64| q < 0x8_0000_0000 && !listed_frame(boot_info, q)
                implies #[trigger] m7.translate_page_spec(Page { number: q }).is_none()
                    && (q != m0.root() ==> m7.clean(Page { number: q })) by {
                assert(m3.clean(Page { number: q }));
                let pq = Page { number: q };
                lemma_lower_half_page(pq);
                assert(m3.translate_page_spec(pq).is_none());
                lemma_restore_keeps_walk(&m3, &m4, &m5, pq);
                assert(m5.translate_page_spec(pq).is_none());
                if q != old_p4_page.number {
                    if Mapper::same_indices(old_p4_page, pq) {
                        lemma_indices_determine(old_p4_page, pq);
                    }
                    assert(m6.translate_page_spec(pq) == m5.translate_page_spec(pq));
                    m5.lemma_clear_keeps_translation(&m6, old_p4_page, pq);
                    assert(m7.clean(pq));
                } else {
                    assert(m6.translate_page_spec(old_p4_page).is_none());
                }
            }
            assert forall|q: u64| q < 0x8_0000_0000 && !listed_frame(boot_info, q) && q != m0.root()
                implies #[trigger] m7.clean(Page { number: q }) by {
                assert(m7.translate_page_spec(Page { number: q }).is_none()
                    && (q != m0.root() ==> m7.clean(Page { number: q })));
            }
        }
        assert(m5.full_path_from(m5.target(), old_p4_page));
        assert forall|j: int, n: u64|
            0 <= j < boot_info.sections@.len() && section_frame(#[trigger] boot_info.sections@[j], n)
                && n != m0.root() implies #[trigger] m7.translate_page_spec(Page { number: n }) == Some(n)
                && m7.path_entry(Page { number: n }, 1) == (Entry { frame: n, flags: section_entry_flags(boot_info.sections@[j]) | PRESENT }) by {
            assert(boot_info.sections@[j].wf());
            lemma_remap_keeps(&m3, &m4, &m5, &m6, old_p4_page, n, section_entry_flags(boot_info.sections@[j]));
        }
        if VGA_BUFFER_ADDRESS / PAGE_SIZE != m0.root() {
            lemma_remap_keeps(&m3, &m4, &m5, &m6, old_p4_page, VGA_BUFFER_ADDRESS / PAGE_SIZE, WRITABLE);
        }
        assert forall|n: u64| boot_info_frame(boot_info, n) && n != m0.root() implies #[trigger] m7.translate_page_spec(Page { number: n }) == Some(n)
            && m7.path_entry(Page { number: n }, 1) == (Entry { frame: n, flags: PRESENT | PRESENT }) by {
            lemma_remap_keeps(&m3, &m4, &m5, &m6, old_p4_page, n, PRESENT);
        }
    }
    Ok(())
}


} // verus!
