use kernel_paging::address::{Frame, Page};
use kernel_paging::allocator::{FrameAllocator, FramePool};
use kernel_paging::mapper::{MapError, Mapper, UnmapError};
use kernel_paging::memory::{Entry, NO_EXECUTE, PRESENT, WRITABLE};
use kernel_paging::paging::{ActivePageTable, InactivePageTable, TemporaryPage};

fn machine() -> (ActivePageTable, FramePool) {
    let active = ActivePageTable::new(Frame { number: 101 });
    let pool = FramePool::from_range(Frame { number: 1000 }, Frame { number: 1099 });
    (active, pool)
}

fn leaf(m: &Mapper, page: Page) -> Entry {
    let root = m.root_frame();
    let e4 = m.read_table_entry(root, page.p4_index());
    let e3 = m.read_table_entry(Frame { number: e4.frame }, page.p3_index());
    let e2 = m.read_table_entry(Frame { number: e3.frame }, page.p2_index());
    m.read_table_entry(Frame { number: e2.frame }, page.p1_index())
}

#[test]
fn new_machine_is_self_mapped() {
    let (active, _) = machine();
    let root = active.mapper.root_frame();
    assert_eq!(root.number, 101);
    let e = active.mapper.read_table_entry(root, 511);
    assert_eq!(e.frame, 101);
    assert!(e.is_present());
    assert_eq!(active.mapper.translate(0x1000), None);
    assert_eq!(active.mapper.translate(0xffff_ffff_ffff_f000), Some(101 * 4096));
}

#[test]
fn map_to_then_translate() {
    let (mut active, mut pool) = machine();
    let page = Page { number: 0x12345 };
    let frame = Frame { number: 77 };
    assert_eq!(active.mapper.map_to(page, frame, WRITABLE, &mut pool), Ok(()));
    assert_eq!(active.mapper.translate(page.start_address()), Some(frame.start_address()));
    assert_eq!(active.mapper.translate(page.start_address() + 0x123), Some(frame.start_address() + 0x123));
    assert_eq!(active.mapper.translate_page(page), Some(frame));
    let e = leaf(&active.mapper, page);
    assert_eq!(e.frame, 77);
    assert_eq!(e.flags, WRITABLE | PRESENT);
}

#[test]
fn map_to_makes_three_tables_then_none() {
    let (mut active, mut pool) = machine();
    let mut count = 0;
    let mut probe = FramePool::from_range(Frame { number: 1000 }, Frame { number: 1099 });
    while probe.allocate_frame().is_some() {
        count += 1;
    }
    assert_eq!(count, 100);
    assert_eq!(active.mapper.map_to(Page { number: 0x200 }, Frame { number: 5 }, 0, &mut pool), Ok(()));
    assert_eq!(active.mapper.map_to(Page { number: 0x201 }, Frame { number: 6 }, 0, &mut pool), Ok(()));
    let mut left = 0;
    while pool.allocate_frame().is_some() {
        left += 1;
    }
    assert_eq!(left, 97);
}

#[test]
fn map_to_twice_is_already_mapped() {
    let (mut active, mut pool) = machine();
    let page = Page { number: 3 };
    assert_eq!(active.mapper.map_to(page, Frame { number: 9 }, 0, &mut pool), Ok(()));
    assert_eq!(active.mapper.map_to(page, Frame { number: 10 }, 0, &mut pool), Err(MapError::AlreadyMapped));
    assert_eq!(active.mapper.translate_page(page), Some(Frame { number: 9 }));
}

#[test]
fn map_to_without_frames_is_out_of_frames() {
    let mut active = ActivePageTable::new(Frame { number: 101 });
    let mut pool = FramePool::from_range(Frame { number: 500 }, Frame { number: 501 });
    let page = Page { number: 3 };
    assert_eq!(active.mapper.map_to(page, Frame { number: 9 }, 0, &mut pool), Err(MapError::OutOfFrames));
    assert_eq!(active.mapper.translate_page(page), None);
}

#[test]
fn identity_map_translates_to_itself() {
    let (mut active, mut pool) = machine();
    let frame = Frame::containing_address(0xb8000);
    assert_eq!(active.mapper.identity_map(frame, WRITABLE, &mut pool), Ok(()));
    assert_eq!(active.mapper.translate(frame.start_address()), Some(frame.start_address()));
}

#[test]
fn unmap_clears_and_frees() {
    let (mut active, mut pool) = machine();
    let page = Page { number: 0x4444 };
    let frame = Frame { number: 2000 };
    assert_eq!(active.mapper.map_to(page, frame, WRITABLE, &mut pool), Ok(()));
    assert_eq!(active.mapper.unmap(page, &mut pool), Ok(()));
    assert_eq!(active.mapper.translate(page.start_address()), None);
    let mut freed = false;
    while let Some(f) = pool.allocate_frame() {
        if f == frame {
            freed = true;
        }
    }
    assert!(freed);
}

#[test]
fn unmap_of_unmapped_page_fails() {
    let (mut active, mut pool) = machine();
    assert_eq!(active.mapper.unmap(Page { number: 8 }, &mut pool), Err(UnmapError::NotMapped));
}

#[test]
fn temporary_page_leaves_no_mapping() {
    let (mut active, mut pool) = machine();
    let mut temp = TemporaryPage::new(Page { number: 0xcafebabe }, &mut pool);
    let target = Frame { number: 3000 };
    let table = temp.map_table_frame(target, &mut active).unwrap();
    assert_eq!(table, target);
    assert_eq!(active.mapper.translate(temp.page().start_address()), Some(target.start_address()));
    temp.unmap(&mut active);
    assert_eq!(active.mapper.translate(temp.page().start_address()), None);
    assert_eq!(active.mapper.translate_page(temp.page()), None);
}

#[test]
fn inactive_table_is_self_mapped() {
    let (mut active, mut pool) = machine();
    let mut temp = TemporaryPage::new(Page { number: 0xcafebabe }, &mut pool);
    let frame = pool.allocate_frame().unwrap();
    let table = InactivePageTable::new(frame, &mut active, &mut temp).ok().unwrap();
    assert_eq!(table.p4_frame(), frame);
    let e = active.mapper.read_table_entry(frame, 511);
    assert_eq!(e.frame, frame.number);
    assert_eq!(e.flags, PRESENT | WRITABLE);
    assert!(active.mapper.read_table_entry(frame, 0).is_unused());
    assert_eq!(active.mapper.translate_page(temp.page()), None);
}

#[test]
fn splice_edits_the_inactive_table() {
    let (mut active, mut pool) = machine();
    let mut temp = TemporaryPage::new(Page { number: 0xcafebabe }, &mut pool);
    let frame = pool.allocate_frame().unwrap();
    let table = InactivePageTable::new(frame, &mut active, &mut temp).ok().unwrap();
    let backup = active.splice(&table, &mut temp).unwrap();
    assert_eq!(backup.number, 101);
    let page = Page { number: 0x42 };
    assert_eq!(active.mapper.map_to(page, Frame { number: 0x42 }, NO_EXECUTE, &mut pool), Ok(()));
    assert_eq!(active.mapper.translate_page(page), Some(Frame { number: 0x42 }));
    active.restore(backup, &mut temp);
    assert_eq!(active.mapper.translate_page(page), None);
    assert_eq!(active.mapper.read_table_entry(backup, 511).frame, 101);
    let old = active.switch(table);
    assert_eq!(old.p4_frame().number, 101);
    assert_eq!(active.mapper.root_frame(), frame);
    assert_eq!(active.mapper.translate_page(page), Some(Frame { number: 0x42 }));
}

#[test]
fn entry_accessors() {
    let unused = Entry::unused();
    assert!(unused.is_unused());
    assert!(!unused.is_present());
    assert_eq!(unused.pointed_frame(), None);
    let e = Entry { frame: 12, flags: PRESENT | WRITABLE };
    assert!(!e.is_unused());
    assert!(e.is_present());
    assert!(!e.is_huge());
    assert_eq!(e.pointed_frame(), Some(Frame { number: 12 }));
    let absent = Entry { frame: 12, flags: WRITABLE };
    assert_eq!(absent.pointed_frame(), None);
}
