use kernel_paging::address::{Frame, Page};
use kernel_paging::allocator::{FrameAllocator, FramePool};
use kernel_paging::mapper::{Mapper, UnmapError};
use kernel_paging::memory::{NO_EXECUTE, PRESENT, WRITABLE};
use kernel_paging::paging::ActivePageTable;
use kernel_paging::remap::{
    entry_flags_from_elf_section_flags, remap_the_kernel, BootInformation, ElfSection, RemapError,
    ELF_SECTION_ALLOCATED, ELF_SECTION_EXECUTABLE, ELF_SECTION_WRITABLE,
};

fn leaf_flags(m: &Mapper, page: Page) -> (u64, u64) {
    let root = m.root_frame();
    let e4 = m.read_table_entry(root, page.p4_index());
    let e3 = m.read_table_entry(Frame { number: e4.frame }, page.p3_index());
    let e2 = m.read_table_entry(Frame { number: e3.frame }, page.p2_index());
    let e1 = m.read_table_entry(Frame { number: e2.frame }, page.p1_index());
    (e1.frame, e1.flags)
}

fn boot_info(sections: Vec<ElfSection>) -> BootInformation {
    BootInformation { sections, start_address: 200 * 4096, end_address: 200 * 4096 + 100 }
}

#[test]
fn section_flags_to_entry_flags() {
    let rw = ElfSection { start_address: 0, size: 0, flags: ELF_SECTION_ALLOCATED | ELF_SECTION_WRITABLE };
    assert_eq!(entry_flags_from_elf_section_flags(&rw), PRESENT | WRITABLE | NO_EXECUTE);
    let text = ElfSection { start_address: 0, size: 0, flags: ELF_SECTION_ALLOCATED | ELF_SECTION_EXECUTABLE };
    assert_eq!(entry_flags_from_elf_section_flags(&text), PRESENT);
    let none = ElfSection { start_address: 0, size: 0, flags: 0 };
    assert_eq!(entry_flags_from_elf_section_flags(&none), NO_EXECUTE);
}

#[test]
fn remap_end_to_end() {
    let mut active = ActivePageTable::new(Frame { number: 101 });
    let mut pool = FramePool::from_range(Frame { number: 1000 }, Frame { number: 1099 });
    let section = ElfSection {
        start_address: 100 * 4096,
        size: 3 * 4096,
        flags: ELF_SECTION_ALLOCATED | ELF_SECTION_WRITABLE,
    };
    let info = boot_info(vec![section]);
    assert_eq!(remap_the_kernel(&mut pool, &info, &mut active), Ok(()));
    let root = active.mapper.root_frame();
    assert_ne!(root.number, 101);
    assert!(root.number >= 1000 && root.number <= 1099);
    for n in [100u64, 102] {
        assert_eq!(active.mapper.translate(n * 4096), Some(n * 4096));
        assert_eq!(leaf_flags(&active.mapper, Page { number: n }), (n, PRESENT | WRITABLE | NO_EXECUTE));
    }
    assert_eq!(active.mapper.translate(101 * 4096), None);
    assert_eq!(active.mapper.translate(0xb8000), Some(0xb8000));
    assert_eq!(leaf_flags(&active.mapper, Page { number: 0xb8 }), (0xb8, PRESENT | WRITABLE));
    assert_eq!(active.mapper.translate(200 * 4096 + 50), Some(200 * 4096 + 50));
    assert_eq!(leaf_flags(&active.mapper, Page { number: 200 }), (200, PRESENT));
    assert_eq!(active.mapper.translate(0xcafebabe000), None);
    assert_eq!(active.mapper.translate(103 * 4096), None);
}

#[test]
fn remap_skips_sections_not_allocated() {
    let mut active = ActivePageTable::new(Frame { number: 101 });
    let mut pool = FramePool::from_range(Frame { number: 1000 }, Frame { number: 1099 });
    let kernel = ElfSection { start_address: 101 * 4096, size: 4096, flags: ELF_SECTION_ALLOCATED };
    let debug = ElfSection { start_address: 0x123, size: 0x10, flags: 0 };
    let info = boot_info(vec![kernel, debug]);
    assert_eq!(remap_the_kernel(&mut pool, &info, &mut active), Ok(()));
    assert_eq!(active.mapper.translate(0), None);
}

#[test]
fn remap_rejects_misaligned_section() {
    let mut active = ActivePageTable::new(Frame { number: 101 });
    let mut pool = FramePool::from_range(Frame { number: 1000 }, Frame { number: 1099 });
    let section = ElfSection { start_address: 100 * 4096 + 8, size: 4096, flags: ELF_SECTION_ALLOCATED };
    let info = boot_info(vec![section]);
    assert_eq!(remap_the_kernel(&mut pool, &info, &mut active), Err(RemapError::MisalignedSection));
    assert_eq!(active.mapper.root_frame().number, 101);
}

#[test]
fn remap_without_frames_fails() {
    let mut active = ActivePageTable::new(Frame { number: 101 });
    let mut pool = FramePool::new();
    let info = boot_info(vec![]);
    assert_eq!(remap_the_kernel(&mut pool, &info, &mut active), Err(RemapError::OutOfFrames));
}

#[test]
fn remap_needs_old_root_mapped_for_guard() {
    let mut active = ActivePageTable::new(Frame { number: 101 });
    let mut pool = FramePool::from_range(Frame { number: 1000 }, Frame { number: 1099 });
    let section = ElfSection { start_address: 100 * 4096, size: 4096, flags: ELF_SECTION_ALLOCATED };
    let info = boot_info(vec![section]);
    assert_eq!(
        remap_the_kernel(&mut pool, &info, &mut active),
        Err(RemapError::GuardFailed(UnmapError::NotMapped))
    );
}

#[test]
fn remap_gives_old_root_frame_back() {
    let mut active = ActivePageTable::new(Frame { number: 101 });
    let mut pool = FramePool::from_range(Frame { number: 1000 }, Frame { number: 1099 });
    let section = ElfSection {
        start_address: 100 * 4096,
        size: 3 * 4096,
        flags: ELF_SECTION_ALLOCATED | ELF_SECTION_WRITABLE,
    };
    let info = boot_info(vec![section]);
    assert_eq!(remap_the_kernel(&mut pool, &info, &mut active), Ok(()));
    let root = active.mapper.root_frame();
    let e = active.mapper.read_table_entry(root, 511);
    assert_eq!((e.frame, e.flags), (root.number, PRESENT | WRITABLE));
    let mut returned = false;
    while let Some(f) = pool.allocate_frame() {
        if f.number == 101 {
            returned = true;
        }
    }
    assert!(returned);
}

#[test]
fn remap_with_few_frames_is_out_of_frames() {
    let mut active = ActivePageTable::new(Frame { number: 101 });
    let mut pool = FramePool::from_range(Frame { number: 1000 }, Frame { number: 1002 });
    let info = boot_info(vec![]);
    assert_eq!(remap_the_kernel(&mut pool, &info, &mut active), Err(RemapError::OutOfFrames));
    assert_eq!(active.mapper.root_frame().number, 101);
}
