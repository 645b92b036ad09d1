use kernel_paging::address::{Frame, Page};
use kernel_paging::allocator::FramePool;
use kernel_paging::paging::ActivePageTable;
use kernel_paging::remap::{BootInformation, ElfSection, ELF_SECTION_ALLOCATED, ELF_SECTION_WRITABLE};
use kernel_paging::stack::{MemoryController, StackAllocator, HEAP_SIZE, HEAP_START};

fn setup() -> (ActivePageTable, FramePool, StackAllocator) {
    let active = ActivePageTable::new(Frame { number: 101 });
    let pool = FramePool::from_range(Frame { number: 1000 }, Frame { number: 1099 });
    let stacks = StackAllocator::new(Page::range_inclusive(Page { number: 400 }, Page { number: 410 }));
    (active, pool, stacks)
}

#[test]
fn stack_sits_above_an_unmapped_guard_page() {
    let (mut active, mut pool, mut stacks) = setup();
    let stack = stacks.alloc_stack(&mut active, &mut pool, 3).unwrap();
    assert_eq!(stack.bottom(), 401 * 4096);
    assert_eq!(stack.top(), 404 * 4096);
    assert_eq!(active.mapper.translate(400 * 4096), None);
    for n in 401u64..=403 {
        assert!(active.mapper.translate(n * 4096).is_some());
    }
    assert_eq!(active.mapper.translate(404 * 4096), None);
    let next = stacks.alloc_stack(&mut active, &mut pool, 2).unwrap();
    assert_eq!(next.bottom(), 405 * 4096);
    assert_eq!(next.top(), 407 * 4096);
    assert_eq!(active.mapper.translate(404 * 4096), None);
}

#[test]
fn stack_of_no_pages_or_too_many_pages_fails() {
    let (mut active, mut pool, mut stacks) = setup();
    assert!(stacks.alloc_stack(&mut active, &mut pool, 0).is_none());
    assert!(stacks.alloc_stack(&mut active, &mut pool, 11).is_none());
    let stack = stacks.alloc_stack(&mut active, &mut pool, 10).unwrap();
    assert_eq!(stack.top(), 411 * 4096);
    assert!(stacks.alloc_stack(&mut active, &mut pool, 1).is_none());
}

#[test]
fn stack_fails_without_frames() {
    let mut active = ActivePageTable::new(Frame { number: 101 });
    let mut pool = FramePool::new();
    let mut stacks = StackAllocator::new(Page::range_inclusive(Page { number: 400 }, Page { number: 410 }));
    assert!(stacks.alloc_stack(&mut active, &mut pool, 1).is_none());
}

#[test]
fn memory_controller_allocates_stack() {
    let (active, pool, stacks) = setup();
    let mut controller = MemoryController { active_table: active, frame_allocator: pool, stack_allocator: stacks };
    let stack = controller.alloc_stack(1).unwrap();
    assert_eq!(stack.bottom(), 401 * 4096);
    assert_eq!(stack.top(), 402 * 4096);
    assert!(controller.active_table.mapper.translate(401 * 4096).is_some());
}

#[test]
fn memory_init_maps_heap_and_keeps_stack_area() {
    let active = ActivePageTable::new(Frame { number: 101 });
    let pool = FramePool::from_range(Frame { number: 1000 }, Frame { number: 1199 });
    let section = ElfSection {
        start_address: 100 * 4096,
        size: 3 * 4096,
        flags: ELF_SECTION_ALLOCATED | ELF_SECTION_WRITABLE,
    };
    let info = BootInformation { sections: vec![section], start_address: 200 * 4096, end_address: 200 * 4096 + 100 };
    let mut controller = MemoryController::init(pool, &info, active).ok().unwrap();
    assert!(controller.active_table.mapper.translate(HEAP_START).is_some());
    assert!(controller.active_table.mapper.translate(HEAP_START + HEAP_SIZE - 1).is_some());
    assert_eq!(controller.active_table.mapper.translate(HEAP_START + HEAP_SIZE), None);
    assert_eq!(controller.active_table.mapper.translate(101 * 4096), None);
    let stack = controller.alloc_stack(1).unwrap();
    let heap_end_page = (HEAP_START + HEAP_SIZE - 1) / 4096;
    assert_eq!(stack.bottom(), (heap_end_page + 2) * 4096);
    assert_eq!(stack.top(), (heap_end_page + 3) * 4096);
}
