use kernel_paging::address::Frame;
use kernel_paging::allocator::{FrameAllocator, FramePool};
use kernel_paging::bump::{align_down, align_up, Heap};

#[test]
fn frame_pool_hands_out_each_frame_once() {
    let mut pool = FramePool::from_range(Frame { number: 10 }, Frame { number: 12 });
    let mut seen = Vec::new();
    while let Some(f) = pool.allocate_frame() {
        assert!(!seen.contains(&f.number));
        seen.push(f.number);
    }
    seen.sort();
    assert_eq!(seen, vec![10, 11, 12]);
    assert_eq!(pool.allocate_frame(), None);
}

#[test]
fn frame_pool_takes_frames_back() {
    let mut pool = FramePool::new();
    assert_eq!(pool.allocate_frame(), None);
    pool.deallocate_frame(Frame { number: 42 });
    assert_eq!(pool.allocate_frame(), Some(Frame { number: 42 }));
    assert_eq!(pool.allocate_frame(), None);
}

#[test]
fn align_down_values() {
    assert_eq!(align_down(0x1234, 0x1000), 0x1000);
    assert_eq!(align_down(0x1000, 0x1000), 0x1000);
    assert_eq!(align_down(7, 1), 7);
    assert_eq!(align_down(7, 0), 7);
    assert_eq!(align_down(15, 8), 8);
}

#[test]
fn align_up_values() {
    assert_eq!(align_up(0x1234, 0x1000), 0x2000);
    assert_eq!(align_up(0x1000, 0x1000), 0x1000);
    assert_eq!(align_up(9, 8), 16);
    assert_eq!(align_up(0, 8), 0);
}

#[test]
fn empty_heap_refuses_allocation() {
    let mut heap = Heap::empty();
    assert_eq!(heap.allocate(1, 1), None);
    assert_eq!(heap.next, 0);
}

#[test]
fn heap_bumps_with_alignment() {
    let mut heap = Heap::empty();
    heap.init(0x1000, 0x100);
    assert_eq!(heap.allocate(3, 1), Some(0x1000));
    assert_eq!(heap.allocate(8, 8), Some(0x1008));
    assert_eq!(heap.next, 0x1010);
    assert_eq!(heap.allocate(0xf0, 1), Some(0x1010));
    assert_eq!(heap.allocate(1, 1), None);
    assert_eq!(heap.next, 0x1100);
}
