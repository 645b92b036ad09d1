use kernel_paging::address::{Frame, Page, PAGE_SIZE};
use kernel_paging::mapper::{Level, Table};

#[test]
fn containing_page_same_for_addresses_in_one_page() {
    let a = Page::containing_address(0x5000);
    let b = Page::containing_address(0x5fff);
    let c = Page::containing_address(0x5abc);
    assert_eq!(a, b);
    assert_eq!(a, c);
    assert_eq!(a.number, 5);
    assert_ne!(a, Page::containing_address(0x6000));
}

#[test]
fn containing_page_in_upper_half() {
    let p = Page::containing_address(0xffff_8000_0000_1234);
    assert_eq!(p.number, 0xffff_8000_0000_1234 / PAGE_SIZE);
}

#[test]
fn page_index_round_trip() {
    for number in [0u64, 1, 511, 512, 0x1234_5678, 0xcafebabe, 0xf_ffff_ffff] {
        let p = Page { number };
        let back = (p.p4_index() << 27) | (p.p3_index() << 18) | (p.p2_index() << 9) | p.p1_index();
        assert_eq!(back, number);
    }
}

#[test]
fn page_indices_of_known_page() {
    let p = Page { number: 0xcafebabe };
    assert_eq!(p.p4_index(), 0x19);
    assert_eq!(p.p3_index(), 0xbf);
    assert_eq!(p.p2_index(), 0x15d);
    assert_eq!(p.p1_index(), 0xbe);
    assert_eq!(p.start_address(), 0xcafebabe000);
}

#[test]
fn frame_containing_address_and_start() {
    let f = Frame::containing_address(0xb8000);
    assert_eq!(f.number, 0xb8);
    assert_eq!(f.start_address(), 0xb8000);
    assert_eq!(Frame::containing_address(0xb8fff), f);
}

#[test]
fn page_range_is_inclusive() {
    let mut it = Page::range_inclusive(Page { number: 7 }, Page { number: 9 });
    assert_eq!(it.next(), Some(Page { number: 7 }));
    assert_eq!(it.next(), Some(Page { number: 8 }));
    assert_eq!(it.next(), Some(Page { number: 9 }));
    assert_eq!(it.start.number, 10);
    assert_eq!(it.next(), None);
    assert_eq!(it.next(), None);
}

#[test]
fn page_range_empty_when_reversed() {
    let mut it = Page::range_inclusive(Page { number: 9 }, Page { number: 7 });
    assert_eq!(it.next(), None);
}

#[test]
fn recursive_table_addresses() {
    let p4 = Table::p4();
    assert_eq!(p4.address(), 0xffff_ffff_ffff_f000);
    let p3 = p4.child(0);
    assert_eq!(p3.level, Level::P3);
    assert_eq!(p3.address(), 0xffff_ffff_ffe0_0000);
    let p2 = p3.child(1);
    assert_eq!(p2.level, Level::P2);
    assert_eq!(p2.address(), 0xffff_ffff_c000_1000);
    let p1 = p2.child(2);
    assert_eq!(p1.level, Level::P1);
    assert_eq!(p1.address(), 0xffff_ff80_0020_2000);
}

#[test]
fn page_range_restarts_from_a_copy() {
    let mut it = Page::range_inclusive(Page { number: 1 }, Page { number: 2 });
    let saved = it;
    assert_eq!(it.next(), Some(Page { number: 1 }));
    let mut again = saved;
    assert_eq!(again.next(), Some(Page { number: 1 }));
    assert_eq!(it.next(), Some(Page { number: 2 }));
}
