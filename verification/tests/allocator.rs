use rv64_mm::buddy::BuddyAllocator;
use rv64_mm::buddy::RawPageHandle;

const WINDOW_START: usize = 0x8040_0000;
const WINDOW_END: usize = 0x8070_0000;
const WINDOW_FRAMES: usize = 768;

fn fresh_window() -> BuddyAllocator {
    let mut alloc = BuddyAllocator::new();
    alloc.create_pages(WINDOW_START, WINDOW_END);
    alloc
}

#[test]
fn window_registration() {
    let alloc = fresh_window();
    assert_eq!(alloc.base_pfn(), 0x80400);
    assert_eq!(alloc.frame_count(), WINDOW_FRAMES);
}

#[test]
fn handle_adapter_round_trip() {
    let alloc = fresh_window();
    let h = alloc.handle_of_pfn(0x80425);
    assert_eq!(h.0, 0x25);
    assert_eq!(alloc.pfn_of(h), 0x80425);
    assert!(alloc.has_management_over(h));
    assert!(!alloc.has_management_over(RawPageHandle(WINDOW_FRAMES)));
}

#[test]
fn exhaustion_scenario() {
    // 0x300000 bytes is 768 frames of 4 KiB: exactly 768 single-frame
    // allocations succeed, the 769th finds nothing
    let mut alloc = fresh_window();
    let mut handles = Vec::new();
    for _ in 0..WINDOW_FRAMES {
        let h = alloc.alloc_order(0).expect("a frame is owed while the window is not full");
        assert!(alloc.refcount(h) == 0);
        handles.push(h);
    }
    assert!(alloc.alloc_order(0).is_none());
    for h in handles {
        alloc.dealloc(h);
    }
    // after full deallocation everything has coalesced again: one block of
    // the maximal order this window can hold (512 frames), one of 256
    let big = alloc.alloc_order(9);
    assert!(big.is_some());
    let rest = alloc.alloc_order(8);
    assert!(rest.is_some());
    assert!(alloc.alloc_order(0).is_none());
}

#[test]
fn alloc_dealloc_restores_free_state() {
    // allocating then immediately deallocating puts the free lists back:
    // the same block is handed out again
    let mut alloc = fresh_window();
    for order in [0u32, 1, 2, 5] {
        let first = alloc.alloc_order(order).unwrap();
        alloc.dealloc(first);
        let second = alloc.alloc_order(order).unwrap();
        assert_eq!(first.0, second.0);
        alloc.dealloc(second);
    }
}

#[test]
fn allocations_never_overlap() {
    // tile the window with blocks of mixed orders and check every frame is
    // covered at most once and the total stays within the window
    let mut alloc = fresh_window();
    let mut covered = [false; WINDOW_FRAMES];
    let mut handles = Vec::new();
    let mut total = 0usize;
    for order in [3u32, 2, 1, 0] {
        while let Some(h) = alloc.alloc_order(order) {
            let size = 1usize << order;
            total += size;
            for f in h.0..h.0 + size {
                assert!(!covered[f], "frame handed out twice");
                covered[f] = true;
            }
            handles.push(h);
        }
    }
    assert!(total <= WINDOW_FRAMES);
    assert_eq!(total, WINDOW_FRAMES);
    for h in handles {
        alloc.dealloc(h);
    }
}

#[test]
fn buddies_coalesce_first_then_second() {
    // frames 0 and 1 are buddies at order zero (the window base frame
    // number is even); once both are free they merge into one order-one
    // block, observable through an order-one allocation that failed before
    let mut alloc = fresh_window();
    let mut handles = Vec::new();
    for _ in 0..WINDOW_FRAMES {
        handles.push(alloc.alloc_order(0).unwrap());
    }
    let a = handles.iter().copied().find(|h| h.0 == 0).unwrap();
    let b = handles.iter().copied().find(|h| h.0 == 1).unwrap();
    assert!(alloc.alloc_order(1).is_none());
    alloc.dealloc(a);
    alloc.dealloc(b);
    let merged = alloc.alloc_order(1).expect("the coalesced block is owed");
    assert_eq!(merged.0, 0);
    assert!(alloc.alloc_order(0).is_none(), "exactly one order-one block came out");
}

#[test]
fn buddies_coalesce_second_then_first() {
    let mut alloc = fresh_window();
    let mut handles = Vec::new();
    for _ in 0..WINDOW_FRAMES {
        handles.push(alloc.alloc_order(0).unwrap());
    }
    let a = handles.iter().copied().find(|h| h.0 == 0).unwrap();
    let b = handles.iter().copied().find(|h| h.0 == 1).unwrap();
    alloc.dealloc(b);
    alloc.dealloc(a);
    let merged = alloc.alloc_order(1).expect("the coalesced block is owed");
    assert_eq!(merged.0, 0);
    assert!(alloc.alloc_order(0).is_none());
}

#[test]
fn refcount_follows_the_owner() {
    let mut alloc = fresh_window();
    let h = alloc.alloc_order(0).unwrap();
    assert_eq!(alloc.refcount(h), 0);
    alloc.inc_refcount(h);
    alloc.inc_refcount(h);
    assert_eq!(alloc.refcount(h), 2);
    alloc.dec_refcount(h);
    alloc.dec_refcount(h);
    assert_eq!(alloc.refcount(h), 0);
    alloc.dealloc(h);
    assert!(alloc.alloc_order(9).is_some());
}

#[test]
fn empty_window_has_nothing_to_give() {
    let mut alloc = BuddyAllocator::new();
    alloc.create_pages(WINDOW_START, WINDOW_START);
    assert_eq!(alloc.frame_count(), 0);
    assert!(alloc.alloc_order(0).is_none());
}

#[test]
fn oversized_order_is_refused() {
    let mut alloc = fresh_window();
    assert!(alloc.alloc_order(11).is_none());
    assert!(alloc.alloc_order(10).is_none());
    assert!(alloc.alloc_order(9).is_some());
}

#[test]
fn split_marks_partner_frames() {
    // taking one frame out of a fresh window splits the smallest seeded
    // block, the order-8 block at frame 512; the returned head is not
    // free and keeps order zero
    let mut alloc = fresh_window();
    let h = alloc.alloc_order(0).unwrap();
    assert_eq!(h.0, 512);
    assert!(!alloc.is_free(h));
    assert_eq!(alloc.order(h), 0);
    // its split partner at order zero is free and marked as the partner
    let partner = RawPageHandle(513);
    assert!(alloc.is_free(partner));
    assert_eq!(alloc.order(partner), 0);
}
