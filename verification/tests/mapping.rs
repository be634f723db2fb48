use rv64_mm::attr::Attribute;
use rv64_mm::attr::PA_G;
use rv64_mm::attr::PA_R;
use rv64_mm::attr::PA_V;
use rv64_mm::attr::PA_W;
use rv64_mm::attr::PA_X;
use rv64_mm::buddy::BuddyAllocator;
use rv64_mm::walker::MapError;
use rv64_mm::walker::PageTableLevel;
use rv64_mm::walker::PageTables;
use rv64_mm::walker::RV39;
use rv64_mm::walker::RV48;

const WINDOW_START: usize = 0x8040_0000;
const WINDOW_END: usize = 0x8070_0000;

fn setup() -> (BuddyAllocator, PageTables) {
    let mut alloc = BuddyAllocator::new();
    alloc.create_pages(WINDOW_START, WINDOW_END);
    let tables = PageTables::new(&mut alloc).unwrap();
    (alloc, tables)
}

fn leaf_attr() -> Attribute {
    Attribute(PA_V + PA_R + PA_W + PA_X + PA_G)
}

#[test]
fn mode_level_layouts() {
    let l3 = RV39::levels();
    assert_eq!(l3.len(), 3);
    assert_eq!(l3[0], PageTableLevel::new(30, 9));
    assert_eq!(l3[1], PageTableLevel::new(21, 9));
    assert_eq!(l3[2], PageTableLevel::new(12, 9));
    let l4 = RV48::levels();
    assert_eq!(l4.len(), 4);
    assert_eq!(l4[0], PageTableLevel::new(39, 9));
    assert_eq!(l4[3], PageTableLevel::new(12, 9));
}

#[test]
fn one_unit_yields_one_slot() {
    let (mut alloc, mut tables) = setup();
    let levels = RV39::levels();
    let va: u64 = 0xffff_ffff_8020_0000;
    let addrs = tables
        .map_linear(&mut alloc, &levels, 3, va, 1, 0x80200, 1, leaf_attr())
        .unwrap();
    assert_eq!(addrs.len(), 1);
    assert_eq!(addrs[0], va);
}

#[test]
fn n_units_yield_n_increasing_aligned_slots() {
    let (mut alloc, mut tables) = setup();
    let levels = RV39::levels();
    let va: u64 = 0xffff_ffff_8020_0000;
    let n = 5usize;
    let addrs = tables
        .map_linear(&mut alloc, &levels, 3, va, n, 0x80200, 1, leaf_attr())
        .unwrap();
    assert_eq!(addrs.len(), n);
    for k in 0..n {
        assert_eq!(addrs[k], va + (k as u64) * 0x1000);
        assert_eq!(addrs[k] % 0x1000, 0);
        if k > 0 {
            assert!(addrs[k - 1] < addrs[k]);
        }
    }
}

#[test]
fn level_restriction_yields_large_pages() {
    // a 2 MiB region mapped one level short of the leaf takes exactly one
    // slot, not one per 4 KiB page; 4 MiB take two
    let (mut alloc, mut tables) = setup();
    let levels = RV39::levels();
    let va: u64 = 0xffff_ffd6_8000_0000;
    let addrs = tables
        .map_linear(&mut alloc, &levels, 2, va, 1, 0x80000, 0x200, leaf_attr())
        .unwrap();
    assert_eq!(addrs.len(), 1);
    assert_eq!(addrs[0], va);
    let addrs2 = tables
        .map_linear(&mut alloc, &levels, 2, va + 0x20_0000, 2, 0x80200, 0x200, leaf_attr())
        .unwrap();
    assert_eq!(addrs2.len(), 2);
    assert_eq!(addrs2[1] - addrs2[0], 0x20_0000);
}

#[test]
fn installed_leaves_hold_frame_and_attributes() {
    let (mut alloc, mut tables) = setup();
    let levels = RV39::levels();
    let va: u64 = 0xffff_ffff_8020_0000;
    let attr = leaf_attr();
    tables
        .map_linear(&mut alloc, &levels, 3, va, 3, 0x80200, 1, attr)
        .unwrap();
    for k in 0..3u64 {
        let pte = tables.entry_at(&levels, 3, va + k * 0x1000).unwrap();
        let (pfn, raw) = pte.get();
        assert_eq!(pfn, 0x80200 + k);
        assert_eq!(raw.0, attr.0);
    }
    // a neighbouring address in the same table is still non-present
    let empty = tables.entry_at(&levels, 3, va + 0x3000).unwrap();
    assert!(!empty.is_present());
}

#[test]
fn gigapage_mapping_at_root_level() {
    let (mut alloc, mut tables) = setup();
    let levels = RV39::levels();
    let va: u64 = 0xffff_ffff_0000_0000;
    let addrs = tables
        .map_linear(&mut alloc, &levels, 1, va, 1, 0, 0x40000, leaf_attr())
        .unwrap();
    assert_eq!(addrs, vec![va]);
    let pte = tables.entry_at(&levels, 1, va).unwrap();
    let (pfn, raw) = pte.get();
    assert_eq!(pfn, 0);
    assert_eq!(raw.0, leaf_attr().0);
}

#[test]
fn four_level_mode_maps_and_resolves() {
    let (mut alloc, mut tables) = setup();
    let levels = RV48::levels();
    let va: u64 = 0x0000_7f00_1234_5000;
    let attr = leaf_attr();
    let addrs = tables
        .map_linear(&mut alloc, &levels, 4, va, 2, 0x123, 1, attr)
        .unwrap();
    assert_eq!(addrs, vec![va, va + 0x1000]);
    let pte = tables.entry_at(&levels, 4, va + 0x1000).unwrap();
    assert_eq!(pte.get().0, 0x124);
    assert_eq!(pte.get().1 .0, attr.0);
}

#[test]
fn obstructed_walk_is_reported() {
    let (mut alloc, mut tables) = setup();
    let levels = RV39::levels();
    let va: u64 = 0xffff_ffff_0000_0000;
    tables
        .map_linear(&mut alloc, &levels, 1, va, 1, 0, 0x40000, leaf_attr())
        .unwrap();
    let r = tables.map_linear(&mut alloc, &levels, 3, va, 1, 0x80200, 1, leaf_attr());
    assert_eq!(r.unwrap_err(), MapError::Obstructed);
}

#[test]
fn exhausted_allocator_is_reported() {
    // a two-frame window: one frame for the root, one for the mid-level
    // table, nothing left for the leaf-level table
    let mut alloc = BuddyAllocator::new();
    alloc.create_pages(WINDOW_START, WINDOW_START + 2 * 0x1000);
    let mut tables = PageTables::new(&mut alloc).unwrap();
    let levels = RV39::levels();
    let r = tables.map_linear(
        &mut alloc,
        &levels,
        3,
        0xffff_ffff_8020_0000,
        1,
        0x80200,
        1,
        leaf_attr(),
    );
    assert_eq!(r.unwrap_err(), MapError::OutOfFrames);
}
