use rv64_mm::attr::Attribute;
use rv64_mm::attr::PageAttribute;
use rv64_mm::attr::TableAttribute;
use rv64_mm::attr::PAGE_EXECUTE;
use rv64_mm::attr::PAGE_GLOBAL;
use rv64_mm::attr::PAGE_PRESENT;
use rv64_mm::attr::PAGE_READ;
use rv64_mm::attr::PAGE_WRITE;
use rv64_mm::attr::PA_G;
use rv64_mm::attr::PA_R;
use rv64_mm::attr::PA_V;
use rv64_mm::attr::PA_W;
use rv64_mm::attr::PA_X;
use rv64_mm::pte::RV39PTE;

#[test]
fn null_attribute_is_zero() {
    assert_eq!(Attribute::null().0, 0);
}

#[test]
fn leaf_attr_exact_encoding() {
    let p = PageAttribute(PAGE_PRESENT + PAGE_READ + PAGE_WRITE);
    let raw = Attribute::from_page_attr(p);
    assert_eq!(raw.0, PA_V + PA_R + PA_W);
}

#[test]
fn leaf_attr_round_trip_all_combinations() {
    // every portable leaf set holding at least one of read/write/execute
    // survives encoding to the raw field and decoding back
    for bits in 0u64..1024 {
        if bits & (PAGE_READ | PAGE_WRITE | PAGE_EXECUTE) != 0 {
            let raw = Attribute::from_page_attr(PageAttribute(bits));
            let back = raw.as_page_attr().unwrap();
            assert_eq!(back.0, bits);
        }
    }
}

#[test]
fn table_attr_round_trip_all_combinations() {
    // every portable table-descriptor set survives the round trip, and its
    // raw encoding never carries read/write/execute
    for bits in 0u64..16 {
        let raw = Attribute::from_table_attr(TableAttribute(bits));
        assert_eq!(raw.0 & (PA_R | PA_W | PA_X), 0);
        let back = raw.as_table_attr().unwrap();
        assert_eq!(back.0, bits);
    }
}

#[test]
fn pte_packs_frame_above_attribute_field() {
    let mut pte = RV39PTE(0);
    pte.set(0x80000, Attribute(0xcf));
    assert_eq!(pte.0, (0x80000u64 << 10) | 0xcf);
    let (pfn, attr) = pte.get();
    assert_eq!(pfn, 0x80000);
    assert_eq!(attr.0, 0xcf);
}

#[test]
fn pte_round_trip_leaf_for_both_modes() {
    // the entry layout is shared by the three- and four-level modes; a
    // frame number at the top of the four-level range still round-trips
    for pfn in [0u64, 1, 0x80200, 0x0fff_ffff_ffff] {
        let portable = PageAttribute(PAGE_PRESENT + PAGE_READ + PAGE_EXECUTE + PAGE_GLOBAL);
        let raw = Attribute::from_page_attr(portable);
        let mut pte = RV39PTE(0);
        pte.set(pfn, raw);
        let (got_pfn, got_raw) = pte.get();
        assert_eq!(got_pfn, pfn);
        let back = got_raw.as_page_attr().unwrap();
        assert_eq!(back.0, portable.0);
    }
}

#[test]
fn pte_presence_and_table_discriminant() {
    assert!(!RV39PTE(0).is_present());
    let mut table_ptr = RV39PTE(0);
    table_ptr.set(0x80401, Attribute(PA_V));
    assert!(table_ptr.is_present());
    assert!(table_ptr.is_table_ptr());
    let mut leaf = RV39PTE(0);
    leaf.set(0x80401, Attribute(PA_V + PA_R));
    assert!(leaf.is_present());
    assert!(!leaf.is_table_ptr());
    let mut global_table = RV39PTE(0);
    global_table.set(0, Attribute(PA_V + PA_G));
    assert!(global_table.is_table_ptr());
}
