use rv64_mm::attr::PA_G;
use rv64_mm::attr::PA_R;
use rv64_mm::attr::PA_V;
use rv64_mm::attr::PA_W;
use rv64_mm::attr::PA_X;
use rv64_mm::boot::BootSequencer;
use rv64_mm::boot::BootStage;
use rv64_mm::boot::ceil_to;
use rv64_mm::boot::KIMAGE_VIRT_BASE;
use rv64_mm::boot::MMIO_VIRT_BASE;
use rv64_mm::diag::usize_to_string;
use rv64_mm::walker::RV39;

#[test]
fn ceil_to_rounds_up() {
    assert_eq!(ceil_to(0x8030_0000, 0x1000), 0x8030_0000);
    assert_eq!(ceil_to(0x8030_0001, 0x1000), 0x8030_1000);
    assert_eq!(ceil_to(0x8030_0001, 0x20_0000), 0x8040_0000);
    assert_eq!(ceil_to(0x8030_0000, 0x4000_0000), 0xC000_0000);
}

#[test]
fn boot_sequence_runs_in_order() {
    let mut boot = BootSequencer::new();
    assert_eq!(boot.stage(), BootStage::Uninitialized);
    boot.register_window(0x8040_0000, 0x8070_0000);
    assert_eq!(boot.stage(), BootStage::WindowRegistered);
    boot.alloc_root_table().unwrap();
    assert_eq!(boot.stage(), BootStage::RootTableAllocated);
    boot.install_mappings(0x8030_0000).unwrap();
    assert_eq!(boot.stage(), BootStage::MappingsInstalled);
    // the root table came from the smallest seeded block, the order-8
    // block at frame 512 of the window; the translation-root value
    // selects the three-level mode above its frame number
    assert_eq!(boot.satp_value(), 0x8000_0000_0000_0000u64 + 0x80600);
    boot.activate();
    assert_eq!(boot.stage(), BootStage::TranslationActive);
}

#[test]
fn boot_mappings_land_where_expected() {
    let mut boot = BootSequencer::new();
    boot.register_window(0x8040_0000, 0x8070_0000);
    boot.alloc_root_table().unwrap();
    boot.install_mappings(0x8030_0000).unwrap();
    let levels = RV39::levels();
    let attr = PA_V + PA_R + PA_W + PA_X + PA_G;
    let tables = boot.tables().as_ref().unwrap();
    // the device window: one gigapage at physical zero
    let mmio = tables.entry_at(&levels, 1, MMIO_VIRT_BASE).unwrap();
    assert_eq!(mmio.get().0, 0);
    assert_eq!(mmio.get().1 .0, attr);
    // the kernel image: 4 KiB pages from frame 0x80200
    let ki = tables.entry_at(&levels, 3, KIMAGE_VIRT_BASE).unwrap();
    assert_eq!(ki.get().0, 0x80200);
    let ki2 = tables.entry_at(&levels, 3, KIMAGE_VIRT_BASE + 0x1000).unwrap();
    assert_eq!(ki2.get().0, 0x80201);
    // the direct map covers the first 2 MiB boundary past the kernel end
    // with 4 KiB pages: 0x8030_0000 maps to its own frame
    let dm = tables
        .entry_at(&levels, 3, 0xffff_ffd6_0000_0000u64 + 0x8030_0000)
        .unwrap();
    assert_eq!(dm.get().0, 0x80300);
}

#[test]
fn decimal_rendering() {
    assert_eq!(usize_to_string(0).as_str(), "0");
    assert_eq!(usize_to_string(7).as_str(), "7");
    assert_eq!(usize_to_string(10).as_str(), "10");
    assert_eq!(usize_to_string(1234567).as_str(), "1234567");
}

#[test]
fn panic_report_text() {
    let r = rv64_mm::diag::panic("Page index out of range", "main.rs", 42, 7);
    assert_eq!(
        r.as_str(),
        "Panicked with message: \"Page index out of range\" at main.rs:42:7\n"
    );
}
