//! The boot sequencer: a linear state machine that registers the physical
//! window, allocates the root table, installs the identity/offset/kernel
//! mappings, and computes the value for the hardware translation-root
//! switch. The switch itself (writing the translation register and
//! invalidating the translation cache) is the caller's single irreversible
//! hardware action and happens outside this library; the sequencer pins
//! down everything that must be true before it.

use vstd::prelude::*;
use vstd::arithmetic::power2::pow2;
use vstd::arithmetic::power2::lemma2_to64;
use vstd::arithmetic::power2::lemma2_to64_rest;

use crate::attr::Attribute;
use crate::attr::PageAttribute;
use crate::attr::PAGE_PRESENT;
use crate::attr::PAGE_READ;
use crate::attr::PAGE_WRITE;
use crate::attr::PAGE_EXECUTE;
use crate::attr::PAGE_GLOBAL;
use crate::buddy::BuddyAllocator;
use crate::buddy::PAGE_SIZE;
use crate::pte::MAX_PTE_PFN;
use crate::walker::MapError;
use crate::walker::PageTables;
use crate::walker::sv39_levels;
use crate::walker::RV39;

verus! {

/// Offset of the kernel image's virtual window above physical memory.
pub const KIMAGE_OFFSET: u64 = 0xffff_ffff_0000_0000;

/// Base of the virtual window that maps low physical memory and devices.
pub const MMIO_VIRT_BASE: u64 = 0xffff_ffff_0000_0000;

/// Base of the large direct-mapped window over physical memory.
pub const PHYS_MAP_VIRT: u64 = 0xffff_ffd6_0000_0000;

/// Virtual base of the kernel image mapping.
pub const KIMAGE_VIRT_BASE: u64 = 0xffff_ffff_8020_0000;

/// First frame of the kernel image in physical memory.
pub const KIMAGE_PFN: u64 = 0x80200;

/// Bytes of physical memory covered by the direct map's gigapage tail.
pub const MEMORY_SIZE: u64 = 0x8000_0000;

/// Bytes of the device window mapped below the kernel image.
pub const MMIO_MAP_SIZE: u64 = 0x2000_0000;

/// Size of a 4 KiB leaf page.
pub const SIZE_4K: usize = 0x1000;

/// Size of a 2 MiB leaf page.
pub const SIZE_2M: usize = 0x20_0000;

/// Size of a 1 GiB leaf page.
pub const SIZE_1G: usize = 0x4000_0000;

/// The attribute word of every boot mapping: present, readable, writable,
/// executable and global.
pub const BOOT_ATTR: u64 = 47;

/// `a` rounded up to the next multiple of `m`.
pub open spec fn ceil_align(a: int, m: int) -> int {
    (a + m - 1) / m * m
}

/// Everything `install_mappings` owes once it returns successfully, stated
/// over the walk of the table arena: the device window's gigapage at the
/// shared virtual base names frame zero; the direct map takes physical
/// memory from the end of the kernel image in three abutting phases — 4
/// KiB pages up to the next 2 MiB boundary, 2 MiB pages up to the next 1
/// GiB boundary, then gigapages — each leaf naming the frame of its own
/// physical address; and the 2 MiB kernel image is mapped in 4 KiB pages
/// from its first frame. Every leaf carries the boot attribute word.
pub open spec fn boot_mappings_installed(t: PageTables, ekernel: int) -> bool {
    let lv = sv39_levels();
    let e4k = ceil_align(ekernel, SIZE_4K as int);
    let e2m = ceil_align(ekernel, SIZE_2M as int);
    let e1g = ceil_align(e2m, SIZE_1G as int);
    &&& (t.resolve(lv, 1, MMIO_VIRT_BASE) matches Some(e) && e.spec_pfn() == 0 && e.spec_attr()
        == BOOT_ATTR)
    &&& (forall|k: int|
        0 <= k < (e2m - e4k) / (SIZE_4K as int) ==> (#[trigger] t.resolve(
            lv,
            3,
            ((PHYS_MAP_VIRT + e4k + k * (SIZE_4K as int)) as u64),
        ) matches Some(e) && e.spec_pfn() == e4k / (SIZE_4K as int) + k && e.spec_attr()
            == BOOT_ATTR))
    &&& (forall|k: int|
        0 <= k < (e1g - e2m) / (SIZE_2M as int) ==> (#[trigger] t.resolve(
            lv,
            2,
            ((PHYS_MAP_VIRT + e2m + k * (SIZE_2M as int)) as u64),
        ) matches Some(e) && e.spec_pfn() == e2m / (SIZE_4K as int) + k * 0x200 && e.spec_attr()
            == BOOT_ATTR))
    &&& (forall|k: int|
        0 <= k < (MEMORY_SIZE as int) / (SIZE_1G as int) ==> (#[trigger] t.resolve(
            lv,
            1,
            ((PHYS_MAP_VIRT + e1g + k * (SIZE_1G as int)) as u64),
        ) matches Some(e) && e.spec_pfn() == e1g / (SIZE_4K as int) + k * 0x40000 && e.spec_attr()
            == BOOT_ATTR))
    &&& (forall|k: int|
        0 <= k < 512 ==> (#[trigger] t.resolve(
            lv,
            3,
            ((KIMAGE_VIRT_BASE + k * (SIZE_4K as int)) as u64),
        ) matches Some(e) && e.spec_pfn() == KIMAGE_PFN + k && e.spec_attr() == BOOT_ATTR))
}

/// A quotient scaled back by its divisor stays at or below the dividend.
proof fn lemma_div_mul_bound(x: int, d: int)
    requires
        x >= 0,
        d >= 1,
    ensures
        0 <= (x / d) * d <= x,
        x / d <= x,
{
    vstd::arithmetic::div_mod::lemma_fundamental_div_mod(x, d);
    assert(0 <= (x / d) * d <= x && x / d <= x) by (nonlinear_arith)
        requires
            x == d * (x / d) + x % d,
            0 <= x % d < d,
            d >= 1,
            x >= 0,
    ;
}

/// Rounds `addr` up to the next multiple of `align`.
pub fn ceil_to(addr: usize, align: usize) -> (r: usize)
    requires
        align >= 1,
        addr + align <= usize::MAX,
    ensures
        addr <= r < addr + align,
        r as int % (align as int) == 0,
        r == ceil_align(addr as int, align as int),
{
    let q = (addr + align - 1) / align;
    proof {
        let a = addr as int;
        let al = align as int;
        vstd::arithmetic::div_mod::lemma_fundamental_div_mod(a + al - 1, al);
        let qq = (a + al - 1) / al;
        assert(qq * al <= a + al - 1 && qq * al >= a) by (nonlinear_arith)
            requires
                al >= 1,
                a >= 0,
                a + al - 1 == al * qq + (a + al - 1) % al,
                0 <= (a + al - 1) % al < al,
        ;
        vstd::arithmetic::div_mod::lemma_mod_multiples_basic(qq, al);
    }
    q * align
}

/// The stages of the boot sequence, in order; there is no way back.
#[derive(Clone, Copy, PartialEq, Eq, Structural, Debug)]
pub enum BootStage {
    /// Nothing set up yet.
    Uninitialized,
    /// The physical window is registered with the allocator.
    WindowRegistered,
    /// The root translation table is allocated and zeroed.
    RootTableAllocated,
    /// All boot mappings are installed; the switch may happen.
    MappingsInstalled,
    /// The hardware translation root has been switched.
    TranslationActive,
}

/// The boot sequencer: owns the allocator and the table arena and forces
/// the stages into their one legal order.
pub struct BootSequencer {
    stage: BootStage,
    alloc: BuddyAllocator,
    tables: Option<PageTables>,
}

impl BootSequencer {
    /// The current stage.
    pub closed spec fn stage_spec(self) -> BootStage {
        self.stage
    }

    /// The allocator, for stating what the sequencer has done to it.
    pub closed spec fn alloc_spec(self) -> BuddyAllocator {
        self.alloc
    }

    /// The table arena, present from `RootTableAllocated` on.
    pub closed spec fn tables_spec(self) -> Option<PageTables> {
        self.tables
    }

    /// The sequencer's invariant, stage by stage.
    pub closed spec fn wf(self) -> bool {
        &&& self.alloc.inv()
        &&& match self.stage {
            BootStage::Uninitialized => {
                &&& !self.alloc.is_registered()
                &&& self.alloc.n_frames() == 0
                &&& self.tables is None
            },
            BootStage::WindowRegistered => {
                &&& self.alloc.is_registered()
                &&& self.alloc.base() + self.alloc.n_frames() < MAX_PTE_PFN
                &&& self.tables is None
            },
            _ => {
                &&& self.alloc.is_registered()
                &&& self.alloc.base() + self.alloc.n_frames() < MAX_PTE_PFN
                &&& self.tables matches Some(t) && t.inv() && t.consistent_with(self.alloc)
            },
        }
    }

    /// A sequencer with nothing done yet.
    pub fn new() -> (r: Self)
        ensures
            r.wf(),
            r.stage_spec() == BootStage::Uninitialized,
    {
        BootSequencer { stage: BootStage::Uninitialized, alloc: BuddyAllocator::new(), tables: None }
    }

    /// Registers the managed physical window. Must happen exactly once,
    /// first.
    pub fn register_window(&mut self, start: usize, end: usize)
        requires
            old(self).wf(),
            old(self).stage_spec() == BootStage::Uninitialized,
            start % PAGE_SIZE == 0,
            end % PAGE_SIZE == 0,
            start <= end,
            (end - start) / (PAGE_SIZE as int) <= crate::buddy::MAX_FRAMES,
            start / PAGE_SIZE + (end - start) / (PAGE_SIZE as int) <= usize::MAX,
            start / PAGE_SIZE + (end - start) / (PAGE_SIZE as int) < MAX_PTE_PFN,
        ensures
            final(self).wf(),
            final(self).stage_spec() == BootStage::WindowRegistered,
            final(self).alloc_spec().is_registered(),
            final(self).alloc_spec().base() == start as int / PAGE_SIZE as int,
            final(self).alloc_spec().n_frames() == (end - start) as int / PAGE_SIZE as int,
            forall|f: int|
                0 <= f < final(self).alloc_spec().n_frames()
                    ==> #[trigger] final(self).alloc_spec().free_covered(f),
    {
        proof {
            lemma2_to64();
            lemma2_to64_rest();
        }
        self.alloc.create_pages(start, end);
        self.stage = BootStage::WindowRegistered;
    }

    /// Allocates and zeroes the root translation table. Owed to succeed
    /// exactly when the allocator still has a free frame.
    pub fn alloc_root_table(&mut self) -> (r: Result<(), MapError>)
        requires
            old(self).wf(),
            old(self).stage_spec() == BootStage::WindowRegistered,
        ensures
            final(self).wf(),
            (r is Ok) == old(self).alloc_spec().has_free_at_or_above(0),
            r is Ok ==> final(self).stage_spec() == BootStage::RootTableAllocated,
            r is Err ==> *final(self) == *old(self),
    {
        match PageTables::new(&mut self.alloc) {
            Ok(t) => {
                self.tables = Some(t);
                self.stage = BootStage::RootTableAllocated;
                Ok(())
            },
            Err(e) => Err(e),
        }
    }

    /// Installs the boot mappings: the device window below the kernel as
    /// one gigapage, the direct map of physical memory from the end of the
    /// kernel image (4 KiB pages up to the next 2 MiB boundary, then 2 MiB
    /// pages up to the next 1 GiB boundary, then gigapages), and the 2 MiB
    /// kernel image itself in 4 KiB pages. Every region is writable,
    /// readable, executable and global. Allocation exhaustion while
    /// building intermediate tables is fatal for the boot and surfaces as
    /// an error with the allocator empty.
    pub fn install_mappings(&mut self, ekernel_paddr: usize) -> (r: Result<(), MapError>)
        requires
            old(self).wf(),
            old(self).stage_spec() == BootStage::RootTableAllocated,
            0x8020_0000 <= ekernel_paddr <= 0x8040_0000,
        ensures
            final(self).wf(),
            r is Ok ==> final(self).stage_spec() == BootStage::MappingsInstalled,
            r is Ok ==> (final(self).tables_spec() matches Some(t) && boot_mappings_installed(
                t,
                ekernel_paddr as int,
            )),
            r is Err ==> final(self).stage_spec() == old(self).stage_spec(),
            r == Err::<(), MapError>(MapError::OutOfFrames) ==> !final(self).alloc_spec().has_free_at_or_above(0),
    {
        let levels = RV39::levels();
        let attr_bits: u64 = PAGE_PRESENT + PAGE_READ + PAGE_WRITE + PAGE_EXECUTE + PAGE_GLOBAL;
        proof {
            assert(attr_bits & (crate::attr::PAGE_READ | crate::attr::PAGE_WRITE
                | crate::attr::PAGE_EXECUTE) != 0) by (bit_vector)
                requires
                    attr_bits == 47u64,
            ;
            crate::attr::lemma_page_attr_round_trip(attr_bits);
        }
        let attr = Attribute::from_page_attr(PageAttribute(attr_bits));
        let ab = attr.0;
        proof {
            assert(crate::attr::raw_bits_of_page(47u64) == 47) by (bit_vector);
            assert(ab & (crate::attr::PA_R | crate::attr::PA_W | crate::attr::PA_X) != 0)
                by (bit_vector)
                requires
                    ab == 47u64,
            ;
            assert(ab == BOOT_ATTR && ab % 2 == 1);
            lemma2_to64();
            lemma2_to64_rest();
        }
        let t = match &mut self.tables {
            Some(t) => t,
            None => {
                proof {
                    assert(false);
                }
                return Err(MapError::Obstructed);
            },
        };
        // device window: gigapages covering the device span below the
        // kernel, at the shared virtual base
        let n_mmio = ((MMIO_MAP_SIZE + (SIZE_1G as u64) - 1) / (SIZE_1G as u64)) as usize;
        proof {
            assert(0x5FFF_FFFFu64 / 0x4000_0000u64 == 1) by (bit_vector);
        }
        let a_mmio = match t.map_linear(
            &mut self.alloc,
            &levels,
            1,
            MMIO_VIRT_BASE,
            n_mmio,
            0,
            0x40000,
            attr,
        ) {
            Ok(a) => a,
            Err(e) => {
                return Err(e);
            },
        };
        let ghost t1 = *t;
        // direct map, first part: 4 KiB pages from the end of the kernel
        // image up to the next 2 MiB boundary
        let start_4k = ceil_to(ekernel_paddr, SIZE_4K);
        let end_2m = ceil_to(ekernel_paddr, SIZE_2M);
        proof {
            // the 2 MiB boundary is itself 4 KiB aligned, so it cannot
            // undercut the 4 KiB boundary
            vstd::arithmetic::div_mod::lemma_fundamental_div_mod(end_2m as int, SIZE_2M as int);
            let q2 = end_2m as int / (SIZE_2M as int);
            assert(end_2m as int == (q2 * 0x200) * 0x1000) by (nonlinear_arith)
                requires
                    end_2m as int == (SIZE_2M as int) * q2 + end_2m as int % (SIZE_2M as int),
                    end_2m as int % (SIZE_2M as int) == 0,
            ;
            vstd::arithmetic::div_mod::lemma_mod_multiples_basic(q2 * 0x200, 0x1000);
            if (end_2m as int) < start_4k as int {
                let d = start_4k as int - end_2m as int;
                vstd::arithmetic::div_mod::lemma_sub_mod_noop(
                    start_4k as int,
                    end_2m as int,
                    0x1000,
                );
                vstd::arithmetic::div_mod::lemma_small_mod(d as nat, 0x1000);
                assert(false);
            }
            lemma_div_mul_bound(end_2m as int - start_4k as int, SIZE_4K as int);
            lemma_div_mul_bound(start_4k as int, SIZE_4K as int);
        }
        let n_4k = (end_2m - start_4k) / SIZE_4K;
        let va_4k = PHYS_MAP_VIRT + start_4k as u64;
        let pfn_4k = (start_4k / SIZE_4K) as u64;
        let a_4k = match t.map_linear(&mut self.alloc, &levels, 3, va_4k, n_4k, pfn_4k, 1, attr) {
            Ok(a) => a,
            Err(e) => {
                return Err(e);
            },
        };
        let ghost t2 = *t;
        // second part: 2 MiB pages up to the next 1 GiB boundary
        let end_1g = ceil_to(end_2m, SIZE_1G);
        proof {
            lemma_div_mul_bound(end_1g as int - end_2m as int, SIZE_2M as int);
            lemma_div_mul_bound(end_2m as int, SIZE_4K as int);
        }
        let n_2m = (end_1g - end_2m) / SIZE_2M;
        let va_2m = PHYS_MAP_VIRT + end_2m as u64;
        let pfn_2m = (end_2m / SIZE_4K) as u64;
        let a_2m = match t.map_linear(&mut self.alloc, &levels, 2, va_2m, n_2m, pfn_2m, 0x200, attr)
        {
            Ok(a) => a,
            Err(e) => {
                return Err(e);
            },
        };
        let ghost t3 = *t;
        // third part: gigapages over the rest of physical memory
        let n_1g = (MEMORY_SIZE / SIZE_1G as u64) as usize;
        proof {
            assert(0x8000_0000u64 / 0x4000_0000u64 == 2) by (bit_vector);
            lemma_div_mul_bound(end_1g as int, SIZE_4K as int);
        }
        let va_1g = PHYS_MAP_VIRT + end_1g as u64;
        let pfn_1g = (end_1g / SIZE_4K) as u64;
        let a_1g = match t.map_linear(&mut self.alloc, &levels, 1, va_1g, n_1g, pfn_1g, 0x40000, attr)
        {
            Ok(a) => a,
            Err(e) => {
                return Err(e);
            },
        };
        let ghost t4 = *t;
        // the 2 MiB kernel image, in 4 KiB pages
        let n_ki = SIZE_2M / SIZE_4K;
        proof {
            assert(0x20_0000usize / 0x1000usize == 512) by (bit_vector);
        }
        let a_ki = match t.map_linear(
            &mut self.alloc,
            &levels,
            3,
            KIMAGE_VIRT_BASE,
            n_ki,
            KIMAGE_PFN,
            1,
            attr,
        ) {
            Ok(a) => a,
            Err(e) => {
                return Err(e);
            },
        };
        self.stage = BootStage::MappingsInstalled;
        proof {
            let t5 = *t;
            // later phases never disturb what earlier ones installed
            PageTables::lemma_preserves_present_trans(t1, t2, t3);
            PageTables::lemma_preserves_present_trans(t1, t3, t4);
            PageTables::lemma_preserves_present_trans(t1, t4, t5);
            PageTables::lemma_preserves_present_trans(t2, t3, t4);
            PageTables::lemma_preserves_present_trans(t2, t4, t5);
            PageTables::lemma_preserves_present_trans(t3, t4, t5);
            let lv = sv39_levels();
            let ek = ekernel_paddr as int;
            let e4 = ceil_align(ek, SIZE_4K as int);
            let e2 = ceil_align(ek, SIZE_2M as int);
            let e1 = ceil_align(e2, SIZE_1G as int);
            // device window
            assert(a_mmio@[0] == MMIO_VIRT_BASE + 0 * (pow2(30) as nat));
            assert(t1.resolve(lv, 1, MMIO_VIRT_BASE) matches Some(e) && e.spec_pfn() == 0
                && e.spec_attr() == BOOT_ATTR && e.spec_present());
            PageTables::lemma_resolve_preserved(t1, t5, lv, 1, MMIO_VIRT_BASE);
            // 4 KiB phase of the direct map
            assert forall|k: int|
                0 <= k < (e2 - e4) / (SIZE_4K as int) implies (#[trigger] t5.resolve(
                lv,
                3,
                ((PHYS_MAP_VIRT + e4 + k * (SIZE_4K as int)) as u64),
            ) matches Some(e) && e.spec_pfn() == e4 / (SIZE_4K as int) + k && e.spec_attr()
                == BOOT_ATTR) by {
                assert(a_4k@[k] == va_4k + k * (pow2(12) as nat));
                assert(t2.resolve(lv, 3, a_4k@[k]) matches Some(e) && e.spec_pfn() == pfn_4k + k
                    && e.spec_attr() == BOOT_ATTR && e.spec_present());
                PageTables::lemma_resolve_preserved(t2, t5, lv, 3, a_4k@[k]);
                assert(((PHYS_MAP_VIRT + e4 + k * (SIZE_4K as int)) as u64) == a_4k@[k]);
            }
            // 2 MiB phase
            assert forall|k: int|
                0 <= k < (e1 - e2) / (SIZE_2M as int) implies (#[trigger] t5.resolve(
                lv,
                2,
                ((PHYS_MAP_VIRT + e2 + k * (SIZE_2M as int)) as u64),
            ) matches Some(e) && e.spec_pfn() == e2 / (SIZE_4K as int) + k * 0x200 && e.spec_attr()
                == BOOT_ATTR) by {
                assert(a_2m@[k] == va_2m + k * (pow2(21) as nat));
                assert(t3.resolve(lv, 2, a_2m@[k]) matches Some(e) && e.spec_pfn() == pfn_2m + k
                    * 0x200 && e.spec_attr() == BOOT_ATTR && e.spec_present());
                PageTables::lemma_resolve_preserved(t3, t5, lv, 2, a_2m@[k]);
                assert(((PHYS_MAP_VIRT + e2 + k * (SIZE_2M as int)) as u64) == a_2m@[k]);
            }
            // gigapage phase
            assert forall|k: int|
                0 <= k < (MEMORY_SIZE as int) / (SIZE_1G as int) implies (#[trigger] t5.resolve(
                lv,
                1,
                ((PHYS_MAP_VIRT + e1 + k * (SIZE_1G as int)) as u64),
            ) matches Some(e) && e.spec_pfn() == e1 / (SIZE_4K as int) + k * 0x40000
                && e.spec_attr() == BOOT_ATTR) by {
                assert(a_1g@[k] == va_1g + k * (pow2(30) as nat));
                assert(t4.resolve(lv, 1, a_1g@[k]) matches Some(e) && e.spec_pfn() == pfn_1g + k
                    * 0x40000 && e.spec_attr() == BOOT_ATTR && e.spec_present());
                PageTables::lemma_resolve_preserved(t4, t5, lv, 1, a_1g@[k]);
                assert(((PHYS_MAP_VIRT + e1 + k * (SIZE_1G as int)) as u64) == a_1g@[k]);
            }
            // kernel image
            assert forall|k: int|
                0 <= k < 512 implies (#[trigger] t5.resolve(
                lv,
                3,
                ((KIMAGE_VIRT_BASE + k * (SIZE_4K as int)) as u64),
            ) matches Some(e) && e.spec_pfn() == KIMAGE_PFN + k && e.spec_attr()
                == BOOT_ATTR) by {
                assert(a_ki@[k] == KIMAGE_VIRT_BASE + k * (pow2(12) as nat));
                assert(t5.resolve(lv, 3, a_ki@[k]) matches Some(e) && e.spec_pfn() == KIMAGE_PFN
                    + k && e.spec_attr() == BOOT_ATTR && e.spec_present());
                assert(((KIMAGE_VIRT_BASE + k * (SIZE_4K as int)) as u64) == a_ki@[k]);
            }
            assert(boot_mappings_installed(t5, ek));
        }
        Ok(())
    }

    /// The value to write into the hardware translation-root register: the
    /// three-level paging mode selector above the root table's frame
    /// number. Only available once every mapping the post-switch code
    /// needs is installed.
    pub fn satp_value(&self) -> (r: u64)
        requires
            self.wf(),
            self.stage_spec() == BootStage::MappingsInstalled || self.stage_spec()
                == BootStage::TranslationActive,
        ensures
            self.tables_spec() matches Some(t) && r == 0x8000_0000_0000_0000u64 + (t.base()
                + t.root_slot()),
    {
        let t = match &self.tables {
            Some(t) => t,
            None => {
                proof {
                    assert(false);
                }
                return 0;
            },
        };
        proof {
            t.lemma_root_in_range();
            self.alloc.lemma_window_bounded();
        }
        let pfn = (t.base_index() + t.root_index()) as u64;
        proof {
            assert((0x8000_0000_0000_0000u64 | pfn) == 0x8000_0000_0000_0000u64 + pfn)
                by (bit_vector)
                requires
                    pfn < 0x40_0000_0000_0000u64,
            ;
        }
        0x8000_0000_0000_0000u64 | pfn
    }

    /// Records that the caller has performed the translation-root switch
    /// (register write plus full translation-cache invalidation). The
    /// switch is irreversible: there is no transition out of the active
    /// stage.
    pub fn activate(&mut self)
        requires
            old(self).wf(),
            old(self).stage_spec() == BootStage::MappingsInstalled,
        ensures
            final(self).wf(),
            final(self).stage_spec() == BootStage::TranslationActive,
            final(self).tables_spec() == old(self).tables_spec(),
            final(self).alloc_spec() == old(self).alloc_spec(),
    {
        self.stage = BootStage::TranslationActive;
    }

    /// The current stage.
    pub fn stage(&self) -> (r: BootStage)
        ensures
            r == self.stage_spec(),
    {
        self.stage
    }

    /// The allocator, for inspection.
    pub fn allocator(&self) -> (r: &BuddyAllocator)
        ensures
            *r == self.alloc_spec(),
    {
        &self.alloc
    }

    /// The table arena, for inspection.
    pub fn tables(&self) -> (r: &Option<PageTables>)
        ensures
            *r == self.tables_spec(),
    {
        &self.tables
    }
}

} // verus!
