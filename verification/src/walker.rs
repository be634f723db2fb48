//! The page-table walker and range mapper.
//!
//! A paging mode is an ordered sequence of table levels, root to leaf, each
//! level naming the bit offset and width of its index field inside a
//! virtual address. The walker descends from the root through a caller-
//! chosen prefix of the levels, lazily allocating intermediate tables from
//! the buddy allocator, and populates one leaf entry per granularity unit
//! of the requested range; stopping the level list early yields larger,
//! coarser leaf pages.
//!
//! Tables live in an arena of slots parallel to the allocator's frame
//! arena: the table for the frame with handle index `s` sits in slot `s`,
//! and a table-descriptor entry stores the absolute frame number of the
//! table it points to.

use vstd::prelude::*;
use vstd::arithmetic::power2::pow2;
use vstd::arithmetic::power2::lemma_pow2_adds;
use vstd::arithmetic::power2::lemma_pow2_strictly_increases;
use vstd::arithmetic::power2::lemma2_to64;

use crate::attr::Attribute;
use crate::attr::PA_R;
use crate::attr::PA_W;
use crate::attr::PA_X;
use crate::buddy::BuddyAllocator;
use crate::buddy::MAX_FRAMES;
use crate::pte::MAX_PTE_PFN;
use crate::pte::RV39PTE;
use crate::pte::RV39RawTable;
use crate::pte::PTES_PER_PAGE;

verus! {

broadcast use vstd::arithmetic::power2::lemma_pow2_pos;

/// One level of a paging mode: its index field covers `bits` bits of the
/// virtual address starting at bit `offset`.
#[derive(Clone, Copy, PartialEq, Eq, Structural, Debug)]
pub struct PageTableLevel {
    /// Bit offset of the index field within a virtual address.
    pub offset: u32,
    /// Width of the index field in bits.
    pub bits: u32,
}

impl PageTableLevel {
    /// Builds one level descriptor.
    pub fn new(offset: u32, bits: u32) -> (r: Self)
        ensures
            r.offset == offset,
            r.bits == bits,
    {
        PageTableLevel { offset, bits }
    }
}

/// A well-formed level list: ordered root to leaf, nine index bits per
/// level, each level exactly nine bits below the one before it, and the
/// leaf offset no smaller than the page-offset width.
pub open spec fn levels_wf(ls: Seq<PageTableLevel>) -> bool {
    &&& ls.len() >= 1
    &&& (forall|i: int| 0 <= i < ls.len() ==> (#[trigger] ls[i]).bits == 9)
    &&& (forall|i: int| 0 <= i < ls.len() ==> 12 <= (#[trigger] ls[i]).offset <= 48)
    &&& (forall|i: int|
        0 < i < ls.len() ==> (#[trigger] ls[i]).offset + 9 == ls[i - 1].offset)
}

/// The Sv39 level list as a specification value.
pub open spec fn sv39_levels() -> Seq<PageTableLevel> {
    seq![
        (PageTableLevel { offset: 30, bits: 9 }),
        (PageTableLevel { offset: 21, bits: 9 }),
        (PageTableLevel { offset: 12, bits: 9 }),
    ]
}

/// The three-level Sv39 paging mode: a 39-bit virtual address with 9-bit
/// index fields at offsets 30, 21 and 12.
pub struct RV39;

impl RV39 {
    /// The mode's levels, root to leaf.
    pub fn levels() -> (r: Vec<PageTableLevel>)
        ensures
            r@ == sv39_levels(),
            r@.len() == 3,
            levels_wf(r@),
            r@[0] == (PageTableLevel { offset: 30, bits: 9 }),
            r@[1] == (PageTableLevel { offset: 21, bits: 9 }),
            r@[2] == (PageTableLevel { offset: 12, bits: 9 }),
    {
        let mut r: Vec<PageTableLevel> = Vec::new();
        r.push(PageTableLevel::new(30, 9));
        r.push(PageTableLevel::new(21, 9));
        r.push(PageTableLevel::new(12, 9));
        proof {
            assert(r@ =~= sv39_levels());
        }
        r
    }
}

/// The four-level Sv48 paging mode: a 48-bit virtual address with 9-bit
/// index fields at offsets 39, 30, 21 and 12.
pub struct RV48;

impl RV48 {
    /// The mode's levels, root to leaf.
    pub fn levels() -> (r: Vec<PageTableLevel>)
        ensures
            r@.len() == 4,
            levels_wf(r@),
            r@[0] == (PageTableLevel { offset: 39, bits: 9 }),
            r@[1] == (PageTableLevel { offset: 30, bits: 9 }),
            r@[2] == (PageTableLevel { offset: 21, bits: 9 }),
            r@[3] == (PageTableLevel { offset: 12, bits: 9 }),
    {
        let mut r: Vec<PageTableLevel> = Vec::new();
        r.push(PageTableLevel::new(39, 9));
        r.push(PageTableLevel::new(30, 9));
        r.push(PageTableLevel::new(21, 9));
        r.push(PageTableLevel::new(12, 9));
        r
    }
}

/// Why a mapping request could not be completed. Either failure is fatal
/// during boot: there is no virtual memory without a place to put the page
/// tables.
#[derive(Clone, Copy, PartialEq, Eq, Structural, Debug)]
pub enum MapError {
    /// The allocator had no free frame left for an intermediate table.
    OutOfFrames,
    /// Something already present stood on the walk: a non-table entry at
    /// an intermediate level, or any entry in the leaf slot itself. The
    /// walker surfaces it rather than reinterpret or overwrite it.
    Obstructed,
}

/// Computes `2^e` for a bit offset.
pub fn pow2_u64(e: u32) -> (r: u64)
    requires
        e <= 63,
    ensures
        r == pow2(e as nat),
{
    proof {
        lemma2_to64();
        vstd::arithmetic::power2::lemma2_to64_rest();
    }
    let mut r: u64 = 1;
    let mut i: u32 = 0;
    while i < e
        invariant
            i <= e <= 63,
            r == pow2(i as nat),
        decreases e - i,
    {
        proof {
            lemma_pow2_adds(i as nat, 1);
            lemma2_to64();
            let e1: nat = (i + 1) as nat;
            if e1 < 64 {
                lemma_pow2_strictly_increases(e1, 64);
            }
            vstd::arithmetic::power2::lemma2_to64_rest();
        }
        r = r * 2;
        i = i + 1;
    }
    r
}

/// The slots yielded for a linearly mapped range, as `map_linear` ensures
/// them: one per granularity unit, at strictly increasing addresses, each
/// aligned to the granularity whenever the range's base is.
pub proof fn lemma_yielded_slots(addrs: Seq<u64>, vaddr: u64, gran: u64, n: int)
    requires
        gran >= 1,
        vaddr as int % (gran as int) == 0,
        addrs.len() == n,
        forall|k: int| 0 <= k < n ==> #[trigger] addrs[k] == vaddr + k * (gran as int),
    ensures
        forall|k: int| 0 <= k < n - 1 ==> #[trigger] addrs[k] < addrs[k + 1],
        forall|k: int| 0 <= k < n ==> (#[trigger] addrs[k]) as int % (gran as int) == 0,
{
    assert forall|k: int| 0 <= k < n implies (#[trigger] addrs[k]) as int % (gran as int)
        == 0 by {
        vstd::arithmetic::div_mod::lemma_mod_multiples_vanish(k, vaddr as int, gran as int);
        assert(addrs[k] == (gran as int) * k + vaddr);
    }
    assert forall|k: int| 0 <= k < n - 1 implies #[trigger] addrs[k] < addrs[k + 1] by {
        assert((k + 1) * (gran as int) == k * (gran as int) + gran) by (nonlinear_arith);
        assert(addrs[k + 1] == vaddr + (k + 1) * (gran as int));
    }
}

/// The arena of hardware translation tables rooted at one table, all of
/// them backed by frames of the buddy allocator's window.
pub struct PageTables {
    base_pfn: usize,
    root: usize,
    slots: Vec<Option<RV39RawTable>>,
}

impl PageTables {
    /// First frame number of the window backing the arena.
    pub closed spec fn base(self) -> int {
        self.base_pfn as int
    }

    /// Number of slots (one per window frame).
    pub closed spec fn n_slots(self) -> int {
        self.slots@.len() as int
    }

    /// The slot of the root table.
    pub closed spec fn root_slot(self) -> int {
        self.root as int
    }

    /// Slot `s` holds a table.
    pub closed spec fn slot_some(self, s: int) -> bool {
        self.slots@[s] is Some
    }

    /// The entry at index `i` of the table in slot `s`.
    pub closed spec fn entry(self, s: int, i: int) -> RV39PTE {
        self.slots@[s].unwrap()@[i]
    }

    /// The index field of `va` at one level.
    pub open spec fn slot_index(va: u64, l: PageTableLevel) -> int {
        ((va as int) / (pow2(l.offset as nat) as int)) % 512
    }

    /// What the walk finds for `va` starting at `slot` on level `lvl`:
    /// the leaf-level entry, if every level before the last holds a
    /// present table descriptor, and nothing otherwise.
    pub closed spec fn resolve_from(
        self,
        levels: Seq<PageTableLevel>,
        depth: int,
        va: u64,
        slot: int,
        lvl: int,
    ) -> Option<RV39PTE>
        decreases depth - lvl,
    {
        if lvl < depth - 1 {
            let e = self.entry(slot, Self::slot_index(va, levels[lvl]));
            if e.spec_table_ptr() {
                self.resolve_from(levels, depth, va, e.spec_pfn() - self.base(), lvl + 1)
            } else {
                None
            }
        } else {
            Some(self.entry(slot, Self::slot_index(va, levels[depth - 1])))
        }
    }

    /// What the walk finds for `va` through the first `depth` levels,
    /// from the root.
    pub open spec fn resolve(self, levels: Seq<PageTableLevel>, depth: int, va: u64) -> Option<
        RV39PTE,
    > {
        self.resolve_from(levels, depth, va, self.root_slot(), 0)
    }

    /// `post` extends `pre` without disturbing it: same window and root,
    /// every slot that held a table still holds one, and every entry that
    /// was present is exactly as it was. The walker only ever fills empty
    /// slots and overwrites non-present entries, so everything it has
    /// installed before stays installed.
    pub open spec fn preserves_present(pre: PageTables, post: PageTables) -> bool {
        &&& post.base() == pre.base()
        &&& post.n_slots() == pre.n_slots()
        &&& post.root_slot() == pre.root_slot()
        &&& (forall|s: int|
            0 <= s < pre.n_slots() && #[trigger] pre.slot_some(s) ==> post.slot_some(s))
        &&& (forall|s: int, i: int|
            #![trigger post.entry(s, i)]
            0 <= s < pre.n_slots() && pre.slot_some(s) && 0 <= i < PTES_PER_PAGE && pre.entry(
                s,
                i,
            ).spec_present() ==> post.entry(s, i) == pre.entry(s, i))
    }

    proof fn lemma_resolve_from_preserved(
        pre: PageTables,
        post: PageTables,
        levels: Seq<PageTableLevel>,
        depth: int,
        va: u64,
        slot: int,
        lvl: int,
    )
        requires
            pre.inv(),
            Self::preserves_present(pre, post),
            0 <= slot < pre.n_slots(),
            pre.slot_some(slot),
            0 <= lvl < depth,
            pre.resolve_from(levels, depth, va, slot, lvl) matches Some(e) && e.spec_present(),
        ensures
            post.resolve_from(levels, depth, va, slot, lvl) == pre.resolve_from(
                levels,
                depth,
                va,
                slot,
                lvl,
            ),
        decreases depth - lvl,
    {
        if lvl < depth - 1 {
            let e = pre.entry(slot, Self::slot_index(va, levels[lvl]));
            assert(e.spec_table_ptr());
            assert(post.entry(slot, Self::slot_index(va, levels[lvl])) == e);
            assert(pre.entry_links_ok(pre.entry(slot, Self::slot_index(va, levels[lvl]))));
            Self::lemma_resolve_from_preserved(
                pre,
                post,
                levels,
                depth,
                va,
                e.spec_pfn() - pre.base(),
                lvl + 1,
            );
        } else {
            let e = pre.entry(slot, Self::slot_index(va, levels[depth - 1]));
            assert(e.spec_present());
            assert(post.entry(slot, Self::slot_index(va, levels[depth - 1])) == e);
        }
    }

    /// Preserving present entries is transitive across successive mapping
    /// steps.
    pub proof fn lemma_preserves_present_trans(a: PageTables, b: PageTables, c: PageTables)
        requires
            Self::preserves_present(a, b),
            Self::preserves_present(b, c),
        ensures
            Self::preserves_present(a, c),
    {
        assert forall|s: int, i: int|
            #![trigger c.entry(s, i)]
            0 <= s < a.n_slots() && a.slot_some(s) && 0 <= i < PTES_PER_PAGE && a.entry(
                s,
                i,
            ).spec_present() implies c.entry(s, i) == a.entry(s, i) by {
            assert(b.entry(s, i) == a.entry(s, i));
        }
    }

    /// A walk that resolved to a present entry resolves to the same entry
    /// in every later state that preserves present entries.
    pub proof fn lemma_resolve_preserved(
        pre: PageTables,
        post: PageTables,
        levels: Seq<PageTableLevel>,
        depth: int,
        va: u64,
    )
        requires
            pre.inv(),
            Self::preserves_present(pre, post),
            1 <= depth,
            pre.resolve(levels, depth, va) matches Some(e) && e.spec_present(),
        ensures
            post.resolve(levels, depth, va) == pre.resolve(levels, depth, va),
    {
        Self::lemma_resolve_from_preserved(
            pre,
            post,
            levels,
            depth,
            va,
            pre.root_slot(),
            0,
        );
    }

    /// A recorded prefix of a walk for `va`: the slots visited so far,
    /// root first, each reached from the one before it through a present
    /// table descriptor at that level's index field.
    spec fn walk_prefix_ok(self, levels: Seq<PageTableLevel>, va: u64, ext: Seq<int>) -> bool {
        &&& 1 <= ext.len() <= levels.len()
        &&& ext[0] == self.root_slot()
        &&& (forall|t: int|
            0 <= t < ext.len() ==> 0 <= #[trigger] ext[t] < self.n_slots() && self.slot_some(
                ext[t],
            ))
        &&& (forall|t: int|
            #![trigger ext[t]]
            0 <= t < ext.len() - 1 ==> {
                let e = self.entry(ext[t], Self::slot_index(va, levels[t]));
                &&& e.spec_table_ptr()
                &&& e.spec_pfn() - self.base() == ext[t + 1]
            })
    }

    pub closed spec fn walk_blocked_from(
        self,
        levels: Seq<PageTableLevel>,
        depth: int,
        va: u64,
        slot: int,
        lvl: int,
    ) -> bool
        decreases depth - lvl,
    {
        let e = self.entry(slot, Self::slot_index(va, levels[lvl]));
        if lvl < depth - 1 {
            if e.spec_table_ptr() {
                self.walk_blocked_from(levels, depth, va, e.spec_pfn() - self.base(), lvl + 1)
            } else {
                e.spec_present()
            }
        } else {
            e.spec_present()
        }
    }

    /// The walk for `va` runs into material that is already installed: a
    /// present entry that is not a table descriptor at an intermediate
    /// level, or any present entry in the leaf-level slot. Mapping must
    /// surface this rather than silently reinterpret or overwrite it.
    pub open spec fn walk_blocked(self, levels: Seq<PageTableLevel>, depth: int, va: u64) -> bool {
        self.walk_blocked_from(levels, depth, va, self.root_slot(), 0)
    }

    /// Blockage from the root equals blockage from the end of any
    /// recorded prefix of the same walk.
    proof fn lemma_prefix_blocked(
        self,
        levels: Seq<PageTableLevel>,
        depth: int,
        va: u64,
        ext: Seq<int>,
    )
        requires
            self.walk_prefix_ok(levels, va, ext),
            ext.len() <= depth <= levels.len(),
        ensures
            self.walk_blocked_from(levels, depth, va, self.root_slot(), 0)
                == self.walk_blocked_from(levels, depth, va, ext.last(), ext.len() - 1),
        decreases ext.len(),
    {
        if ext.len() > 1 {
            let shorter = ext.drop_last();
            assert(self.walk_prefix_ok(levels, va, shorter)) by {
                assert(forall|t: int|
                    0 <= t < shorter.len() ==> #[trigger] shorter[t] == ext[t]);
            }
            self.lemma_prefix_blocked(levels, depth, va, shorter);
            let t0 = ext.len() - 2;
            assert(shorter.last() == ext[t0]);
            let e = self.entry(ext[t0], Self::slot_index(va, levels[t0]));
            assert(e.spec_table_ptr() && e.spec_pfn() - self.base() == ext[t0 + 1]);
        }
    }

    /// Resolving from the root equals resolving from the end of any
    /// recorded prefix of the same walk.
    proof fn lemma_prefix_resolve(
        self,
        levels: Seq<PageTableLevel>,
        depth: int,
        va: u64,
        ext: Seq<int>,
    )
        requires
            self.walk_prefix_ok(levels, va, ext),
            ext.len() <= depth <= levels.len(),
        ensures
            self.resolve_from(levels, depth, va, self.root_slot(), 0) == self.resolve_from(
                levels,
                depth,
                va,
                ext.last(),
                ext.len() - 1,
            ),
        decreases ext.len(),
    {
        if ext.len() > 1 {
            let shorter = ext.drop_last();
            assert(self.walk_prefix_ok(levels, va, shorter)) by {
                assert(forall|t: int|
                    0 <= t < shorter.len() ==> #[trigger] shorter[t] == ext[t]);
            }
            self.lemma_prefix_resolve(levels, depth, va, shorter);
            let t0 = ext.len() - 2;
            assert(shorter.last() == ext[t0]);
            let e = self.entry(ext[t0], Self::slot_index(va, levels[t0]));
            assert(e.spec_table_ptr() && e.spec_pfn() - self.base() == ext[t0 + 1]);
        }
    }

    spec fn entry_links_ok(self, e: RV39PTE) -> bool {
        e.spec_table_ptr() ==> {
            &&& self.base() <= e.spec_pfn() < self.base() + self.n_slots()
            &&& self.slot_some(e.spec_pfn() - self.base())
        }
    }

    /// The arena's invariant: the root is a table, every table holds
    /// exactly 512 entries, and every table-descriptor entry anywhere
    /// points back into the arena, at a slot that holds a table.
    pub closed spec fn inv(self) -> bool {
        &&& self.slots@.len() <= MAX_FRAMES
        &&& 0 <= self.root_slot() < self.n_slots()
        &&& self.slot_some(self.root_slot())
        &&& (forall|s: int|
            0 <= s < self.n_slots() && self.slot_some(s) ==> (#[trigger] self.slots@[s]).unwrap().wf())
        &&& (forall|s: int, i: int|
            0 <= s < self.n_slots() && self.slot_some(s) && 0 <= i < PTES_PER_PAGE
                ==> self.entry_links_ok(#[trigger] self.entry(s, i)))
    }

    /// The arena mirrors the allocator: same window, and every slot that
    /// holds a table sits on a frame the allocator has handed out.
    pub open spec fn consistent_with(self, a: BuddyAllocator) -> bool {
        &&& self.n_slots() == a.n_frames()
        &&& self.base() == a.base()
        &&& (forall|s: int|
            0 <= s < self.n_slots() && #[trigger] self.slot_some(s) ==> a.allocated().dom().contains(
                s,
            ))
    }

    /// Builds a fresh arena whose root table sits on a newly allocated
    /// frame, zeroed. Fails exactly when the allocator has nothing left.
    pub fn new(alloc: &mut BuddyAllocator) -> (r: Result<PageTables, MapError>)
        requires
            old(alloc).inv(),
        ensures
            final(alloc).inv(),
            final(alloc).base() == old(alloc).base(),
            final(alloc).n_frames() == old(alloc).n_frames(),
            final(alloc).is_registered() == old(alloc).is_registered(),
            (r is Ok) == old(alloc).has_free_at_or_above(0),
            r is Err ==> *final(alloc) == *old(alloc) && (r matches Err(e) && e
                == MapError::OutOfFrames),
            r matches Ok(t) ==> {
                &&& t.inv()
                &&& t.consistent_with(*final(alloc))
                &&& final(alloc).allocated() == old(alloc).allocated().insert(t.root_slot(), 0)
                &&& (forall|i: int|
                    0 <= i < PTES_PER_PAGE ==> (#[trigger] t.entry(t.root_slot(), i)).0 == 0)
            },
    {
        let root_page = match alloc.alloc_order(0) {
            None => {
                return Err(MapError::OutOfFrames);
            },
            Some(h) => h,
        };
        let n = alloc.frame_count();
        let mut slots: Vec<Option<RV39RawTable>> = Vec::new();
        let mut k: usize = 0;
        while k < n
            invariant
                k <= n,
                slots@.len() == k,
                forall|s: int| 0 <= s < k ==> (#[trigger] slots@[s]) is None,
            decreases n - k,
        {
            slots.push(None);
            k = k + 1;
        }
        slots[root_page.0] = Some(RV39RawTable::new_zeroed());
        let t = PageTables { base_pfn: alloc.base_pfn(), root: root_page.0, slots };
        proof {
            alloc.lemma_window_bounded();
            lemma2_to64();
            assert forall|s: int, i: int|
                0 <= s < t.n_slots() && t.slot_some(s) && 0 <= i < PTES_PER_PAGE implies t.entry_links_ok(
                #[trigger] t.entry(s, i),
            ) by {
                assert(s == root_page.0 as int);
                assert(t.entry(s, i).0 == 0);
            }
        }
        Ok(t)
    }

    /// Reads the entry at index `i` of the table in slot `s`.
    pub fn read_entry(&self, s: usize, i: u16) -> (r: RV39PTE)
        requires
            self.inv(),
            0 <= s < self.n_slots(),
            self.slot_some(s as int),
            i < 512,
        ensures
            r == self.entry(s as int, i as int),
    {
        match &self.slots[s] {
            Some(t) => *t.index(i),
            None => {
                proof {
                    assert(false);
                }
                RV39PTE(0)
            },
        }
    }

    /// Overwrites the entry at index `i` of the table in slot `s`. Only a
    /// non-present entry may be overwritten — the walker never clobbers
    /// installed material — and a table-descriptor entry may only be
    /// written if its target slot already holds a table.
    fn write_entry(&mut self, s: usize, i: u16, e: RV39PTE)
        requires
            old(self).inv(),
            0 <= s < old(self).n_slots(),
            old(self).slot_some(s as int),
            !old(self).entry(s as int, i as int).spec_present(),
            i < 512,
            e.spec_table_ptr() ==> {
                &&& old(self).base() <= e.spec_pfn() < old(self).base() + old(self).n_slots()
                &&& old(self).slot_some(e.spec_pfn() - old(self).base())
            },
        ensures
            final(self).inv(),
            final(self).base() == old(self).base(),
            final(self).n_slots() == old(self).n_slots(),
            final(self).root_slot() == old(self).root_slot(),
            forall|s2: int| #![trigger final(self).slot_some(s2)]
                0 <= s2 < old(self).n_slots() ==> final(self).slot_some(s2) == old(
                    self,
                ).slot_some(s2),
            final(self).entry(s as int, i as int) == e,
            forall|s2: int, i2: int| #![trigger final(self).entry(s2, i2)]
                0 <= s2 < old(self).n_slots() && old(self).slot_some(s2) && 0 <= i2 < PTES_PER_PAGE
                    && (s2 != s || i2 != i) ==> final(self).entry(s2, i2) == old(self).entry(
                    s2,
                    i2,
                ),
    {
        let ghost s0 = *self;
        let opt = &mut self.slots[s];
        match opt {
            Some(t) => {
                t.set_entry(i, e);
            },
            None => {
                proof {
                    assert(false);
                }
            },
        }
        proof {
            let s1 = *self;
            assert(s1.slots@[s as int].unwrap()@ == s0.slots@[s as int].unwrap()@.update(
                i as int,
                e,
            ));
            assert forall|s2: int| #![trigger s1.slot_some(s2)]
                0 <= s2 < s0.n_slots() implies s1.slot_some(s2) == s0.slot_some(s2) by {
                if s2 != s {
                    assert(s1.slots@[s2] == s0.slots@[s2]);
                }
            }
            assert forall|s2: int, i2: int|
                0 <= s2 < s1.n_slots() && s1.slot_some(s2) && 0 <= i2
                    < PTES_PER_PAGE implies s1.entry_links_ok(#[trigger] s1.entry(s2, i2)) by {
                if s2 == s as int && i2 == i as int {
                    assert(s1.entry(s2, i2) == e);
                } else {
                    if s2 == s as int {
                        assert(s1.entry(s2, i2) == s0.entry(s2, i2));
                    } else {
                        assert(s1.slots@[s2] == s0.slots@[s2]);
                    }
                    assert(s0.entry_links_ok(s0.entry(s2, i2)));
                }
            }
        }
    }

    /// The root slot always lies inside the arena.
    pub proof fn lemma_root_in_range(self)
        requires
            self.inv(),
        ensures
            0 <= self.root_slot() < self.n_slots(),
    {
    }

    /// The slot of the root table.
    pub fn root_index(&self) -> (r: usize)
        ensures
            r == self.root_slot(),
    {
        self.root
    }

    /// The first frame number of the window backing the arena.
    pub fn base_index(&self) -> (r: usize)
        ensures
            r == self.base(),
    {
        self.base_pfn
    }

    /// Puts a fresh zeroed table into the empty slot `s`.
    fn install_table(&mut self, s: usize)
        requires
            old(self).inv(),
            0 <= s < old(self).n_slots(),
            !old(self).slot_some(s as int),
        ensures
            final(self).inv(),
            final(self).base() == old(self).base(),
            final(self).n_slots() == old(self).n_slots(),
            final(self).root_slot() == old(self).root_slot(),
            final(self).slot_some(s as int),
            forall|s2: int| #![trigger final(self).slot_some(s2)]
                0 <= s2 < old(self).n_slots() && s2 != s ==> final(self).slot_some(s2) == old(
                    self,
                ).slot_some(s2),
            forall|i: int| 0 <= i < PTES_PER_PAGE ==> (#[trigger] final(self).entry(s as int, i)).0
                == 0,
            forall|s2: int, i2: int| #![trigger final(self).entry(s2, i2)]
                0 <= s2 < old(self).n_slots() && old(self).slot_some(s2) && 0 <= i2 < PTES_PER_PAGE
                    ==> final(self).entry(s2, i2) == old(self).entry(s2, i2),
    {
        let ghost s0 = *self;
        self.slots[s] = Some(RV39RawTable::new_zeroed());
        proof {
            let s1 = *self;
            assert forall|s2: int, i2: int|
                0 <= s2 < s1.n_slots() && s1.slot_some(s2) && 0 <= i2
                    < PTES_PER_PAGE implies s1.entry_links_ok(#[trigger] s1.entry(s2, i2)) by {
                if s2 == s as int {
                    assert(s1.entry(s2, i2).0 == 0);
                } else {
                    assert(s1.slots@[s2] == s0.slots@[s2]);
                    assert(s0.entry_links_ok(s0.entry(s2, i2)));
                }
            }
        }
    }

    /// Installs one leaf entry per granularity unit of the virtual range
    /// `[vaddr, vaddr + n_units * 2^levels[depth-1].offset)`, descending
    /// through the first `depth` levels and lazily allocating any missing
    /// intermediate table from `alloc`. Unit `k` is mapped to frame number
    /// `first_pfn + k * pfn_step` with the given leaf attributes. On
    /// success the virtual addresses of the populated leaf slots are
    /// returned, one per unit, in ascending order. Allocation exhaustion
    /// is surfaced as an error and implies the allocator is empty; a
    /// present leaf sitting at an intermediate level of the walk is
    /// likewise surfaced, never silently reinterpreted.
    pub fn map_linear(
        &mut self,
        alloc: &mut BuddyAllocator,
        levels: &Vec<PageTableLevel>,
        depth: usize,
        vaddr: u64,
        n_units: usize,
        first_pfn: u64,
        pfn_step: u64,
        attr: Attribute,
    ) -> (r: Result<Vec<u64>, MapError>)
        requires
            old(self).inv(),
            old(alloc).inv(),
            old(self).consistent_with(*old(alloc)),
            old(alloc).base() + old(alloc).n_frames() < MAX_PTE_PFN,
            levels_wf(levels@),
            1 <= depth <= levels@.len(),
            vaddr + n_units * (pow2(levels@[depth - 1].offset as nat) as int) <= u64::MAX,
            attr.0 & (PA_R | PA_W | PA_X) != 0,
            attr.0 % 2 == 1,
            attr.0 < 1024,
            first_pfn + n_units * pfn_step < MAX_PTE_PFN,
        ensures
            final(self).inv(),
            final(alloc).inv(),
            final(self).consistent_with(*final(alloc)),
            final(alloc).base() == old(alloc).base(),
            final(alloc).n_frames() == old(alloc).n_frames(),
            final(alloc).is_registered() == old(alloc).is_registered(),
            Self::preserves_present(*old(self), *final(self)),
            r matches Ok(addrs) ==> {
                &&& addrs@.len() == n_units
                &&& (forall|k: int|
                    0 <= k < n_units ==> #[trigger] addrs@[k] == vaddr + k * (pow2(
                        levels@[depth - 1].offset as nat,
                    ) as int))
                &&& (forall|k: int|
                    0 <= k < n_units ==> (#[trigger] final(self).resolve(
                        levels@,
                        depth as int,
                        addrs@[k],
                    ) matches Some(e) && e.spec_pfn() == first_pfn + k * pfn_step
                        && e.spec_attr() == attr.0 && e.spec_present()))
            },
            r == Err::<Vec<u64>, MapError>(MapError::OutOfFrames) ==> !final(alloc).has_free_at_or_above(0),
            r == Err::<Vec<u64>, MapError>(MapError::Obstructed) ==> exists|k: int|
                0 <= k < n_units && #[trigger] final(self).walk_blocked(
                    levels@,
                    depth as int,
                    ((vaddr + k * (pow2(levels@[depth - 1].offset as nat) as int)) as u64),
                ),
    {
        let gran = pow2_u64(levels[depth - 1].offset);
        let mut addrs: Vec<u64> = Vec::new();
        let mut k: usize = 0;
        while k < n_units
            invariant
                self.inv(),
                alloc.inv(),
                self.consistent_with(*alloc),
                alloc.base() == old(alloc).base(),
                alloc.n_frames() == old(alloc).n_frames(),
                alloc.is_registered() == old(alloc).is_registered(),
                alloc.base() + alloc.n_frames() < MAX_PTE_PFN,
                Self::preserves_present(*old(self), *self),
                levels_wf(levels@),
                1 <= depth <= levels@.len(),
                gran == pow2(levels@[depth - 1].offset as nat),
                k <= n_units,
                addrs@.len() == k,
                forall|j: int|
                    0 <= j < k ==> #[trigger] addrs@[j] == vaddr + j * (gran as int),
                forall|j: int|
                    0 <= j < k ==> (#[trigger] self.resolve(
                        levels@,
                        depth as int,
                        ((vaddr + j * (gran as int)) as u64),
                    ) matches Some(e) && e.0 == (first_pfn + j * pfn_step) * 1024 + attr.0
                        && e.spec_present()),
                vaddr + n_units * (gran as int) <= u64::MAX,
                attr.0 & (PA_R | PA_W | PA_X) != 0,
                attr.0 % 2 == 1,
                attr.0 < 1024,
                first_pfn + n_units * pfn_step < MAX_PTE_PFN,
            decreases n_units - k,
        {
            proof {
                assert(k * (gran as int) <= n_units * (gran as int) && k * (pfn_step as int)
                    <= n_units * (pfn_step as int)) by (nonlinear_arith)
                    requires
                        0 <= k <= n_units,
                        gran >= 1,
                        pfn_step >= 0,
                ;
            }
            let va = vaddr + (k as u64) * gran;
            let pfn_k = first_pfn + (k as u64) * pfn_step;
            let mut slot: usize = self.root_index();
            let mut lvl: usize = 0;
            let ghost mut ext: Seq<int> = seq![self.root_slot()];
            while lvl < depth - 1
                invariant
                    self.inv(),
                    alloc.inv(),
                    self.consistent_with(*alloc),
                    alloc.base() == old(alloc).base(),
                    alloc.n_frames() == old(alloc).n_frames(),
                    alloc.is_registered() == old(alloc).is_registered(),
                    alloc.base() + alloc.n_frames() < MAX_PTE_PFN,
                    Self::preserves_present(*old(self), *self),
                    levels_wf(levels@),
                    1 <= depth <= levels@.len(),
                    lvl <= depth - 1,
                    0 <= slot < self.n_slots(),
                    self.slot_some(slot as int),
                    ext.len() == lvl + 1,
                    ext.last() == slot as int,
                    self.walk_prefix_ok(levels@, va, ext),
                    k < n_units,
                    addrs@.len() == k,
                    va == vaddr + k * (gran as int),
                    pfn_k == first_pfn + k * (pfn_step as int),
                    gran == pow2(levels@[depth - 1].offset as nat),
                    forall|j: int|
                        0 <= j < k ==> #[trigger] addrs@[j] == vaddr + j * (gran as int),
                    forall|j: int|
                        0 <= j < k ==> (#[trigger] self.resolve(
                            levels@,
                            depth as int,
                            ((vaddr + j * (gran as int)) as u64),
                        ) matches Some(e) && e.0 == (first_pfn + j * pfn_step) * 1024 + attr.0
                            && e.spec_present()),
                    vaddr + n_units * (gran as int) <= u64::MAX,
                    attr.0 & (PA_R | PA_W | PA_X) != 0,
                    attr.0 % 2 == 1,
                    attr.0 < 1024,
                    first_pfn + n_units * pfn_step < MAX_PTE_PFN,
                decreases depth - 1 - lvl,
            {
                let p = pow2_u64(levels[lvl].offset);
                let idx = ((va / p) % 512) as u16;
                proof {
                    assert(idx as int == Self::slot_index(va, levels@[lvl as int]));
                }
                let e = self.read_entry(slot, idx);
                if e.is_table_ptr() {
                    proof {
                        alloc.lemma_window_bounded();
                        assert(self.entry_links_ok(self.entry(slot as int, idx as int)));
                    }
                    let next_pfn = e.get().0;
                    let b = self.base_index();
                    slot = (next_pfn as usize) - b;
                    proof {
                        ext = ext.push(slot as int);
                    }
                } else if e.is_present() {
                    // something already present and not a table descriptor
                    // stands on this walk: surface it, never reinterpret
                    proof {
                        self.lemma_prefix_blocked(levels@, depth as int, va, ext);
                        assert(self.walk_blocked(levels@, depth as int, va));
                        assert(((vaddr + k * (gran as int)) as u64) == va);
                    }
                    return Err(MapError::Obstructed);
                } else {
                    let h = match alloc.alloc_order(0) {
                        None => {
                            return Err(MapError::OutOfFrames);
                        },
                        Some(h) => h,
                    };
                    proof {
                        alloc.lemma_window_bounded();
                        assert(!self.slot_some(h.0 as int));
                    }
                    let ghost s_a = *self;
                    self.install_table(h.0);
                    let ghost s_b = *self;
                    proof {
                        assert(Self::preserves_present(s_a, s_b));
                        assert(!s_b.entry(slot as int, idx as int).spec_present());
                    }
                    let b = self.base_index();
                    let tpfn = (b + h.0) as u64;
                    let mut pe = RV39PTE(0);
                    pe.set(tpfn, Attribute(1));
                    proof {
                        let w = pe.0 as int;
                        let t = tpfn as int;
                        assert(w == t * 1024 + 1);
                        assert(w % 2 == 1 && (w / 2) % 8 == 0 && w / 1024 == t)
                            by (nonlinear_arith)
                            requires
                                w == t * 1024 + 1,
                                t >= 0,
                        ;
                        assert(pe.spec_table_ptr());
                        assert(pe.spec_pfn() == t);
                    }
                    self.write_entry(slot, idx, pe);
                    proof {
                        let s_c = *self;
                        assert(Self::preserves_present(s_b, s_c)) by {
                            assert forall|s2: int, i2: int|
                                #![trigger s_c.entry(s2, i2)]
                                0 <= s2 < s_b.n_slots() && s_b.slot_some(s2) && 0 <= i2
                                    < PTES_PER_PAGE && s_b.entry(s2, i2).spec_present() implies s_c.entry(
                                s2,
                                i2,
                            ) == s_b.entry(s2, i2) by {
                                assert(s2 != slot as int || i2 != idx as int);
                            }
                        }
                        assert(Self::preserves_present(s_a, s_c));
                        assert(Self::preserves_present(*old(self), s_c));
                        // walks already completed stay resolved
                        assert forall|j: int|
                            0 <= j < k implies (#[trigger] s_c.resolve(
                            levels@,
                            depth as int,
                            ((vaddr + j * (gran as int)) as u64),
                        ) matches Some(e2) && e2.0 == (first_pfn + j * pfn_step) * 1024 + attr.0
                            && e2.spec_present()) by {
                            Self::lemma_resolve_preserved(
                                s_a,
                                s_c,
                                levels@,
                                depth as int,
                                ((vaddr + j * (gran as int)) as u64),
                            );
                        }
                        // the recorded prefix is intact and grows one step
                        assert(s_c.walk_prefix_ok(levels@, va, ext)) by {
                            assert forall|t: int|
                                #![trigger ext[t]]
                                0 <= t < ext.len() - 1 implies {
                                let e2 = s_c.entry(ext[t], Self::slot_index(va, levels@[t]));
                                &&& e2.spec_table_ptr()
                                &&& e2.spec_pfn() - s_c.base() == ext[t + 1]
                            } by {
                                assert(s_a.entry(ext[t], Self::slot_index(va, levels@[t])).spec_present());
                                assert(s_c.entry(ext[t], Self::slot_index(va, levels@[t]))
                                    == s_a.entry(ext[t], Self::slot_index(va, levels@[t])));
                            }
                        }
                        ext = ext.push(h.0 as int);
                        assert(self.entry(slot as int, idx as int) == pe);
                    }
                    slot = h.0;
                }
                lvl = lvl + 1;
            }
            let idx = ((va / gran) % 512) as u16;
            proof {
                assert(idx as int == Self::slot_index(va, levels@[depth - 1]));
            }
            let leaf_old = self.read_entry(slot, idx);
            if leaf_old.is_present() {
                // the leaf slot is already populated: surface it, never
                // silently overwrite
                proof {
                    self.lemma_prefix_blocked(levels@, depth as int, va, ext);
                    assert(self.walk_blocked(levels@, depth as int, va));
                    assert(((vaddr + k * (gran as int)) as u64) == va);
                }
                return Err(MapError::Obstructed);
            }
            let mut le = RV39PTE(0);
            le.set(pfn_k, attr);
            proof {
                let w = le.0 as int;
                let a = attr.0;
                assert(w == pfn_k * 1024 + a);
                assert((a & 14 != 0) == ((a as int / 2) % 8 != 0)) by (bit_vector);
                assert(a & 14 != 0) by (bit_vector)
                    requires
                        a & (2u64 | 4u64 | 8u64) != 0,
                ;
                assert((w / 2) % 8 == (a as int / 2) % 8 && w % 2 == a % 2 && w / 1024 == pfn_k
                    && w % 1024 == a) by (nonlinear_arith)
                    requires
                        w == (pfn_k as int) * 1024 + a,
                        0 <= a < 1024,
                        pfn_k >= 0,
                ;
                assert(!le.spec_table_ptr());
                assert(le.spec_present());
            }
            let ghost s_a = *self;
            self.write_entry(slot, idx, le);
            proof {
                let s_c = *self;
                assert(Self::preserves_present(s_a, s_c)) by {
                    assert forall|s2: int, i2: int|
                        #![trigger s_c.entry(s2, i2)]
                        0 <= s2 < s_a.n_slots() && s_a.slot_some(s2) && 0 <= i2 < PTES_PER_PAGE
                            && s_a.entry(s2, i2).spec_present() implies s_c.entry(s2, i2)
                        == s_a.entry(s2, i2) by {
                        assert(s2 != slot as int || i2 != idx as int);
                    }
                }
                assert(Self::preserves_present(*old(self), s_c));
                assert forall|j: int|
                    0 <= j < k implies (#[trigger] s_c.resolve(
                    levels@,
                    depth as int,
                    ((vaddr + j * (gran as int)) as u64),
                ) matches Some(e2) && e2.0 == (first_pfn + j * pfn_step) * 1024 + attr.0
                    && e2.spec_present()) by {
                    Self::lemma_resolve_preserved(
                        s_a,
                        s_c,
                        levels@,
                        depth as int,
                        ((vaddr + j * (gran as int)) as u64),
                    );
                }
                // the walk for this unit now ends at the freshly written
                // leaf
                assert(s_c.walk_prefix_ok(levels@, va, ext)) by {
                    assert forall|t: int|
                        #![trigger ext[t]]
                        0 <= t < ext.len() - 1 implies {
                        let e2 = s_c.entry(ext[t], Self::slot_index(va, levels@[t]));
                        &&& e2.spec_table_ptr()
                        &&& e2.spec_pfn() - s_c.base() == ext[t + 1]
                    } by {
                        assert(s_a.entry(ext[t], Self::slot_index(va, levels@[t])).spec_present());
                        assert(s_c.entry(ext[t], Self::slot_index(va, levels@[t]))
                            == s_a.entry(ext[t], Self::slot_index(va, levels@[t])));
                    }
                }
                s_c.lemma_prefix_resolve(levels@, depth as int, va, ext);
                assert(s_c.entry(slot as int, idx as int) == le);
                assert(s_c.resolve(levels@, depth as int, va) == Some(le));
                assert(((vaddr + k * (gran as int)) as u64) == va);
            }
            addrs.push(va);
            k = k + 1;
        }
        proof {
            assert forall|k2: int|
                0 <= k2 < n_units implies (#[trigger] self.resolve(
                levels@,
                depth as int,
                addrs@[k2],
            ) matches Some(e) && e.spec_pfn() == first_pfn + k2 * pfn_step && e.spec_attr()
                == attr.0 && e.spec_present()) by {
                assert(addrs@[k2] == vaddr + k2 * (gran as int));
                assert(((vaddr + k2 * (gran as int)) as u64) == addrs@[k2]);
                let r2 = self.resolve(levels@, depth as int, addrs@[k2]);
                let w = (first_pfn + k2 * pfn_step) * 1024 + attr.0;
                let pf = first_pfn + k2 * (pfn_step as int);
                assert(w / 1024 == pf && w % 1024 == attr.0) by (nonlinear_arith)
                    requires
                        w == pf * 1024 + attr.0,
                        0 <= attr.0 < 1024,
                        pf >= 0,
                ;
            }
        }
        Ok(addrs)
    }

    /// Follows the walk for one virtual address through the first `depth`
    /// levels, read-only, and returns the leaf-level entry it ends at, or
    /// nothing where an intermediate level is not a present table
    /// descriptor.
    pub fn entry_at(&self, levels: &Vec<PageTableLevel>, depth: usize, va: u64) -> (r: Option<
        RV39PTE,
    >)
        requires
            self.inv(),
            levels_wf(levels@),
            1 <= depth <= levels@.len(),
            self.base() + self.n_slots() <= usize::MAX,
        ensures
            r == self.resolve(levels@, depth as int, va),
    {
        let mut slot: usize = self.root_index();
        let mut lvl: usize = 0;
        while lvl < depth - 1
            invariant
                self.inv(),
                levels_wf(levels@),
                1 <= depth <= levels@.len(),
                self.base() + self.n_slots() <= usize::MAX,
                lvl <= depth - 1,
                0 <= slot < self.n_slots(),
                self.slot_some(slot as int),
                self.resolve(levels@, depth as int, va) == self.resolve_from(
                    levels@,
                    depth as int,
                    va,
                    slot as int,
                    lvl as int,
                ),
            decreases depth - 1 - lvl,
        {
            let p = pow2_u64(levels[lvl].offset);
            let idx = ((va / p) % 512) as u16;
            proof {
                assert(idx as int == Self::slot_index(va, levels@[lvl as int]));
            }
            let e = self.read_entry(slot, idx);
            if e.is_table_ptr() {
                proof {
                    assert(self.entry_links_ok(self.entry(slot as int, idx as int)));
                }
                let next_pfn = e.get().0;
                let b = self.base_index();
                slot = (next_pfn as usize) - b;
            } else {
                return None;
            }
            lvl = lvl + 1;
        }
        let p = pow2_u64(levels[depth - 1].offset);
        let idx = ((va / p) % 512) as u16;
        proof {
            assert(idx as int == Self::slot_index(va, levels@[depth - 1]));
        }
        Some(self.read_entry(slot, idx))
    }
}

} // verus!
