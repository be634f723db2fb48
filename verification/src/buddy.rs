//! The buddy page-frame allocator and its metadata store.
//!
//! The allocator manages a contiguous physical window registered once at
//! boot. Per-frame metadata lives in a flat arena of [`RawPage`] records; a
//! [`RawPageHandle`] is an index into that arena, and the adapter between
//! handles and absolute physical frame numbers just adds or subtracts the
//! window's base frame number. Free blocks of `2^order` frames are threaded
//! into one free list per order; allocation takes the smallest free block
//! of sufficient order and splits it down, deallocation merges a block with
//! its buddy (the equal-sized neighbour whose frame number differs only in
//! the bit of the current order) as long as that buddy is itself free.

use vstd::prelude::*;
use vstd::arithmetic::power2::pow2;
use vstd::arithmetic::power2::lemma_pow2_adds;
use vstd::arithmetic::power2::lemma_pow2_strictly_increases;
use vstd::arithmetic::power2::lemma2_to64;
use vstd::set_lib::lemma_len_subset;
use vstd::set_lib::set_int_range;
use vstd::set_lib::lemma_int_range;

verus! {

broadcast use vstd::arithmetic::power2::lemma_pow2_pos;

/// Frame `f` lies inside the block of `2^o` frames headed by frame `i`.
pub open spec fn in_block(f: int, i: int, o: int) -> bool {
    i <= f < i + pow2(o as nat)
}

/// Size of one page frame in bytes.
pub const PAGE_SIZE: usize = 4096;

/// Log2 of the frame size.
pub const PAGE_SIZE_BITS: usize = 12;

/// Largest supported block order: a block spans at most `2^10` frames.
pub const MAX_ORDER: u32 = 10;

/// Number of per-order free lists.
pub const NUM_ORDERS: usize = 11;

/// Most frames one allocator instance can manage.
pub const MAX_FRAMES: usize = 1024;

/// Per-frame metadata record. Records are created once, when the window is
/// registered, and only re-tagged afterwards as the frame moves between the
/// free and allocated states. `order` is meaningful only while the frame
/// heads a block; `refcount` is held by the caller's ownership protocol and
/// is zero whenever the frame sits on a free list.
#[derive(Clone, Copy, PartialEq, Eq, Structural, Debug)]
pub struct RawPage {
    /// The frame heads a block that sits on a free list.
    pub free: bool,
    /// The frame was split off as the coalescing partner of a block.
    pub buddy: bool,
    /// Log2 of the block size in frames, for the block this frame heads.
    pub order: u32,
    /// Caller-managed reference count.
    pub refcount: usize,
}

impl RawPage {
    /// A fresh record: not free, not a buddy, order zero, no references.
    pub fn new() -> (r: Self)
        ensures
            !r.free,
            !r.buddy,
            r.order == 0,
            r.refcount == 0,
    {
        RawPage { free: false, buddy: false, order: 0, refcount: 0 }
    }
}

/// A capability token naming one frame of the managed window: the index of
/// its record in the arena. Holding a handle after deallocating it is a
/// precondition violation, not a representable state.
#[derive(Clone, Copy, PartialEq, Eq, Structural, Debug)]
pub struct RawPageHandle(pub usize);

/// Computes `2^e` for a block order.
pub fn pow2_usize(e: u32) -> (r: usize)
    requires
        e <= MAX_ORDER,
    ensures
        r == pow2(e as nat),
        r <= 1024,
{
    proof {
        lemma2_to64();
    }
    let mut r: usize = 1;
    let mut i: u32 = 0;
    while i < e
        invariant
            i <= e <= MAX_ORDER,
            r == pow2(i as nat),
            r <= 1024,
        decreases e - i,
    {
        proof {
            lemma_pow2_adds(i as nat, 1);
            lemma2_to64();
            let e1: nat = (i + 1) as nat;
            if e1 < 10 {
                lemma_pow2_strictly_increases(e1, 10);
            }
        }
        r = r * 2;
        i = i + 1;
    }
    r
}

/// A multiple of `2 * m` is a multiple of `m`.
proof fn lemma_mod_half(a: int, m: int)
    requires
        m > 0,
        a % (2 * m) == 0,
    ensures
        a % m == 0,
{
    vstd::arithmetic::div_mod::lemma_fundamental_div_mod(a, 2 * m);
    let q = a / (2 * m);
    assert(a == (2 * q) * m) by (nonlinear_arith)
        requires
            a == 2 * m * q + a % (2 * m),
            a % (2 * m) == 0,
    ;
    vstd::arithmetic::div_mod::lemma_mod_multiples_basic(2 * q, m);
}

/// Adding the modulus keeps a multiple a multiple.
proof fn lemma_mod_plus(a: int, m: int)
    requires
        m > 0,
        a % m == 0,
    ensures
        (a + m) % m == 0,
{
    vstd::arithmetic::div_mod::lemma_mod_add_multiples_vanish(a, m);
}

/// A multiple of `2 * m` has an even quotient by `m`.
proof fn lemma_even_quotient(a: int, m: int)
    requires
        m > 0,
        a % (2 * m) == 0,
    ensures
        a % m == 0,
        (a / m) % 2 == 0,
{
    lemma_mod_half(a, m);
    vstd::arithmetic::div_mod::lemma_fundamental_div_mod(a, 2 * m);
    vstd::arithmetic::div_mod::lemma_fundamental_div_mod(a, m);
    let q = a / (2 * m);
    assert(a / m == 2 * q) by (nonlinear_arith)
        requires
            m > 0,
            a == 2 * m * q + a % (2 * m),
            a % (2 * m) == 0,
            a == m * (a / m) + a % m,
            a % m == 0,
    ;
    assert((2 * q) % 2 == 0) by (nonlinear_arith);
}

/// A multiple of `2^of` is a multiple of every smaller power of two.
proof fn lemma_pow2_mod_le(a: int, j: nat, of: nat)
    requires
        j <= of,
        a % (pow2(of) as int) == 0,
    ensures
        a % (pow2(j) as int) == 0,
    decreases of - j,
{
    if j < of {
        lemma_pow2_adds((of - 1) as nat, 1);
        lemma2_to64();
        assert(pow2(of) == 2 * pow2((of - 1) as nat));
        lemma_mod_half(a, pow2((of - 1) as nat) as int);
        lemma_pow2_mod_le(a, j, (of - 1) as nat);
    }
}

/// A multiple of `m` with an even quotient is a multiple of `2 * m`.
proof fn lemma_mod_double(a: int, m: int)
    requires
        m > 0,
        a % m == 0,
        (a / m) % 2 == 0,
    ensures
        a % (2 * m) == 0,
{
    vstd::arithmetic::div_mod::lemma_fundamental_div_mod(a, m);
    let q = a / m;
    vstd::arithmetic::div_mod::lemma_fundamental_div_mod(q, 2);
    let r = q / 2;
    assert(a == r * (2 * m)) by (nonlinear_arith)
        requires
            a == m * q + a % m,
            a % m == 0,
            q == 2 * r + q % 2,
            q % 2 == 0,
    ;
    vstd::arithmetic::div_mod::lemma_mod_multiples_basic(r, 2 * m);
}

/// A non-negative multiple of `m` with an odd quotient is `m` past a
/// multiple of `2 * m`.
proof fn lemma_mod_double_odd(a: int, m: int)
    requires
        m > 0,
        a >= 0,
        a % m == 0,
        (a / m) % 2 == 1,
    ensures
        a >= m,
        (a - m) % (2 * m) == 0,
{
    vstd::arithmetic::div_mod::lemma_fundamental_div_mod(a, m);
    let q = a / m;
    vstd::arithmetic::div_mod::lemma_div_pos_is_pos(a, m);
    vstd::arithmetic::div_mod::lemma_fundamental_div_mod(q, 2);
    let r = q / 2;
    assert(a - m == r * (2 * m) && a >= m) by (nonlinear_arith)
        requires
            a == m * q + a % m,
            a % m == 0,
            q == 2 * r + q % 2,
            q % 2 == 1,
            q >= 0,
            m > 0,
    ;
    vstd::arithmetic::div_mod::lemma_mod_multiples_basic(r, 2 * m);
}

/// Relates an allocator state just before a deallocation to the state just
/// after it: the returned block `h` ends up inside a free block headed by
/// `hf` of order `of`. Coalescing never shrinks the block; it grows it
/// exactly when the buddy of the returned block was free at equal order;
/// and every frame outside the merged chain keeps its per-frame state.
pub open spec fn freed_block_ok(
    pre: BuddyAllocator,
    post: BuddyAllocator,
    h: int,
    hf: int,
    of: int,
) -> bool {
    let o = pre.allocated()[h];
    &&& o <= of <= MAX_ORDER
    &&& hf <= h
    &&& hf + pow2(of as nat) <= pre.n_frames()
    &&& (pre.base() + hf) % (pow2(of as nat) as int) == 0
    &&& in_block(h, hf, of)
    &&& h + pow2(o as nat) <= hf + pow2(of as nat)
    &&& post.is_free_frame(hf)
    &&& post.order_of(hf) == of
    &&& post.has_free_at(of)
    &&& ((o == MAX_ORDER || !pre.buddy_mergeable(h, o)) ==> (of == o && hf == h))
    &&& ((o < MAX_ORDER && pre.buddy_mergeable(h, o)) ==> of >= o + 1)
    &&& (forall|i: int| #![trigger post.is_free_frame(i)]
        0 <= i < pre.n_frames() && !in_block(i, hf, of) ==> post.is_free_frame(i)
            == pre.is_free_frame(i) && post.order_of(i) == pre.order_of(i))
}

/// The order at which greedy seeding places a block at frame `cur` of a
/// window of `n` frames based at `base`: the largest order, up to the
/// maximum, at which the block is aligned and still fits the window.
pub open spec fn seed_order_rec(base: int, n: int, cur: int, o: int) -> int
    decreases MAX_ORDER - o,
        when 0 <= o <= MAX_ORDER
{
    if o < MAX_ORDER && (base + cur) % (pow2((o + 1) as nat) as int) == 0 && cur + pow2(
        (o + 1) as nat,
    ) <= n {
        seed_order_rec(base, n, cur, o + 1)
    } else {
        o
    }
}

/// The free lists after greedily seeding the window tail `[cur, n)`: each
/// step pushes the maximal aligned block that fits, then moves past it, so
/// no region is left unmanaged.
pub open spec fn seed_fill(ls: Seq<Seq<usize>>, base: int, n: int, cur: int) -> Seq<Seq<usize>>
    decreases n - cur,
        when 0 <= cur
        via seed_fill_decreases
{
    if cur < n {
        let o = seed_order_rec(base, n, cur, 0);
        seed_fill(ls.update(o, ls[o].push(cur as usize)), base, n, cur + pow2(o as nat))
    } else {
        ls
    }
}

/// The seeding order stays in range and its block fits the window.
proof fn lemma_seed_order_fits(base: int, n: int, cur: int, o: int)
    requires
        0 <= o <= MAX_ORDER,
        cur + pow2(o as nat) <= n,
    ensures
        o <= seed_order_rec(base, n, cur, o) <= MAX_ORDER,
        cur + pow2(seed_order_rec(base, n, cur, o) as nat) <= n,
    decreases MAX_ORDER - o,
{
    if o < MAX_ORDER && (base + cur) % (pow2((o + 1) as nat) as int) == 0 && cur + pow2(
        (o + 1) as nat,
    ) <= n {
        lemma_seed_order_fits(base, n, cur, o + 1);
    }
}

#[via_fn]
proof fn seed_fill_decreases(ls: Seq<Seq<usize>>, base: int, n: int, cur: int) {
    if cur < n {
        lemma2_to64();
        lemma_seed_order_fits(base, n, cur, 0);
        let o = seed_order_rec(base, n, cur, 0);
        vstd::arithmetic::power2::lemma_pow2_pos(o as nat);
    }
}

/// The exact effect of a deallocation on the per-order free lists `ls`,
/// computed over the pre-deallocation record state `s`: while the buddy of
/// the current block is itself a free block of equal order, it is taken
/// off its free list and absorbed, and the merged block moves up one
/// order; the block that remains is pushed onto the free list of its
/// order. The records the recursion consults lie outside every range
/// merged so far, so the pre-deallocation state decides every step.
pub open spec fn coalesce_lists(
    s: BuddyAllocator,
    ls: Seq<Seq<usize>>,
    i: int,
    o: int,
) -> Seq<Seq<usize>>
    decreases MAX_ORDER - o,
        when o <= MAX_ORDER
{
    if o < MAX_ORDER && s.buddy_mergeable(i, o) {
        let b = s.buddy_of(i, o);
        let m = if b < i {
            b
        } else {
            i
        };
        coalesce_lists(s, ls.update(o, ls[o].remove_value(b as usize)), m, o + 1)
    } else {
        ls.update(o, ls[o].push(i as usize))
    }
}

/// The buddy allocator: the metadata arena, the per-order free lists, and
/// the registered window. All mutable state sits behind one instance that
/// callers are expected to guard with a single lock; no operation here
/// blocks or re-enters.
pub struct BuddyAllocator {
    base_pfn: usize,
    pages: Vec<RawPage>,
    free_lists: Vec<Vec<usize>>,
    registered: bool,
    allocated: Ghost<Map<int, int>>,
}

impl BuddyAllocator {
    /// Number of frames in the registered window.
    pub closed spec fn n_frames(self) -> int {
        self.pages@.len() as int
    }

    /// First physical frame number of the registered window.
    pub closed spec fn base(self) -> int {
        self.base_pfn as int
    }

    /// Whether `create_pages` has registered a window yet.
    pub closed spec fn is_registered(self) -> bool {
        self.registered
    }

    /// The blocks handed out and not yet returned: head index to order.
    pub closed spec fn allocated(self) -> Map<int, int> {
        self.allocated@
    }

    /// The per-order free lists, as sequences of head indices.
    pub closed spec fn lists(self) -> Seq<Seq<usize>> {
        Seq::new(self.free_lists@.len(), |o: int| self.free_lists@[o]@)
    }

    /// The record order of frame `i`.
    pub closed spec fn order_of(self, i: int) -> int {
        self.pages@[i].order as int
    }

    /// Whether frame `i` heads a block on a free list.
    pub closed spec fn is_free_frame(self, i: int) -> bool {
        self.pages@[i].free
    }

    /// The record reference count of frame `i`.
    pub closed spec fn refcount_of(self, i: int) -> int {
        self.pages@[i].refcount as int
    }

    /// Frame `f` lies inside some block on a free list.
    pub closed spec fn free_covered(self, f: int) -> bool {
        exists|i: int|
            0 <= i < self.pages@.len() && (#[trigger] self.pages@[i]).free && in_block(
                f,
                i,
                self.pages@[i].order as int,
            )
    }

    /// Frame `f` lies inside some block handed out and not yet returned.
    pub open spec fn alloc_covered(self, f: int) -> bool {
        exists|i: int|
            #![trigger self.allocated().dom().contains(i)]
            self.allocated().dom().contains(i) && in_block(f, i, self.allocated()[i])
    }

    /// The free list of order `o` is non-empty.
    pub closed spec fn has_free_at(self, o: int) -> bool {
        0 <= o < NUM_ORDERS && self.lists()[o].len() > 0
    }

    /// Some free list of order `o` or above is non-empty.
    pub closed spec fn has_free_at_or_above(self, o: int) -> bool {
        exists|oo: int| o <= oo < NUM_ORDERS && #[trigger] self.has_free_at(oo)
    }

    /// The index of the buddy of the block headed by `i` at order `o`: the
    /// equal-sized neighbour whose absolute frame number differs from the
    /// block's exactly in the bit of order `o`.
    pub open spec fn buddy_of(self, i: int, o: int) -> int {
        if ((self.base() + i) / (pow2(o as nat) as int)) % 2 == 0 {
            i + pow2(o as nat)
        } else {
            i - pow2(o as nat)
        }
    }

    /// The buddy of the block headed by `i` at order `o` lies inside the
    /// window and is itself a free block of the same order, so deallocating
    /// the block `i` heads will merge the two.
    pub open spec fn buddy_mergeable(self, i: int, o: int) -> bool {
        let b = self.buddy_of(i, o);
        &&& 0 <= b
        &&& b + pow2(o as nat) <= self.n_frames()
        &&& self.is_free_frame(b)
        &&& self.order_of(b) == o
    }

    spec fn list_entry_ok(self, o: int, j: int) -> bool {
        let i = self.lists()[o][j] as int;
        &&& i + pow2(o as nat) <= self.pages@.len()
        &&& (self.base_pfn + i) % (pow2(o as nat) as int) == 0
        &&& self.pages@[i].free
        &&& self.pages@[i].order == o
    }

    spec fn lists_wf(self) -> bool {
        &&& self.free_lists@.len() == NUM_ORDERS
        &&& (forall|o: int, j: int|
            0 <= o < NUM_ORDERS && 0 <= j < self.lists()[o].len()
                ==> #[trigger] self.list_entry_ok(o, j))
        &&& (forall|o: int, j: int, k: int|
            #![trigger self.lists()[o][j], self.lists()[o][k]]
            0 <= o < NUM_ORDERS && 0 <= j < k < self.lists()[o].len()
                ==> self.lists()[o][j] != self.lists()[o][k])
    }

    /// Every record marked free is reachable from the free list of its
    /// order.
    spec fn free_complete(self) -> bool {
        forall|i: int|
            #![trigger self.pages@[i]]
            0 <= i < self.pages@.len() && self.pages@[i].free ==> {
                let o = self.pages@[i].order as int;
                &&& 0 <= o < NUM_ORDERS
                &&& exists|j: int| 0 <= j < self.lists()[o].len() && (#[trigger] self.lists()[o][j]) == i
            }
    }

    /// Distinct free blocks never share a frame.
    spec fn free_disjoint(self) -> bool {
        forall|i1: int, i2: int|
            #![trigger self.pages@[i1], self.pages@[i2]]
            0 <= i1 < i2 < self.pages@.len() && self.pages@[i1].free && self.pages@[i2].free
                ==> i1 + pow2(self.pages@[i1].order as nat) <= i2
    }

    spec fn alloc_entry_ok(self, i: int) -> bool {
        let o = self.allocated@[i];
        &&& 0 <= i
        &&& 0 <= o <= MAX_ORDER
        &&& i + pow2(o as nat) <= self.pages@.len()
        &&& (self.base_pfn + i) % (pow2(o as nat) as int) == 0
        &&& !self.pages@[i].free
        &&& self.pages@[i].order == o
    }

    /// Distinct allocated blocks never share a frame, and never share a
    /// frame with a free block.
    spec fn alloc_disjoint(self) -> bool {
        &&& (forall|i: int|
            #![trigger self.allocated@.dom().contains(i)]
            self.allocated@.dom().contains(i) ==> self.alloc_entry_ok(i))
        &&& (forall|i1: int, i2: int|
            #![trigger self.allocated@.dom().contains(i1), self.allocated@.dom().contains(i2)]
            self.allocated@.dom().contains(i1) && self.allocated@.dom().contains(i2) && i1 < i2
                ==> i1 + pow2(self.allocated@[i1] as nat) <= i2)
        &&& (forall|i: int, f: int|
            #![trigger self.allocated@.dom().contains(i), self.pages@[f]]
            self.allocated@.dom().contains(i) && 0 <= f < self.pages@.len() && self.pages@[f].free
                ==> (i + pow2(self.allocated@[i] as nat) <= f || f + pow2(self.pages@[f].order as nat)
                    <= i))
    }

    /// The allocator's internal invariant: free lists well-formed and
    /// complete, free and allocated blocks pairwise disjoint, sizes within
    /// the arena's capacity.
    pub closed spec fn inv(self) -> bool {
        &&& self.pages@.len() <= MAX_FRAMES
        &&& self.base_pfn + self.pages@.len() <= usize::MAX
        &&& self.lists_wf()
        &&& self.free_complete()
        &&& self.free_disjoint()
        &&& self.alloc_disjoint()
        &&& (forall|i: int|
            0 <= i < self.pages@.len() && (#[trigger] self.pages@[i]).refcount != 0
                ==> self.allocated@.dom().contains(i))
    }

    /// A fresh allocator with no window registered and nothing to hand out.
    pub fn new() -> (r: Self)
        ensures
            r.inv(),
            !r.is_registered(),
            r.n_frames() == 0,
            r.allocated() === Map::empty(),
            forall|o: int| 0 <= o < NUM_ORDERS ==> !(#[trigger] r.has_free_at(o)),
            r.lists().len() == NUM_ORDERS,
            forall|o: int| 0 <= o < NUM_ORDERS ==> #[trigger] r.lists()[o] == Seq::<usize>::empty(),
    {
        let mut free_lists: Vec<Vec<usize>> = Vec::new();
        let mut o: usize = 0;
        while o < NUM_ORDERS
            invariant
                o <= NUM_ORDERS,
                free_lists@.len() == o,
                forall|k: int| 0 <= k < o ==> (#[trigger] free_lists@[k])@.len() == 0,
            decreases NUM_ORDERS - o,
        {
            free_lists.push(Vec::new());
            o = o + 1;
        }
        let r = BuddyAllocator {
            base_pfn: 0,
            pages: Vec::new(),
            free_lists,
            registered: false,
            allocated: Ghost(Map::empty()),
        };
        proof {
            assert(forall|o: int, j: int|
                0 <= o < NUM_ORDERS && 0 <= j < r.lists()[o].len()
                    ==> #[trigger] r.list_entry_ok(o, j)) by {
                assert(forall|o: int| 0 <= o < NUM_ORDERS ==> r.lists()[o].len() == 0);
            }
            assert forall|o2: int| 0 <= o2 < NUM_ORDERS implies #[trigger] r.lists()[o2]
                =~= Seq::<usize>::empty() by {
                assert(r.lists()[o2].len() == 0);
            }
        }
        r
    }

    /// The window always fits the arena's capacity, and its frame numbers
    /// fit the machine word.
    pub proof fn lemma_window_bounded(self)
        requires
            self.inv(),
        ensures
            self.n_frames() <= MAX_FRAMES,
            self.base() + self.n_frames() <= usize::MAX,
    {
    }

    /// The first physical frame number of the registered window.
    pub fn base_pfn(&self) -> (r: usize)
        ensures
            r == self.base(),
    {
        self.base_pfn
    }

    /// The number of frames in the registered window.
    pub fn frame_count(&self) -> (r: usize)
        ensures
            r == self.n_frames(),
    {
        self.pages.len()
    }

    /// True exactly when the handle's frame lies inside the registered
    /// window, distinguishing frames owned by this allocator from frames
    /// mapped for other purposes.
    pub fn has_management_over(&self, h: RawPageHandle) -> (r: bool)
        ensures
            r == (h.0 < self.n_frames()),
    {
        h.0 < self.pages.len()
    }

    /// The absolute physical frame number of the handle's frame.
    pub fn pfn_of(&self, h: RawPageHandle) -> (r: usize)
        requires
            self.inv(),
            h.0 < self.n_frames(),
        ensures
            r == self.base() + h.0,
    {
        self.base_pfn + h.0
    }

    /// The handle for an absolute physical frame number. Only frames inside
    /// the registered window may be named by a handle: anything else is a
    /// caller's logic error and is excluded outright rather than wrapped.
    pub fn handle_of_pfn(&self, pfn: usize) -> (r: RawPageHandle)
        requires
            self.inv(),
            self.base() <= pfn < self.base() + self.n_frames(),
        ensures
            r.0 == pfn - self.base(),
            r.0 < self.n_frames(),
    {
        RawPageHandle(pfn - self.base_pfn)
    }

    /// The record order of the handle's frame.
    pub fn order(&self, h: RawPageHandle) -> (r: u32)
        requires
            h.0 < self.n_frames(),
        ensures
            r == self.order_of(h.0 as int),
    {
        self.pages[h.0].order
    }

    /// The record reference count of the handle's frame.
    pub fn refcount(&self, h: RawPageHandle) -> (r: usize)
        requires
            h.0 < self.n_frames(),
        ensures
            r == self.refcount_of(h.0 as int),
    {
        self.pages[h.0].refcount
    }

    /// Whether the handle's frame heads a free block.
    pub fn is_free(&self, h: RawPageHandle) -> (r: bool)
        requires
            h.0 < self.n_frames(),
        ensures
            r == self.is_free_frame(h.0 as int),
    {
        self.pages[h.0].free
    }

    /// Takes the last block off the free list of order `o` and marks it
    /// allocated.
    fn take_last(&mut self, o: u32) -> (h: usize)
        requires
            old(self).inv(),
            o < NUM_ORDERS,
            old(self).lists()[o as int].len() > 0,
        ensures
            final(self).inv(),
            final(self).base() == old(self).base(),
            final(self).n_frames() == old(self).n_frames(),
            final(self).is_registered() == old(self).is_registered(),
            h + pow2(o as nat) <= old(self).n_frames(),
            (old(self).base() + h) % (pow2(o as nat) as int) == 0,
            old(self).is_free_frame(h as int),
            old(self).order_of(h as int) == o,
            old(self).lists()[o as int].last() == h,
            final(self).lists() == old(self).lists().update(
                o as int,
                old(self).lists()[o as int].drop_last(),
            ),
            !old(self).allocated().dom().contains(h as int),
            final(self).allocated() == old(self).allocated().insert(h as int, o as int),
            !final(self).is_free_frame(h as int),
            final(self).order_of(h as int) == o,
            final(self).refcount_of(h as int) == 0,
            forall|i: int| #![trigger final(self).is_free_frame(i)]
                0 <= i < old(self).n_frames() && !in_block(i, h as int, o as int)
                    ==> final(self).is_free_frame(i) == old(self).is_free_frame(i)
                    && final(self).order_of(i) == old(self).order_of(i),
            forall|f: int| #![trigger final(self).free_covered(f)]
                final(self).free_covered(f) == (old(self).free_covered(f) && !in_block(
                    f,
                    h as int,
                    o as int,
                )),
            forall|f: int| #![trigger final(self).alloc_covered(f)]
                final(self).alloc_covered(f) == (old(self).alloc_covered(f) || in_block(
                    f,
                    h as int,
                    o as int,
                )),
            forall|f: int| #![trigger in_block(f, h as int, o as int)]
                in_block(f, h as int, o as int) ==> old(self).free_covered(f) && !old(
                    self,
                ).alloc_covered(f),
    {
        let ghost s0 = *self;
        let oi = o as usize;
        proof {
            assert(s0.lists()[o as int] == s0.free_lists@[o as int]@);
            assert(s0.list_entry_ok(o as int, s0.lists()[o as int].len() - 1));
            // a free head is not an outstanding block, so its count is zero
            let hd = s0.lists()[o as int].last() as int;
            if s0.pages@[hd].refcount != 0 {
                assert(s0.allocated@.dom().contains(hd));
                assert(s0.alloc_entry_ok(hd));
                assert(false);
            }
        }
        let popped = self.free_lists[oi].pop();
        let h: usize = match popped {
            Some(x) => x,
            None => {
                proof {
                    assert(false);
                }
                0
            },
        };
        let mut rec = self.pages[h];
        rec.free = false;
        rec.buddy = false;
        self.pages[h] = rec;
        self.allocated = Ghost(self.allocated@.insert(h as int, o as int));
        proof {
            let s1 = *self;
            let hi = h as int;
            let oo = o as int;
            let l = s0.lists()[oo].len() as int;
            let tail = s0.lists()[oo].subrange(0, l - 1);
            assert(s0.lists()[oo][l - 1] == h);
            assert(s1.lists() =~= s0.lists().update(oo, tail));
            assert(s1.pages@ == s0.pages@.update(hi, rec));
            assert(!s0.allocated@.dom().contains(hi)) by {
                if s0.allocated@.dom().contains(hi) {
                    assert(s0.alloc_entry_ok(hi));
                }
            }
            // free lists remain well-formed
            assert forall|o2: int, j: int|
                0 <= o2 < NUM_ORDERS && 0 <= j < s1.lists()[o2].len() implies #[trigger] s1.list_entry_ok(
                o2,
                j,
            ) by {
                assert(s0.list_entry_ok(o2, j));
                if o2 == oo {
                    assert(s1.lists()[o2][j] == s0.lists()[o2][j]);
                    assert(s0.lists()[oo][j] != s0.lists()[oo][l - 1]);
                } else {
                    assert(s1.lists()[o2][j] == s0.lists()[o2][j]);
                }
            }
            assert forall|o2: int, j: int, k: int|
                0 <= o2 < NUM_ORDERS && 0 <= j < k < s1.lists()[o2].len() implies s1.lists()[o2][j]
                != s1.lists()[o2][k] by {
                assert(s1.lists()[o2][j] == s0.lists()[o2][j]);
                assert(s1.lists()[o2][k] == s0.lists()[o2][k]);
            }
            // every free record is still reachable from its list
            assert forall|i: int|
                0 <= i < s1.pages@.len() && (#[trigger] s1.pages@[i]).free implies {
                let o3 = s1.pages@[i].order as int;
                &&& 0 <= o3 < NUM_ORDERS
                &&& exists|j: int| 0 <= j < s1.lists()[o3].len() && (#[trigger] s1.lists()[o3][j]) == i
            } by {
                assert(i != hi);
                assert(s0.pages@[i].free);
                let o3 = s0.pages@[i].order as int;
                let j = choose|j: int| 0 <= j < s0.lists()[o3].len() && (#[trigger] s0.lists()[o3][j]) == i;
                if o3 == oo {
                    assert(s0.lists()[oo][j] == i);
                    assert(j != l - 1);
                    assert(s1.lists()[o3][j] == i);
                } else {
                    assert(s1.lists()[o3][j] == i);
                }
            }
            // disjointness of the remaining free blocks
            assert forall|i1: int, i2: int|
                0 <= i1 < i2 < s1.pages@.len() && (#[trigger] s1.pages@[i1]).free && (
                #[trigger] s1.pages@[i2]).free implies i1 + pow2(s1.pages@[i1].order as nat)
                <= i2 by {
                assert(s0.pages@[i1].free && s0.pages@[i2].free);
            }
            // allocated blocks stay well-formed and disjoint
            assert forall|i: int| #[trigger]
                s1.allocated@.dom().contains(i) implies s1.alloc_entry_ok(i) by {
                if i == hi {
                    assert(s0.list_entry_ok(oo, l - 1));
                } else {
                    assert(s0.allocated@.dom().contains(i));
                    assert(s0.alloc_entry_ok(i));
                    assert(!s0.pages@[i].free);
                }
            }
            assert forall|i1: int, i2: int|
                #![trigger s1.allocated@.dom().contains(i1), s1.allocated@.dom().contains(i2)]
                s1.allocated@.dom().contains(i1) && s1.allocated@.dom().contains(i2) && i1
                < i2 implies i1 + pow2(s1.allocated@[i1] as nat) <= i2 by {
                if i1 != hi && i2 != hi {
                    assert(s0.alloc_entry_ok(i1));
                    assert(s0.alloc_entry_ok(i2));
                } else if i1 == hi {
                    assert(s0.allocated@.dom().contains(i2));
                    assert(s0.alloc_entry_ok(i2));
                    assert(s0.pages@[hi].free);
                } else {
                    assert(s0.allocated@.dom().contains(i1));
                    assert(s0.alloc_entry_ok(i1));
                    assert(s0.pages@[hi].free);
                }
            }
            assert forall|i: int, f: int|
                #![trigger s1.allocated@.dom().contains(i), s1.pages@[f]]
                s1.allocated@.dom().contains(i) && 0 <= f < s1.pages@.len()
                    && s1.pages@[f].free implies (i + pow2(s1.allocated@[i] as nat) <= f || f
                + pow2(s1.pages@[f].order as nat) <= i) by {
                assert(f != hi);
                assert(s0.pages@[f].free);
                if i == hi {
                    assert(s0.pages@[hi].free);
                    if hi < f {
                        assert(hi + pow2(s0.pages@[hi].order as nat) <= f);
                    } else {
                        assert(f + pow2(s0.pages@[f].order as nat) <= hi);
                    }
                } else {
                    assert(s0.alloc_entry_ok(i));
                }
            }
            // coverage bookkeeping
            assert forall|f: int| #![trigger in_block(f, hi, oo)]
                in_block(f, hi, oo) implies s0.free_covered(f) && !s0.alloc_covered(f) by {
                assert(s0.pages@[hi].free);
                assert(in_block(f, hi, s0.pages@[hi].order as int));
                if s0.alloc_covered(f) {
                    let i = choose|i: int|
                        #![trigger s0.allocated().dom().contains(i)]
                        s0.allocated().dom().contains(i) && in_block(f, i, s0.allocated()[i]);
                    assert(s0.alloc_entry_ok(i));
                    assert(s0.pages@[hi].free);
                    assert(false);
                }
            }
            assert forall|f: int| #![trigger s1.free_covered(f)]
                s1.free_covered(f) == (s0.free_covered(f) && !in_block(f, hi, oo)) by {
                if s1.free_covered(f) {
                    let i = choose|i: int|
                        0 <= i < s1.pages@.len() && (#[trigger] s1.pages@[i]).free && in_block(
                            f,
                            i,
                            s1.pages@[i].order as int,
                        );
                    assert(i != hi);
                    assert(s0.pages@[i].free && in_block(f, i, s0.pages@[i].order as int));
                    assert(s0.free_covered(f));
                    if in_block(f, hi, oo) {
                        assert(s0.pages@[hi].free);
                        if i < hi {
                            assert(i + pow2(s0.pages@[i].order as nat) <= hi);
                        } else {
                            assert(hi + pow2(s0.pages@[hi].order as nat) <= i);
                        }
                        assert(false);
                    }
                }
                if s0.free_covered(f) && !in_block(f, hi, oo) {
                    let i = choose|i: int|
                        0 <= i < s0.pages@.len() && (#[trigger] s0.pages@[i]).free && in_block(
                            f,
                            i,
                            s0.pages@[i].order as int,
                        );
                    if i == hi {
                        assert(in_block(f, hi, oo));
                        assert(false);
                    }
                    assert(s1.pages@[i].free && in_block(f, i, s1.pages@[i].order as int));
                    assert(s1.free_covered(f));
                }
            }
            assert forall|f: int| #![trigger s1.alloc_covered(f)]
                s1.alloc_covered(f) == (s0.alloc_covered(f) || in_block(f, hi, oo)) by {
                if s1.alloc_covered(f) {
                    let i = choose|i: int|
                        #![trigger s1.allocated().dom().contains(i)]
                        s1.allocated().dom().contains(i) && in_block(f, i, s1.allocated()[i]);
                    if i != hi {
                        assert(s0.allocated().dom().contains(i));
                        assert(s0.alloc_covered(f));
                    }
                }
                if s0.alloc_covered(f) {
                    let i = choose|i: int|
                        #![trigger s0.allocated().dom().contains(i)]
                        s0.allocated().dom().contains(i) && in_block(f, i, s0.allocated()[i]);
                    assert(i != hi);
                    assert(s1.allocated().dom().contains(i) && in_block(f, i, s1.allocated()[i]));
                    assert(s1.alloc_covered(f));
                }
                if in_block(f, hi, oo) {
                    assert(s1.allocated().dom().contains(hi) && in_block(f, hi, s1.allocated()[hi]));
                    assert(s1.alloc_covered(f));
                }
            }
            assert forall|i: int| #![trigger s1.is_free_frame(i)]
                0 <= i < s0.n_frames() && !in_block(i, hi, oo) implies s1.is_free_frame(i)
                == s0.is_free_frame(i) && s1.order_of(i) == s0.order_of(i) by {
                if i == hi {
                    assert(in_block(hi, hi, oo));
                    assert(false);
                } else {
                    assert(s1.pages@[i] == s0.pages@[i]);
                }
            }
        }
        h
    }

    /// Splits the allocated block headed by `h` from order `o` down to
    /// order `o - 1`: the lower half stays allocated at the smaller order,
    /// the upper half becomes a free block (tagged as the coalescing
    /// partner) on the free list of order `o - 1`.
    fn split_step(&mut self, h: usize, o: u32)
        requires
            old(self).inv(),
            1 <= o <= MAX_ORDER,
            old(self).allocated().dom().contains(h as int),
            old(self).allocated()[h as int] == o,
        ensures
            final(self).inv(),
            final(self).base() == old(self).base(),
            final(self).n_frames() == old(self).n_frames(),
            final(self).is_registered() == old(self).is_registered(),
            final(self).allocated() == old(self).allocated().insert(h as int, o as int - 1),
            !final(self).is_free_frame(h as int),
            final(self).order_of(h as int) == o - 1,
            final(self).refcount_of(h as int) == old(self).refcount_of(h as int),
            final(self).lists() == old(self).lists().update(
                o as int - 1,
                old(self).lists()[o as int - 1].push(((h + pow2((o - 1) as nat)) as usize)),
            ),
            forall|i: int| #![trigger final(self).is_free_frame(i)]
                0 <= i < old(self).n_frames() && i != h && i != h + pow2((o - 1) as nat)
                    ==> final(self).is_free_frame(i) == old(self).is_free_frame(i)
                    && final(self).order_of(i) == old(self).order_of(i),
            forall|f: int| #![trigger final(self).free_covered(f)]
                final(self).free_covered(f) == (old(self).free_covered(f) || in_block(
                    f,
                    h + pow2((o - 1) as nat),
                    o as int - 1,
                )),
            forall|f: int| #![trigger final(self).alloc_covered(f)]
                final(self).alloc_covered(f) == (old(self).alloc_covered(f) && !in_block(
                    f,
                    h + pow2((o - 1) as nat),
                    o as int - 1,
                )),
    {
        let ghost s0 = *self;
        proof {
            assert(s0.alloc_entry_ok(h as int));
            lemma_pow2_adds((o - 1) as nat, 1);
            lemma2_to64();
            assert(pow2(o as nat) == 2 * pow2((o - 1) as nat));
        }
        let half = pow2_usize(o - 1);
        let upper = h + half;
        proof {
            let hi = h as int;
            let ui = upper as int;
            let om = o as int - 1;
            lemma_mod_half(s0.base() + hi, pow2(om as nat) as int);
            lemma_mod_plus(s0.base() + hi, pow2(om as nat) as int);
            // the upper half is an interior frame of the allocated block,
            // so no free block reaches it
            assert(!s0.pages@[ui].free) by {
                if s0.pages@[ui].free {
                    assert(s0.allocated@.dom().contains(hi));
                }
            }
        }
        let mut urec = self.pages[upper];
        urec.free = true;
        urec.buddy = true;
        urec.order = o - 1;
        self.pages[upper] = urec;
        let mut hrec = self.pages[h];
        hrec.order = o - 1;
        self.pages[h] = hrec;
        self.free_lists[(o - 1) as usize].push(upper);
        self.allocated = Ghost(self.allocated@.insert(h as int, o as int - 1));
        proof {
            let s1 = *self;
            let hi = h as int;
            let ui = upper as int;
            let om = o as int - 1;
            let l0 = s0.lists()[om].len() as int;
            assert(s1.pages@ == s0.pages@.update(ui, urec).update(hi, hrec));
            assert(s1.lists() =~= s0.lists().update(om, s0.lists()[om].push(upper)));
            assert(ui + pow2(om as nat) == hi + pow2(o as nat));
            // no old free list entry names the upper half
            assert forall|o2: int, j: int|
                0 <= o2 < NUM_ORDERS && 0 <= j < s0.lists()[o2].len() implies s0.lists()[o2][j]
                != upper by {
                assert(s0.list_entry_ok(o2, j));
            }
            // free lists remain well-formed
            assert forall|o2: int, j: int|
                0 <= o2 < NUM_ORDERS && 0 <= j < s1.lists()[o2].len() implies #[trigger] s1.list_entry_ok(
                o2,
                j,
            ) by {
                if o2 == om && j == l0 {
                    assert(s1.lists()[o2][j] == upper);
                    assert(s1.pages@[ui] == urec);
                } else {
                    assert(s1.lists()[o2][j] == s0.lists()[o2][j]);
                    assert(s0.list_entry_ok(o2, j));
                    let i = s0.lists()[o2][j] as int;
                    assert(i != ui);
                    assert(i != hi) by {
                        if i == hi {
                            assert(s0.pages@[hi].free);
                        }
                    }
                }
            }
            assert forall|o2: int, j: int, k: int|
                0 <= o2 < NUM_ORDERS && 0 <= j < k < s1.lists()[o2].len() implies s1.lists()[o2][j]
                != s1.lists()[o2][k] by {
                assert(s1.lists()[o2][j] == s0.lists()[o2][j]);
                if o2 == om && k == l0 {
                    assert(s0.lists()[o2][j] != upper);
                } else {
                    assert(s1.lists()[o2][k] == s0.lists()[o2][k]);
                }
            }
            // every free record is still reachable from its list
            assert forall|i: int|
                0 <= i < s1.pages@.len() && (#[trigger] s1.pages@[i]).free implies {
                let o3 = s1.pages@[i].order as int;
                &&& 0 <= o3 < NUM_ORDERS
                &&& exists|j: int| 0 <= j < s1.lists()[o3].len() && (#[trigger] s1.lists()[o3][j]) == i
            } by {
                if i == ui {
                    assert(s1.lists()[om][l0] == i);
                } else {
                    assert(i != hi) by {
                        if i == hi {
                            assert(s0.pages@[hi].free);
                        }
                    }
                    assert(s0.pages@[i].free);
                    let o3 = s0.pages@[i].order as int;
                    let j = choose|j: int|
                        0 <= j < s0.lists()[o3].len() && (#[trigger] s0.lists()[o3][j]) == i;
                    assert(s1.lists()[o3][j] == i);
                }
            }
            // a free block's range stays clear of the split block's range
            assert forall|f: int|
                0 <= f < s0.pages@.len() && (#[trigger] s0.pages@[f]).free implies (hi + pow2(
                o as nat,
            ) <= f || f + pow2(s0.pages@[f].order as nat) <= hi) by {
                assert(s0.allocated@.dom().contains(hi));
            }
            // disjointness of free blocks
            assert forall|i1: int, i2: int|
                0 <= i1 < i2 < s1.pages@.len() && (#[trigger] s1.pages@[i1]).free && (
                #[trigger] s1.pages@[i2]).free implies i1 + pow2(s1.pages@[i1].order as nat)
                <= i2 by {
                if i1 == ui {
                    assert(s0.pages@[i2].free);
                    assert(hi + pow2(o as nat) <= i2 || i2 + pow2(s0.pages@[i2].order as nat) <= hi);
                } else if i2 == ui {
                    assert(s0.pages@[i1].free);
                    assert(hi + pow2(o as nat) <= i1 || i1 + pow2(s0.pages@[i1].order as nat) <= hi);
                } else {
                    assert(s0.pages@[i1].free && s0.pages@[i2].free);
                }
            }
            // allocated blocks stay well-formed and disjoint
            assert forall|i: int| #[trigger]
                s1.allocated@.dom().contains(i) implies s1.alloc_entry_ok(i) by {
                if i == hi {
                    assert(s1.pages@[hi] == hrec);
                } else {
                    assert(s0.allocated@.dom().contains(i));
                    assert(s0.alloc_entry_ok(i));
                    assert(i != ui);
                }
            }
            assert forall|i1: int, i2: int|
                #![trigger s1.allocated@.dom().contains(i1), s1.allocated@.dom().contains(i2)]
                s1.allocated@.dom().contains(i1) && s1.allocated@.dom().contains(i2) && i1
                < i2 implies i1 + pow2(s1.allocated@[i1] as nat) <= i2 by {
                assert(s0.allocated@.dom().contains(i1) && s0.allocated@.dom().contains(i2));
                assert(s0.alloc_entry_ok(i1) && s0.alloc_entry_ok(i2));
            }
            assert forall|i: int, f: int|
                #![trigger s1.allocated@.dom().contains(i), s1.pages@[f]]
                s1.allocated@.dom().contains(i) && 0 <= f < s1.pages@.len()
                    && s1.pages@[f].free implies (i + pow2(s1.allocated@[i] as nat) <= f || f
                + pow2(s1.pages@[f].order as nat) <= i) by {
                assert(s0.allocated@.dom().contains(i));
                assert(s0.alloc_entry_ok(i));
                if f == ui {
                    if i == hi {
                        assert(hi + pow2(om as nat) <= ui);
                    } else {
                        assert(hi + pow2(o as nat) <= i || i + pow2(s0.allocated@[i] as nat) <= hi);
                    }
                } else {
                    assert(s0.pages@[f].free);
                    if i == hi {
                        assert(hi + pow2(o as nat) <= f || f + pow2(s0.pages@[f].order as nat) <= hi);
                    }
                }
            }
            // coverage bookkeeping
            assert forall|f: int| #![trigger s1.free_covered(f)]
                s1.free_covered(f) == (s0.free_covered(f) || in_block(f, ui, om)) by {
                if s1.free_covered(f) {
                    let i = choose|i: int|
                        0 <= i < s1.pages@.len() && (#[trigger] s1.pages@[i]).free && in_block(
                            f,
                            i,
                            s1.pages@[i].order as int,
                        );
                    if i != ui {
                        assert(i != hi) by {
                            if i == hi {
                                assert(s0.pages@[hi].free);
                            }
                        }
                        assert(s0.pages@[i].free && in_block(f, i, s0.pages@[i].order as int));
                        assert(s0.free_covered(f));
                    }
                }
                if s0.free_covered(f) {
                    let i = choose|i: int|
                        0 <= i < s0.pages@.len() && (#[trigger] s0.pages@[i]).free && in_block(
                            f,
                            i,
                            s0.pages@[i].order as int,
                        );
                    assert(i != ui && i != hi) by {
                        if i == hi {
                            assert(s0.pages@[hi].free);
                        }
                    }
                    assert(s1.pages@[i].free && in_block(f, i, s1.pages@[i].order as int));
                    assert(s1.free_covered(f));
                }
                if in_block(f, ui, om) {
                    assert(s1.pages@[ui].free && in_block(f, ui, s1.pages@[ui].order as int));
                    assert(s1.free_covered(f));
                }
            }
            assert forall|f: int| #![trigger s1.alloc_covered(f)]
                s1.alloc_covered(f) == (s0.alloc_covered(f) && !in_block(f, ui, om)) by {
                if s1.alloc_covered(f) {
                    let i = choose|i: int|
                        #![trigger s1.allocated().dom().contains(i)]
                        s1.allocated().dom().contains(i) && in_block(f, i, s1.allocated()[i]);
                    assert(s0.allocated@.dom().contains(i));
                    assert(s0.alloc_entry_ok(i));
                    if i == hi {
                        assert(in_block(f, hi, o as int));
                        assert(!in_block(f, ui, om));
                    } else {
                        assert(in_block(f, i, s0.allocated()[i]));
                        assert(!in_block(f, ui, om)) by {
                            if in_block(f, ui, om) {
                                assert(hi + pow2(o as nat) <= i || i + pow2(
                                    s0.allocated@[i] as nat,
                                ) <= hi);
                                assert(false);
                            }
                        }
                    }
                    assert(s0.alloc_covered(f));
                }
                if s0.alloc_covered(f) && !in_block(f, ui, om) {
                    let i = choose|i: int|
                        #![trigger s0.allocated().dom().contains(i)]
                        s0.allocated().dom().contains(i) && in_block(f, i, s0.allocated()[i]);
                    if i == hi {
                        assert(in_block(f, hi, o as int));
                        assert(in_block(f, hi, om) || in_block(f, ui, om));
                        assert(s1.allocated().dom().contains(hi) && in_block(
                            f,
                            hi,
                            s1.allocated()[hi],
                        ));
                    } else {
                        assert(s1.allocated().dom().contains(i) && in_block(
                            f,
                            i,
                            s1.allocated()[i],
                        ));
                    }
                    assert(s1.alloc_covered(f));
                }
            }
        }
    }

    /// Allocates a free block of exactly `2^order` contiguous frames.
    ///
    /// The smallest free block of sufficient order is taken and split down
    /// to the requested order, the split-off halves going to their own free
    /// lists. Returns `Some` exactly when a free block of the requested
    /// order or above exists; exhaustion is the one recoverable failure and
    /// leaves the allocator untouched. The returned block is disjoint from
    /// every other allocated block and from every free block, and its
    /// reference count is left at zero for the caller's ownership protocol.
    #[verifier::rlimit(80)]
    pub fn alloc_order(&mut self, order: u32) -> (r: Option<RawPageHandle>)
        requires
            old(self).inv(),
        ensures
            final(self).inv(),
            final(self).base() == old(self).base(),
            final(self).n_frames() == old(self).n_frames(),
            final(self).is_registered() == old(self).is_registered(),
            (r is Some) == (order <= MAX_ORDER && old(self).has_free_at_or_above(order as int)),
            r is None ==> *final(self) == *old(self),
            r matches Some(h) ==> {
                &&& h.0 + pow2(order as nat) <= old(self).n_frames()
                &&& (old(self).base() + h.0) % (pow2(order as nat) as int) == 0
                &&& !old(self).allocated().dom().contains(h.0 as int)
                &&& final(self).allocated() == old(self).allocated().insert(
                    h.0 as int,
                    order as int,
                )
                &&& !final(self).is_free_frame(h.0 as int)
                &&& final(self).order_of(h.0 as int) == order
                &&& final(self).refcount_of(h.0 as int) == 0
                &&& (forall|f: int| #![trigger final(self).free_covered(f)]
                    final(self).free_covered(f) == (old(self).free_covered(f) && !in_block(
                        f,
                        h.0 as int,
                        order as int,
                    )))
                &&& (forall|f: int| #![trigger final(self).alloc_covered(f)]
                    final(self).alloc_covered(f) == (old(self).alloc_covered(f) || in_block(
                        f,
                        h.0 as int,
                        order as int,
                    )))
                &&& (forall|f: int| #![trigger in_block(f, h.0 as int, order as int)]
                    in_block(f, h.0 as int, order as int) ==> old(self).free_covered(f) && !old(
                        self,
                    ).alloc_covered(f))
                &&& (exists|of: int|
                    #![trigger old(self).has_free_at(of)]
                    {
                        &&& order <= of <= MAX_ORDER
                        &&& old(self).has_free_at(of)
                        &&& (forall|oo: int|
                            order <= oo < of ==> !(#[trigger] old(self).has_free_at(oo)))
                        &&& old(self).lists()[of].len() > 0
                        &&& old(self).lists()[of].last() == h.0
                        &&& final(self).lists()[of] == old(self).lists()[of].drop_last()
                        &&& (forall|k: int|
                            order <= k < of ==> #[trigger] final(self).lists()[k] == old(
                                self,
                            ).lists()[k].push(((h.0 + pow2(k as nat)) as usize)))
                        &&& (forall|k: int|
                            0 <= k < NUM_ORDERS && k != of && !(order <= k < of)
                                ==> #[trigger] final(self).lists()[k] == old(self).lists()[k])
                        &&& (forall|i: int| #![trigger final(self).is_free_frame(i)]
                            0 <= i < old(self).n_frames() && !in_block(i, h.0 as int, of)
                                ==> final(self).is_free_frame(i) == old(self).is_free_frame(i)
                                && final(self).order_of(i) == old(self).order_of(i))
                    })
            },
    {
        if order > MAX_ORDER {
            proof {
                if old(self).has_free_at_or_above(order as int) {
                    let oo = choose|oo: int|
                        order <= oo < NUM_ORDERS && #[trigger] old(self).has_free_at(oo);
                    assert(false);
                }
            }
            return None;
        }
        let mut of: u32 = order;
        while of <= MAX_ORDER && self.free_lists[of as usize].len() == 0
            invariant
                self.inv(),
                *self == *old(self),
                order <= of <= MAX_ORDER + 1,
                forall|oo: int| order <= oo < of ==> !(#[trigger] self.has_free_at(oo)),
            decreases MAX_ORDER + 1 - of,
        {
            proof {
                assert(self.lists()[of as int] == self.free_lists@[of as int]@);
            }
            of = of + 1;
        }
        if of > MAX_ORDER {
            proof {
                if old(self).has_free_at_or_above(order as int) {
                    let oo = choose|oo: int|
                        order <= oo < NUM_ORDERS && #[trigger] old(self).has_free_at(oo);
                    assert(false);
                }
            }
            return None;
        }
        proof {
            assert(self.lists()[of as int] == self.free_lists@[of as int]@);
            assert(self.has_free_at(of as int));
            assert(old(self).has_free_at_or_above(order as int));
        }
        proof {
            assert(self.lists()[of as int] == self.free_lists@[of as int]@);
            assert forall|oo: int| order <= oo < of as int implies !(#[trigger] old(
                self,
            ).has_free_at(oo)) by {}
        }
        let h = self.take_last(of);
        let ghost hi = h as int;
        let mut cur: u32 = of;
        proof {
            assert(old(self).allocated().insert(hi, of as int) == self.allocated());
        }
        while cur > order
            invariant
                self.inv(),
                order <= cur <= of <= MAX_ORDER,
                old(self).has_free_at(of as int),
                forall|oo: int| order <= oo < of as int ==> !(#[trigger] old(self).has_free_at(oo)),
                old(self).lists()[of as int].last() == h,
                self.lists()[of as int] == old(self).lists()[of as int].drop_last(),
                forall|k: int|
                    cur as int <= k < of as int ==> #[trigger] self.lists()[k] == old(
                        self,
                    ).lists()[k].push(((hi + pow2(k as nat)) as usize)),
                forall|k: int|
                    0 <= k < NUM_ORDERS && k != of as int && !(cur as int <= k < of as int)
                        ==> #[trigger] self.lists()[k] == old(self).lists()[k],
                forall|i: int| #![trigger self.is_free_frame(i)]
                    0 <= i < old(self).n_frames() && !in_block(i, hi, of as int)
                        ==> self.is_free_frame(i) == old(self).is_free_frame(i) && self.order_of(i)
                        == old(self).order_of(i),
                self.base() == old(self).base(),
                self.n_frames() == old(self).n_frames(),
                self.is_registered() == old(self).is_registered(),
                hi == h as int,
                hi + pow2(of as nat) <= old(self).n_frames(),
                (old(self).base() + hi) % (pow2(cur as nat) as int) == 0,
                old(self).is_free_frame(hi),
                !old(self).allocated().dom().contains(hi),
                self.allocated() == old(self).allocated().insert(hi, cur as int),
                !self.is_free_frame(hi),
                self.order_of(hi) == cur,
                self.refcount_of(hi) == 0,
                forall|f: int| #![trigger self.free_covered(f)]
                    self.free_covered(f) == (old(self).free_covered(f) && !in_block(
                        f,
                        hi,
                        cur as int,
                    )),
                forall|f: int| #![trigger self.alloc_covered(f)]
                    self.alloc_covered(f) == (old(self).alloc_covered(f) || in_block(
                        f,
                        hi,
                        cur as int,
                    )),
                forall|f: int| #![trigger in_block(f, hi, of as int)]
                    in_block(f, hi, of as int) ==> old(self).free_covered(f) && !old(
                        self,
                    ).alloc_covered(f),
            decreases cur,
        {
            let ghost s_pre = *self;
            proof {
                lemma_pow2_adds((cur - 1) as nat, 1);
                lemma2_to64();
                assert(pow2(cur as nat) == 2 * pow2((cur - 1) as nat));
                if (cur as int) < of as int {
                    lemma_pow2_strictly_increases(cur as nat, of as nat);
                }
            }
            self.split_step(h, cur);
            proof {
                let cm = cur as int - 1;
                let ui = hi + pow2(cm as nat);
                assert(old(self).allocated().insert(hi, cur as int).insert(hi, cm)
                    =~= old(self).allocated().insert(hi, cm));
                lemma_mod_half(old(self).base() + hi, pow2(cm as nat) as int);
                assert forall|f: int| #![trigger self.free_covered(f)]
                    self.free_covered(f) == (old(self).free_covered(f) && !in_block(
                        f,
                        hi,
                        cm,
                    )) by {
                    assert(self.free_covered(f) == (s_pre.free_covered(f) || in_block(f, ui, cm)));
                    assert(s_pre.free_covered(f) == (old(self).free_covered(f) && !in_block(
                        f,
                        hi,
                        cur as int,
                    )));
                    if in_block(f, ui, cm) {
                        assert(in_block(f, hi, of as int));
                        assert(old(self).free_covered(f));
                    }
                }
                assert forall|f: int| #![trigger self.alloc_covered(f)]
                    self.alloc_covered(f) == (old(self).alloc_covered(f) || in_block(
                        f,
                        hi,
                        cm,
                    )) by {
                    assert(self.alloc_covered(f) == (s_pre.alloc_covered(f) && !in_block(
                        f,
                        ui,
                        cm,
                    )));
                    assert(s_pre.alloc_covered(f) == (old(self).alloc_covered(f) || in_block(
                        f,
                        hi,
                        cur as int,
                    )));
                    if in_block(f, ui, cm) {
                        assert(in_block(f, hi, of as int));
                        assert(!old(self).alloc_covered(f));
                    }
                }
                assert forall|i: int| #![trigger self.is_free_frame(i)]
                    0 <= i < old(self).n_frames() && !in_block(i, hi, of as int)
                        implies self.is_free_frame(i) == old(self).is_free_frame(i)
                        && self.order_of(i) == old(self).order_of(i) by {
                    if (cm as nat) < of as nat {
                        lemma_pow2_strictly_increases(cm as nat, of as nat);
                    }
                    assert(i != hi && i != ui);
                    assert(s_pre.is_free_frame(i) == old(self).is_free_frame(i));
                    assert(self.is_free_frame(i) == s_pre.is_free_frame(i));
                }
            }
            cur = cur - 1;
        }
        proof {
            if (order as int) < of as int {
                lemma_pow2_strictly_increases(order as nat, of as nat);
            }
            assert forall|f: int| #![trigger in_block(f, hi, order as int)]
                in_block(f, hi, order as int) implies old(self).free_covered(f) && !old(
                self,
            ).alloc_covered(f) by {
                assert(in_block(f, hi, of as int));
            }
        }
        Some(RawPageHandle(h))
    }

    /// Whether the buddy of the allocated block headed by `h` at order `o`
    /// lies in the window and is itself free at the same order.
    fn check_mergeable(&self, h: usize, o: u32) -> (r: bool)
        requires
            self.inv(),
            o <= MAX_ORDER,
            self.allocated().dom().contains(h as int),
            self.allocated()[h as int] == o,
        ensures
            r == self.buddy_mergeable(h as int, o as int),
    {
        proof {
            assert(self.alloc_entry_ok(h as int));
        }
        let size = pow2_usize(o);
        let pfn = self.base_pfn + h;
        if (pfn / size) % 2 == 0 {
            let b = h + size;
            if b + size <= self.pages.len() {
                self.pages[b].free && self.pages[b].order == o
            } else {
                false
            }
        } else {
            proof {
                lemma_mod_double_odd(
                    self.base() + h,
                    pow2(o as nat) as int,
                );
            }
            if h >= size {
                let b = h - size;
                self.pages[b].free && self.pages[b].order == o
            } else {
                proof {
                    assert(self.buddy_of(h as int, o as int) < 0);
                }
                false
            }
        }
    }

    /// Merges the allocated block headed by `h` at order `o` with its free
    /// buddy into one allocated block of order `o + 1`, returning the head
    /// of the merged block (the lower of the two halves).
    #[verifier::rlimit(60)]
    fn merge_step(&mut self, h: usize, o: u32) -> (m: usize)
        requires
            old(self).inv(),
            o < MAX_ORDER,
            old(self).allocated().dom().contains(h as int),
            old(self).allocated()[h as int] == o,
            old(self).refcount_of(h as int) == 0,
            old(self).buddy_mergeable(h as int, o as int),
        ensures
            final(self).inv(),
            final(self).base() == old(self).base(),
            final(self).n_frames() == old(self).n_frames(),
            final(self).is_registered() == old(self).is_registered(),
            m as int == if old(self).buddy_of(h as int, o as int) < h as int {
                old(self).buddy_of(h as int, o as int)
            } else {
                h as int
            },
            m as int <= h as int,
            h + pow2(o as nat) <= m + pow2((o + 1) as nat),
            m + pow2((o + 1) as nat) <= old(self).n_frames(),
            (old(self).base() + m) % (pow2((o + 1) as nat) as int) == 0,
            final(self).allocated() == old(self).allocated().remove(h as int).insert(
                m as int,
                o as int + 1,
            ),
            !final(self).is_free_frame(m as int),
            final(self).order_of(m as int) == o + 1,
            final(self).refcount_of(m as int) == 0,
            final(self).lists() == old(self).lists().update(
                o as int,
                old(self).lists()[o as int].remove_value(
                    ((old(self).buddy_of(h as int, o as int)) as usize),
                ),
            ),
            forall|i: int|
                0 <= i < old(self).n_frames() && !in_block(i, m as int, o as int + 1)
                    ==> #[trigger] final(self).is_free_frame(i) == old(self).is_free_frame(i)
                    && final(self).order_of(i) == old(self).order_of(i),
            forall|f: int| #![trigger final(self).free_covered(f)]
                final(self).free_covered(f) == (old(self).free_covered(f) && !in_block(
                    f,
                    old(self).buddy_of(h as int, o as int),
                    o as int,
                )),
            forall|f: int| #![trigger final(self).alloc_covered(f)]
                final(self).alloc_covered(f) == (old(self).alloc_covered(f) || in_block(
                    f,
                    old(self).buddy_of(h as int, o as int),
                    o as int,
                )),
    {
        let ghost s0 = *self;
        proof {
            assert(s0.alloc_entry_ok(h as int));
            lemma_pow2_adds(o as nat, 1);
            lemma2_to64();
            assert(pow2((o + 1) as nat) == 2 * pow2(o as nat));
        }
        let size = pow2_usize(o);
        let pfn = self.base_pfn + h;
        let b: usize;
        let m: usize;
        if (pfn / size) % 2 == 0 {
            b = h + size;
            m = h;
            proof {
                lemma_mod_double(s0.base() + h, pow2(o as nat) as int);
            }
        } else {
            proof {
                lemma_mod_double_odd(s0.base() + h, pow2(o as nat) as int);
            }
            b = h - size;
            m = b;
        }
        let ghost bi = b as int;
        let ghost mi = m as int;
        let ghost hi = h as int;
        let ghost oo = o as int;
        proof {
            assert(bi == s0.buddy_of(hi, oo));
            assert(!s0.allocated@.dom().contains(bi)) by {
                if s0.allocated@.dom().contains(bi) {
                    assert(s0.alloc_entry_ok(bi));
                }
            }
            assert(s0.pages@[bi].free && s0.pages@[bi].order == o);
            assert(s0.pages@[bi].refcount == 0) by {
                if s0.pages@[bi].refcount != 0 {
                    assert(s0.allocated@.dom().contains(bi));
                }
            }
            // b sits somewhere on the free list of order o
            assert(exists|j: int|
                0 <= j < s0.lists()[oo].len() && (#[trigger] s0.lists()[oo][j]) == bi);
        }
        // find and remove the buddy from its free list
        let mut j: usize = 0;
        let n_list = self.free_lists[o as usize].len();
        proof {
            assert(self.lists()[oo] == self.free_lists@[oo]@);
        }
        while j < n_list && self.free_lists[o as usize][j] != b
            invariant
                *self == s0,
                s0.inv(),
                oo == o as int,
                0 <= oo < NUM_ORDERS,
                self.free_lists@.len() == NUM_ORDERS,
                n_list == self.free_lists@[oo]@.len(),
                n_list == s0.lists()[oo].len(),
                j <= n_list,
                forall|k: int| 0 <= k < j ==> s0.lists()[oo][k] != bi,
                exists|k: int| 0 <= k < s0.lists()[oo].len() && (#[trigger] s0.lists()[oo][k]) == bi,
                bi == b as int,
            decreases n_list - j,
        {
            proof {
                assert(self.lists()[oo] == self.free_lists@[oo]@);
            }
            j = j + 1;
        }
        proof {
            assert(j < n_list && s0.lists()[oo][j as int] == bi) by {
                if j == n_list {
                    let k = choose|k: int|
                        0 <= k < s0.lists()[oo].len() && (#[trigger] s0.lists()[oo][k]) == bi;
                    assert(false);
                }
            }
        }
        let _removed = self.free_lists[o as usize].remove(j);
        let mut brec = self.pages[b];
        brec.free = false;
        brec.buddy = m != b;
        self.pages[b] = brec;
        let mut mrec = self.pages[m];
        mrec.free = false;
        mrec.buddy = false;
        mrec.order = o + 1;
        self.pages[m] = mrec;
        self.allocated = Ghost(self.allocated@.remove(h as int).insert(m as int, o as int + 1));
        proof {
            let s1 = *self;
            let ji = j as int;
            let om = oo + 1;
            assert(s1.lists() =~= s0.lists().update(oo, s0.lists()[oo].remove(ji)));
            assert(s0.lists()[oo][ji] == bi);
            // the scan stopped at the first occurrence, which is the only
            // one: the free lists carry no duplicates
            assert(s0.lists()[oo].remove(ji) == s0.lists()[oo].remove_value(b)) by {
                s0.lists()[oo].index_of_first_ensures(b);
                assert(s0.lists()[oo].contains(b)) by {
                    assert(s0.lists()[oo][ji] == b);
                }
                let fi = s0.lists()[oo].index_of_first(b).unwrap();
                assert(s0.lists()[oo][fi] == b);
                if fi < ji {
                    assert(s0.lists()[oo][fi] != bi);
                } else if ji < fi {
                    assert(s0.lists()[oo][ji] != b);
                }
            }
            assert(hi + pow2(oo as nat) <= mi + pow2(om as nat));
            assert(mi + pow2(om as nat) <= s0.pages@.len());
            assert((s0.base() + mi) % (pow2(om as nat) as int) == 0);
            // the merged range is the union of the two buddy halves
            assert(in_block(hi, mi, om) && in_block(bi, mi, om));
            assert forall|f: int| in_block(f, mi, om) implies (in_block(f, hi, oo) || in_block(
                f,
                bi,
                oo,
            )) by {}
            // no remaining list entry names b, h, or m
            assert forall|o2: int, jj: int|
                0 <= o2 < NUM_ORDERS && 0 <= jj < s1.lists()[o2].len() implies #[trigger] s1.list_entry_ok(
                o2,
                jj,
            ) by {
                let jj0 = if o2 == oo && jj >= ji {
                    jj + 1
                } else {
                    jj
                };
                assert(s1.lists()[o2][jj] == s0.lists()[o2][jj0]);
                assert(s0.list_entry_ok(o2, jj0));
                let i = s0.lists()[o2][jj0] as int;
                assert(i != hi) by {
                    if i == hi {
                        assert(s0.pages@[hi].free);
                        assert(!s0.pages@[hi].free);
                    }
                }
                assert(i != bi) by {
                    if i == bi {
                        assert(o2 == oo);
                        if jj0 != ji {
                            assert(s0.lists()[oo][jj0] != s0.lists()[oo][ji]);
                        }
                    }
                }
            }
            assert forall|o2: int, jj: int, kk: int|
                0 <= o2 < NUM_ORDERS && 0 <= jj < kk < s1.lists()[o2].len() implies s1.lists()[o2][jj]
                != s1.lists()[o2][kk] by {
                let jj0 = if o2 == oo && jj >= ji {
                    jj + 1
                } else {
                    jj
                };
                let kk0 = if o2 == oo && kk >= ji {
                    kk + 1
                } else {
                    kk
                };
                assert(s1.lists()[o2][jj] == s0.lists()[o2][jj0]);
                assert(s1.lists()[o2][kk] == s0.lists()[o2][kk0]);
            }
            // every remaining free record is still reachable
            assert forall|i: int|
                0 <= i < s1.pages@.len() && (#[trigger] s1.pages@[i]).free implies {
                let o3 = s1.pages@[i].order as int;
                &&& 0 <= o3 < NUM_ORDERS
                &&& exists|jj: int|
                    0 <= jj < s1.lists()[o3].len() && (#[trigger] s1.lists()[o3][jj]) == i
            } by {
                assert(i != bi && i != mi);
                assert(s0.pages@[i].free);
                let o3 = s0.pages@[i].order as int;
                let jj0 = choose|jj: int|
                    0 <= jj < s0.lists()[o3].len() && (#[trigger] s0.lists()[o3][jj]) == i;
                if o3 == oo {
                    assert(jj0 != ji);
                    if jj0 < ji {
                        assert(s1.lists()[o3][jj0] == i);
                    } else {
                        assert(s1.lists()[o3][jj0 - 1] == i);
                    }
                } else {
                    assert(s1.lists()[o3][jj0] == i);
                }
            }
            // a free block in the new state keeps clear of the merged range
            assert forall|f: int|
                0 <= f < s1.pages@.len() && (#[trigger] s1.pages@[f]).free implies (mi + pow2(
                om as nat,
            ) <= f || f + pow2(s1.pages@[f].order as nat) <= mi) by {
                assert(f != bi && f != mi);
                assert(s0.pages@[f].free);
                // disjoint from the h half (allocated) and the b half (free)
                assert(hi + pow2(oo as nat) <= f || f + pow2(s0.pages@[f].order as nat) <= hi);
                if f < bi {
                    assert(f + pow2(s0.pages@[f].order as nat) <= bi);
                } else {
                    assert(bi + pow2(oo as nat) <= f);
                }
            }
            // free blocks stay pairwise disjoint
            assert forall|i1: int, i2: int|
                0 <= i1 < i2 < s1.pages@.len() && (#[trigger] s1.pages@[i1]).free && (
                #[trigger] s1.pages@[i2]).free implies i1 + pow2(s1.pages@[i1].order as nat)
                <= i2 by {
                assert(s0.pages@[i1].free && s0.pages@[i2].free);
            }
            // allocated blocks stay well-formed and disjoint
            assert forall|i: int| #[trigger]
                s1.allocated@.dom().contains(i) implies s1.alloc_entry_ok(i) by {
                if i == mi {
                    assert(s1.pages@[mi] == mrec);
                } else {
                    assert(s0.allocated@.dom().contains(i));
                    assert(s0.alloc_entry_ok(i));
                    assert(i != bi && i != mi);
                }
            }
            assert forall|i1: int, i2: int|
                #![trigger s1.allocated@.dom().contains(i1), s1.allocated@.dom().contains(i2)]
                s1.allocated@.dom().contains(i1) && s1.allocated@.dom().contains(i2) && i1
                < i2 implies i1 + pow2(s1.allocated@[i1] as nat) <= i2 by {
                if i1 == mi {
                    assert(s0.allocated@.dom().contains(i2) && s0.alloc_entry_ok(i2));
                    assert(hi + pow2(oo as nat) <= i2 || i2 + pow2(s0.allocated@[i2] as nat) <= hi);
                    assert(bi + pow2(oo as nat) <= i2 || i2 + pow2(s0.allocated@[i2] as nat) <= bi);
                } else if i2 == mi {
                    assert(s0.allocated@.dom().contains(i1) && s0.alloc_entry_ok(i1));
                    assert(hi + pow2(oo as nat) <= i1 || i1 + pow2(s0.allocated@[i1] as nat) <= hi);
                    assert(bi + pow2(oo as nat) <= i1 || i1 + pow2(s0.allocated@[i1] as nat) <= bi);
                } else {
                    assert(s0.alloc_entry_ok(i1) && s0.alloc_entry_ok(i2));
                }
            }
            assert forall|i: int, f: int|
                #![trigger s1.allocated@.dom().contains(i), s1.pages@[f]]
                s1.allocated@.dom().contains(i) && 0 <= f < s1.pages@.len()
                    && s1.pages@[f].free implies (i + pow2(s1.allocated@[i] as nat) <= f || f
                + pow2(s1.pages@[f].order as nat) <= i) by {
                assert(f != bi && f != mi);
                assert(s0.pages@[f].free);
                if i == mi {
                    assert(mi + pow2(om as nat) <= f || f + pow2(s1.pages@[f].order as nat) <= mi);
                } else {
                    assert(s0.allocated@.dom().contains(i) && s0.alloc_entry_ok(i));
                }
            }
            // coverage bookkeeping
            assert forall|f: int| #![trigger s1.free_covered(f)]
                s1.free_covered(f) == (s0.free_covered(f) && !in_block(f, bi, oo)) by {
                if s1.free_covered(f) {
                    let i = choose|i: int|
                        0 <= i < s1.pages@.len() && (#[trigger] s1.pages@[i]).free && in_block(
                            f,
                            i,
                            s1.pages@[i].order as int,
                        );
                    assert(i != bi && i != mi);
                    assert(s0.pages@[i].free && in_block(f, i, s0.pages@[i].order as int));
                    assert(s0.free_covered(f));
                    if in_block(f, bi, oo) {
                        assert(s0.pages@[bi].free);
                        if i < bi {
                            assert(i + pow2(s0.pages@[i].order as nat) <= bi);
                        } else {
                            assert(bi + pow2(s0.pages@[bi].order as nat) <= i);
                        }
                        assert(false);
                    }
                }
                if s0.free_covered(f) && !in_block(f, bi, oo) {
                    let i = choose|i: int|
                        0 <= i < s0.pages@.len() && (#[trigger] s0.pages@[i]).free && in_block(
                            f,
                            i,
                            s0.pages@[i].order as int,
                        );
                    assert(i != hi) by {
                        if i == hi {
                            assert(s0.pages@[hi].free);
                            assert(!s0.pages@[hi].free);
                        }
                    }
                    if i == bi {
                        assert(in_block(f, bi, oo));
                        assert(false);
                    }
                    assert(i != mi);
                    assert(s1.pages@[i].free && in_block(f, i, s1.pages@[i].order as int));
                    assert(s1.free_covered(f));
                }
            }
            assert forall|f: int| #![trigger s1.alloc_covered(f)]
                s1.alloc_covered(f) == (s0.alloc_covered(f) || in_block(f, bi, oo)) by {
                if s1.alloc_covered(f) {
                    let i = choose|i: int|
                        #![trigger s1.allocated().dom().contains(i)]
                        s1.allocated().dom().contains(i) && in_block(f, i, s1.allocated()[i]);
                    if i == mi {
                        assert(in_block(f, hi, oo) || in_block(f, bi, oo));
                        if in_block(f, hi, oo) {
                            assert(s0.allocated().dom().contains(hi) && in_block(
                                f,
                                hi,
                                s0.allocated()[hi],
                            ));
                            assert(s0.alloc_covered(f));
                        }
                    } else {
                        assert(s0.allocated().dom().contains(i) && in_block(
                            f,
                            i,
                            s0.allocated()[i],
                        ));
                        assert(s0.alloc_covered(f));
                    }
                }
                if s0.alloc_covered(f) {
                    let i = choose|i: int|
                        #![trigger s0.allocated().dom().contains(i)]
                        s0.allocated().dom().contains(i) && in_block(f, i, s0.allocated()[i]);
                    assert(i != bi);
                    if i == hi {
                        assert(in_block(f, mi, om));
                        assert(s1.allocated().dom().contains(mi) && in_block(
                            f,
                            mi,
                            s1.allocated()[mi],
                        ));
                    } else {
                        assert(i != mi);
                        assert(s1.allocated().dom().contains(i) && in_block(
                            f,
                            i,
                            s1.allocated()[i],
                        ));
                    }
                    assert(s1.alloc_covered(f));
                }
                if in_block(f, bi, oo) {
                    assert(in_block(f, mi, om));
                    assert(s1.allocated().dom().contains(mi) && in_block(
                        f,
                        mi,
                        s1.allocated()[mi],
                    ));
                    assert(s1.alloc_covered(f));
                }
            }
        }
        m
    }

    /// Marks the allocated block headed by `h` at order `o` free and
    /// threads it onto the free list of its order.
    fn release(&mut self, h: usize, o: u32)
        requires
            old(self).inv(),
            o <= MAX_ORDER,
            old(self).allocated().dom().contains(h as int),
            old(self).allocated()[h as int] == o,
            old(self).refcount_of(h as int) == 0,
        ensures
            final(self).inv(),
            final(self).base() == old(self).base(),
            final(self).n_frames() == old(self).n_frames(),
            final(self).is_registered() == old(self).is_registered(),
            final(self).allocated() == old(self).allocated().remove(h as int),
            final(self).is_free_frame(h as int),
            final(self).order_of(h as int) == o,
            final(self).has_free_at(o as int),
            final(self).lists() == old(self).lists().update(
                o as int,
                old(self).lists()[o as int].push(h),
            ),
            forall|i: int| #![trigger final(self).is_free_frame(i)]
                0 <= i < old(self).n_frames() && !in_block(i, h as int, o as int)
                    ==> final(self).is_free_frame(i) == old(self).is_free_frame(i)
                    && final(self).order_of(i) == old(self).order_of(i),
            forall|f: int| #![trigger final(self).free_covered(f)]
                final(self).free_covered(f) == (old(self).free_covered(f) || in_block(
                    f,
                    h as int,
                    o as int,
                )),
            forall|f: int| #![trigger final(self).alloc_covered(f)]
                final(self).alloc_covered(f) == (old(self).alloc_covered(f) && !in_block(
                    f,
                    h as int,
                    o as int,
                )),
    {
        let ghost s0 = *self;
        proof {
            assert(s0.alloc_entry_ok(h as int));
        }
        let mut rec = self.pages[h];
        rec.free = true;
        rec.buddy = false;
        self.pages[h] = rec;
        self.free_lists[o as usize].push(h);
        self.allocated = Ghost(self.allocated@.remove(h as int));
        proof {
            let s1 = *self;
            let hi = h as int;
            let oo = o as int;
            let l0 = s0.lists()[oo].len() as int;
            assert(s1.pages@ == s0.pages@.update(hi, rec));
            assert(s1.lists() =~= s0.lists().update(oo, s0.lists()[oo].push(h)));
            assert(s1.lists()[oo][l0] == h);
            // the released block keeps clear of every old free block
            assert forall|f: int|
                0 <= f < s0.pages@.len() && (#[trigger] s0.pages@[f]).free implies (hi + pow2(
                oo as nat,
            ) <= f || f + pow2(s0.pages@[f].order as nat) <= hi) by {
                assert(s0.allocated@.dom().contains(hi));
            }
            // no old list entry names h
            assert forall|o2: int, jj: int|
                0 <= o2 < NUM_ORDERS && 0 <= jj < s0.lists()[o2].len() implies s0.lists()[o2][jj]
                != h by {
                assert(s0.list_entry_ok(o2, jj));
                if s0.lists()[o2][jj] == h {
                    assert(s0.pages@[hi].free);
                    assert(!s0.pages@[hi].free);
                }
            }
            assert forall|o2: int, jj: int|
                0 <= o2 < NUM_ORDERS && 0 <= jj < s1.lists()[o2].len() implies #[trigger] s1.list_entry_ok(
                o2,
                jj,
            ) by {
                if o2 == oo && jj == l0 {
                    assert(s1.pages@[hi] == rec);
                } else {
                    assert(s1.lists()[o2][jj] == s0.lists()[o2][jj]);
                    assert(s0.list_entry_ok(o2, jj));
                }
            }
            assert forall|o2: int, jj: int, kk: int|
                0 <= o2 < NUM_ORDERS && 0 <= jj < kk < s1.lists()[o2].len() implies s1.lists()[o2][jj]
                != s1.lists()[o2][kk] by {
                assert(s1.lists()[o2][jj] == s0.lists()[o2][jj]);
                if o2 == oo && kk == l0 {
                    assert(s0.lists()[o2][jj] != h);
                } else {
                    assert(s1.lists()[o2][kk] == s0.lists()[o2][kk]);
                }
            }
            assert forall|i: int|
                0 <= i < s1.pages@.len() && (#[trigger] s1.pages@[i]).free implies {
                let o3 = s1.pages@[i].order as int;
                &&& 0 <= o3 < NUM_ORDERS
                &&& exists|jj: int|
                    0 <= jj < s1.lists()[o3].len() && (#[trigger] s1.lists()[o3][jj]) == i
            } by {
                if i == hi {
                    assert(s1.lists()[oo][l0] == i);
                } else {
                    assert(s0.pages@[i].free);
                    let o3 = s0.pages@[i].order as int;
                    let jj = choose|jj: int|
                        0 <= jj < s0.lists()[o3].len() && (#[trigger] s0.lists()[o3][jj]) == i;
                    assert(s1.lists()[o3][jj] == i);
                }
            }
            assert forall|i1: int, i2: int|
                0 <= i1 < i2 < s1.pages@.len() && (#[trigger] s1.pages@[i1]).free && (
                #[trigger] s1.pages@[i2]).free implies i1 + pow2(s1.pages@[i1].order as nat)
                <= i2 by {
                if i1 == hi {
                    assert(s0.pages@[i2].free);
                } else if i2 == hi {
                    assert(s0.pages@[i1].free);
                } else {
                    assert(s0.pages@[i1].free && s0.pages@[i2].free);
                }
            }
            assert forall|i: int| #[trigger]
                s1.allocated@.dom().contains(i) implies s1.alloc_entry_ok(i) by {
                assert(s0.allocated@.dom().contains(i));
                assert(s0.alloc_entry_ok(i));
                assert(i != hi);
            }
            assert forall|i1: int, i2: int|
                #![trigger s1.allocated@.dom().contains(i1), s1.allocated@.dom().contains(i2)]
                s1.allocated@.dom().contains(i1) && s1.allocated@.dom().contains(i2) && i1
                < i2 implies i1 + pow2(s1.allocated@[i1] as nat) <= i2 by {
                assert(s0.alloc_entry_ok(i1) && s0.alloc_entry_ok(i2));
            }
            assert forall|i: int, f: int|
                #![trigger s1.allocated@.dom().contains(i), s1.pages@[f]]
                s1.allocated@.dom().contains(i) && 0 <= f < s1.pages@.len()
                    && s1.pages@[f].free implies (i + pow2(s1.allocated@[i] as nat) <= f || f
                + pow2(s1.pages@[f].order as nat) <= i) by {
                assert(s0.allocated@.dom().contains(i) && s0.alloc_entry_ok(i));
                assert(i != hi);
                if f == hi {
                    assert(i + pow2(s0.allocated@[i] as nat) <= hi || hi + pow2(oo as nat) <= i);
                } else {
                    assert(s0.pages@[f].free);
                }
            }
            assert forall|f: int| #![trigger s1.free_covered(f)]
                s1.free_covered(f) == (s0.free_covered(f) || in_block(f, hi, oo)) by {
                if s1.free_covered(f) {
                    let i = choose|i: int|
                        0 <= i < s1.pages@.len() && (#[trigger] s1.pages@[i]).free && in_block(
                            f,
                            i,
                            s1.pages@[i].order as int,
                        );
                    if i != hi {
                        assert(s0.pages@[i].free && in_block(f, i, s0.pages@[i].order as int));
                        assert(s0.free_covered(f));
                    }
                }
                if s0.free_covered(f) {
                    let i = choose|i: int|
                        0 <= i < s0.pages@.len() && (#[trigger] s0.pages@[i]).free && in_block(
                            f,
                            i,
                            s0.pages@[i].order as int,
                        );
                    assert(i != hi);
                    assert(s1.pages@[i].free && in_block(f, i, s1.pages@[i].order as int));
                    assert(s1.free_covered(f));
                }
                if in_block(f, hi, oo) {
                    assert(s1.pages@[hi].free && in_block(f, hi, s1.pages@[hi].order as int));
                    assert(s1.free_covered(f));
                }
            }
            assert forall|f: int| #![trigger s1.alloc_covered(f)]
                s1.alloc_covered(f) == (s0.alloc_covered(f) && !in_block(f, hi, oo)) by {
                if s1.alloc_covered(f) {
                    let i = choose|i: int|
                        #![trigger s1.allocated().dom().contains(i)]
                        s1.allocated().dom().contains(i) && in_block(f, i, s1.allocated()[i]);
                    assert(i != hi);
                    assert(s0.allocated().dom().contains(i) && in_block(f, i, s0.allocated()[i]));
                    assert(s0.alloc_covered(f));
                    if in_block(f, hi, oo) {
                        assert(s0.alloc_entry_ok(i));
                        assert(i + pow2(s0.allocated@[i] as nat) <= hi || hi + pow2(oo as nat)
                            <= i);
                        assert(false);
                    }
                }
                if s0.alloc_covered(f) && !in_block(f, hi, oo) {
                    let i = choose|i: int|
                        #![trigger s0.allocated().dom().contains(i)]
                        s0.allocated().dom().contains(i) && in_block(f, i, s0.allocated()[i]);
                    assert(i != hi) by {
                        if i == hi {
                            assert(in_block(f, hi, oo));
                        }
                    }
                    assert(s1.allocated().dom().contains(i) && in_block(f, i, s1.allocated()[i]));
                    assert(s1.alloc_covered(f));
                }
            }
        }
    }

    /// Writes the reference count of the outstanding block headed by the
    /// handle's frame. Everything else — the free lists, the outstanding
    /// blocks, every other record — stays exactly as it was.
    fn set_refcount(&mut self, h: RawPageHandle, v: usize)
        requires
            old(self).inv(),
            old(self).allocated().dom().contains(h.0 as int),
        ensures
            final(self).inv(),
            final(self).base() == old(self).base(),
            final(self).n_frames() == old(self).n_frames(),
            final(self).is_registered() == old(self).is_registered(),
            final(self).allocated() == old(self).allocated(),
            final(self).lists() == old(self).lists(),
            final(self).refcount_of(h.0 as int) == v,
            forall|i: int| #![trigger final(self).refcount_of(i)]
                0 <= i < old(self).n_frames() && i != h.0 ==> final(self).refcount_of(i) == old(
                    self,
                ).refcount_of(i),
            forall|i: int| #![trigger final(self).is_free_frame(i)]
                0 <= i < old(self).n_frames() ==> final(self).is_free_frame(i) == old(
                    self,
                ).is_free_frame(i) && final(self).order_of(i) == old(self).order_of(i),
            forall|f: int| #![trigger final(self).free_covered(f)]
                final(self).free_covered(f) == old(self).free_covered(f),
            forall|f: int| #![trigger final(self).alloc_covered(f)]
                final(self).alloc_covered(f) == old(self).alloc_covered(f),
    {
        let ghost s0 = *self;
        proof {
            assert(s0.alloc_entry_ok(h.0 as int));
        }
        let mut rec = self.pages[h.0];
        rec.refcount = v;
        self.pages[h.0] = rec;
        proof {
            let s1 = *self;
            let hi = h.0 as int;
            assert(s1.pages@ == s0.pages@.update(hi, rec));
            assert(s1.lists() =~= s0.lists());
            assert forall|o2: int, j: int|
                0 <= o2 < NUM_ORDERS && 0 <= j < s1.lists()[o2].len() implies #[trigger] s1.list_entry_ok(
                o2,
                j,
            ) by {
                assert(s0.list_entry_ok(o2, j));
                let i = s1.lists()[o2][j] as int;
                assert(i != hi) by {
                    if i == hi {
                        assert(s0.pages@[hi].free);
                        assert(!s0.pages@[hi].free);
                    }
                }
            }
            assert forall|i: int|
                0 <= i < s1.pages@.len() && (#[trigger] s1.pages@[i]).free implies {
                let o3 = s1.pages@[i].order as int;
                &&& 0 <= o3 < NUM_ORDERS
                &&& exists|j: int| 0 <= j < s1.lists()[o3].len() && (#[trigger] s1.lists()[o3][j]) == i
            } by {
                assert(i != hi);
                assert(s0.pages@[i].free);
                let o3 = s0.pages@[i].order as int;
                let j = choose|j: int|
                    0 <= j < s0.lists()[o3].len() && (#[trigger] s0.lists()[o3][j]) == i;
                assert(s1.lists()[o3][j] == i);
            }
            assert forall|i1: int, i2: int|
                0 <= i1 < i2 < s1.pages@.len() && (#[trigger] s1.pages@[i1]).free && (
                #[trigger] s1.pages@[i2]).free implies i1 + pow2(s1.pages@[i1].order as nat)
                <= i2 by {
                assert(s0.pages@[i1].free && s0.pages@[i2].free);
                assert(s0.pages@[i1].order == s1.pages@[i1].order);
            }
            assert forall|i: int| #[trigger]
                s1.allocated@.dom().contains(i) implies s1.alloc_entry_ok(i) by {
                assert(s0.alloc_entry_ok(i));
            }
            assert forall|f: int| #![trigger s1.free_covered(f)]
                s1.free_covered(f) == s0.free_covered(f) by {
                if s1.free_covered(f) {
                    let i = choose|i: int|
                        0 <= i < s1.pages@.len() && (#[trigger] s1.pages@[i]).free && in_block(
                            f,
                            i,
                            s1.pages@[i].order as int,
                        );
                    assert(s0.pages@[i].free && in_block(f, i, s0.pages@[i].order as int));
                    assert(s0.free_covered(f));
                }
                if s0.free_covered(f) {
                    let i = choose|i: int|
                        0 <= i < s0.pages@.len() && (#[trigger] s0.pages@[i]).free && in_block(
                            f,
                            i,
                            s0.pages@[i].order as int,
                        );
                    assert(s1.pages@[i].free && in_block(f, i, s1.pages@[i].order as int));
                    assert(s1.free_covered(f));
                }
            }
            assert forall|f: int| #![trigger s1.alloc_covered(f)]
                s1.alloc_covered(f) == s0.alloc_covered(f) by {
                if s1.alloc_covered(f) {
                    let i = choose|i: int|
                        #![trigger s1.allocated().dom().contains(i)]
                        s1.allocated().dom().contains(i) && in_block(f, i, s1.allocated()[i]);
                    assert(s0.allocated().dom().contains(i) && in_block(f, i, s0.allocated()[i]));
                    assert(s0.alloc_covered(f));
                }
                if s0.alloc_covered(f) {
                    let i = choose|i: int|
                        #![trigger s0.allocated().dom().contains(i)]
                        s0.allocated().dom().contains(i) && in_block(f, i, s0.allocated()[i]);
                    assert(s1.allocated().dom().contains(i) && in_block(f, i, s1.allocated()[i]));
                    assert(s1.alloc_covered(f));
                }
            }
        }
    }

    /// Takes one reference on the outstanding block headed by the
    /// handle's frame, as an owner sharing the block does. The count lives
    /// with the caller's ownership protocol; nothing else changes.
    pub fn inc_refcount(&mut self, h: RawPageHandle)
        requires
            old(self).inv(),
            old(self).allocated().dom().contains(h.0 as int),
            old(self).refcount_of(h.0 as int) < usize::MAX,
        ensures
            final(self).inv(),
            final(self).base() == old(self).base(),
            final(self).n_frames() == old(self).n_frames(),
            final(self).is_registered() == old(self).is_registered(),
            final(self).allocated() == old(self).allocated(),
            final(self).lists() == old(self).lists(),
            final(self).refcount_of(h.0 as int) == old(self).refcount_of(h.0 as int) + 1,
            forall|i: int| #![trigger final(self).refcount_of(i)]
                0 <= i < old(self).n_frames() && i != h.0 ==> final(self).refcount_of(i) == old(
                    self,
                ).refcount_of(i),
            forall|f: int| #![trigger final(self).free_covered(f)]
                final(self).free_covered(f) == old(self).free_covered(f),
            forall|f: int| #![trigger final(self).alloc_covered(f)]
                final(self).alloc_covered(f) == old(self).alloc_covered(f),
    {
        proof {
            assert(self.alloc_entry_ok(h.0 as int));
        }
        let c = self.pages[h.0].refcount;
        self.set_refcount(h, c + 1);
    }

    /// Releases one reference on the outstanding block headed by the
    /// handle's frame. Only once the count is back to zero may the block
    /// be deallocated.
    pub fn dec_refcount(&mut self, h: RawPageHandle)
        requires
            old(self).inv(),
            old(self).allocated().dom().contains(h.0 as int),
            old(self).refcount_of(h.0 as int) > 0,
        ensures
            final(self).inv(),
            final(self).base() == old(self).base(),
            final(self).n_frames() == old(self).n_frames(),
            final(self).is_registered() == old(self).is_registered(),
            final(self).allocated() == old(self).allocated(),
            final(self).lists() == old(self).lists(),
            final(self).refcount_of(h.0 as int) == old(self).refcount_of(h.0 as int) - 1,
            forall|i: int| #![trigger final(self).refcount_of(i)]
                0 <= i < old(self).n_frames() && i != h.0 ==> final(self).refcount_of(i) == old(
                    self,
                ).refcount_of(i),
            forall|f: int| #![trigger final(self).free_covered(f)]
                final(self).free_covered(f) == old(self).free_covered(f),
            forall|f: int| #![trigger final(self).alloc_covered(f)]
                final(self).alloc_covered(f) == old(self).alloc_covered(f),
    {
        proof {
            assert(self.alloc_entry_ok(h.0 as int));
        }
        let c = self.pages[h.0].refcount;
        self.set_refcount(h, c - 1);
    }

    /// A frame covered by a free block witnesses that some free list is
    /// non-empty, so an allocation is owed to succeed at order zero.
    pub proof fn lemma_covered_implies_available(self, f: int)
        requires
            self.inv(),
            self.free_covered(f),
        ensures
            self.has_free_at_or_above(0),
    {
        let i = choose|i: int|
            0 <= i < self.pages@.len() && (#[trigger] self.pages@[i]).free && in_block(
                f,
                i,
                self.pages@[i].order as int,
            );
        let o3 = self.pages@[i].order as int;
        let j = choose|j: int|
            0 <= j < self.lists()[o3].len() && (#[trigger] self.lists()[o3][j]) == i;
        assert(self.has_free_at(o3));
        assert(self.has_free_at_or_above(0));
    }

    /// No frame is covered by a free block and an allocated block at once.
    pub proof fn lemma_cover_disjoint(self, f: int)
        requires
            self.inv(),
        ensures
            !(self.free_covered(f) && self.alloc_covered(f)),
    {
        if self.free_covered(f) && self.alloc_covered(f) {
            let i = choose|i: int|
                0 <= i < self.pages@.len() && (#[trigger] self.pages@[i]).free && in_block(
                    f,
                    i,
                    self.pages@[i].order as int,
                );
            let k = choose|k: int|
                #![trigger self.allocated().dom().contains(k)]
                self.allocated().dom().contains(k) && in_block(f, k, self.allocated()[k]);
            assert(self.alloc_entry_ok(k));
            assert(k + pow2(self.allocated@[k] as nat) <= i || i + pow2(
                self.pages@[i].order as nat,
            ) <= k);
            assert(false);
        }
    }

    /// Returns the block headed by the handle's frame to the free lists and
    /// coalesces it with its buddy as long as the buddy is itself a free
    /// block of equal order, up to the maximal representable order. The
    /// handle must name a block previously returned by `alloc_order` and
    /// not yet deallocated: a double free or a foreign handle violates the
    /// precondition and is not a representable state.
    #[verifier::rlimit(80)]
    pub fn dealloc(&mut self, h: RawPageHandle)
        requires
            old(self).inv(),
            old(self).allocated().dom().contains(h.0 as int),
            old(self).refcount_of(h.0 as int) == 0,
        ensures
            final(self).inv(),
            final(self).base() == old(self).base(),
            final(self).n_frames() == old(self).n_frames(),
            final(self).is_registered() == old(self).is_registered(),
            final(self).allocated() == old(self).allocated().remove(h.0 as int),
            forall|f: int| #![trigger final(self).free_covered(f)]
                final(self).free_covered(f) == (old(self).free_covered(f) || in_block(
                    f,
                    h.0 as int,
                    old(self).allocated()[h.0 as int],
                )),
            forall|f: int| #![trigger final(self).alloc_covered(f)]
                final(self).alloc_covered(f) == (old(self).alloc_covered(f) && !in_block(
                    f,
                    h.0 as int,
                    old(self).allocated()[h.0 as int],
                )),
            exists|hf: int, of: int| #[trigger]
                freed_block_ok(*old(self), *final(self), h.0 as int, hf, of),
            final(self).lists() == coalesce_lists(
                *old(self),
                old(self).lists(),
                h.0 as int,
                old(self).allocated()[h.0 as int],
            ),
    {
        let ghost s0 = *self;
        let ghost h0 = h.0 as int;
        let ghost o0 = s0.allocated()[h0];
        proof {
            assert(s0.alloc_entry_ok(h0));
            assert(s0.allocated().remove(h0).insert(h0, o0) =~= s0.allocated());
        }
        let mut cur: usize = h.0;
        let mut o: u32 = self.pages[h.0].order;
        while o < MAX_ORDER && self.check_mergeable(cur, o)
            invariant
                self.inv(),
                self.base() == old(self).base(),
                self.n_frames() == old(self).n_frames(),
                self.is_registered() == old(self).is_registered(),
                h0 == h.0 as int,
                old(self).inv(),
                old(self).allocated().dom().contains(h0),
                o0 == old(self).allocated()[h0],
                0 <= o0 <= MAX_ORDER,
                o0 <= o <= MAX_ORDER,
                cur as int <= h0,
                in_block(h0, cur as int, o as int),
                h0 + pow2(o0 as nat) <= cur + pow2(o as nat),
                cur + pow2(o as nat) <= old(self).n_frames(),
                (old(self).base() + cur) % (pow2(o as nat) as int) == 0,
                cur as int == h0 || !old(self).allocated().dom().contains(cur as int),
                self.refcount_of(cur as int) == 0,
                self.allocated() == old(self).allocated().remove(h0).insert(
                    cur as int,
                    o as int,
                ),
                (o == o0 && cur as int == h0) || o > o0,
                o == o0 ==> *self == *old(self),
                o > o0 ==> (o0 < MAX_ORDER && old(self).buddy_mergeable(h0, o0)),
                forall|f: int| #![trigger self.free_covered(f)]
                    self.free_covered(f) == (old(self).free_covered(f) && !in_block(
                        f,
                        cur as int,
                        o as int,
                    )),
                forall|f: int| #![trigger self.alloc_covered(f)]
                    self.alloc_covered(f) == ((old(self).alloc_covered(f) && !in_block(
                        f,
                        h0,
                        o0,
                    )) || in_block(f, cur as int, o as int)),
                forall|f: int| #![trigger in_block(f, cur as int, o as int)]
                    in_block(f, cur as int, o as int) && !in_block(f, h0, o0) ==> old(
                        self,
                    ).free_covered(f),
                forall|i: int| #![trigger self.is_free_frame(i)]
                    0 <= i < old(self).n_frames() && !in_block(i, cur as int, o as int)
                        ==> self.is_free_frame(i) == old(self).is_free_frame(i) && self.order_of(i)
                        == old(self).order_of(i),
                coalesce_lists(*old(self), old(self).lists(), h0, o0) == coalesce_lists(
                    *old(self),
                    self.lists(),
                    cur as int,
                    o as int,
                ),
            decreases MAX_ORDER - o,
        {
            let ghost s_pre = *self;
            let ghost ci = cur as int;
            let ghost oo = o as int;
            let ghost bi = s_pre.buddy_of(ci, oo);
            proof {
                lemma_pow2_adds(oo as nat, 1);
                lemma2_to64();
                assert(pow2((oo + 1) as nat) == 2 * pow2(oo as nat));
            }
            let m = self.merge_step(cur, o);
            proof {
                let mi = m as int;
                let om = oo + 1;
                // the merged range is exactly the union of the two halves
                assert(mi == ci || mi == bi);
                assert(bi == ci + pow2(oo as nat) || bi == ci - pow2(oo as nat));
                assert forall|f: int|
                    in_block(f, mi, om) == (in_block(f, ci, oo) || in_block(f, bi, oo)) by {}
                // the ghost allocation map collapses to one insertion
                assert(old(self).allocated().remove(h0).insert(ci, oo).remove(ci).insert(mi, om)
                    =~= old(self).allocated().remove(h0).insert(mi, om));
                // the merged head was never part of the pre-deallocation map
                assert(mi == h0 || !old(self).allocated().dom().contains(mi)) by {
                    if mi == bi {
                        assert(!s_pre.allocated().dom().contains(bi)) by {
                            if s_pre.allocated().dom().contains(bi) {
                                assert(s_pre.alloc_entry_ok(bi));
                                assert(!s_pre.pages@[bi].free);
                            }
                        }
                        if old(self).allocated().dom().contains(bi) && bi != h0 {
                            assert(s_pre.allocated().dom().contains(bi));
                        }
                        assert(in_block(h0, ci, oo));
                        assert(bi != h0);
                    }
                }
                assert forall|f: int| #![trigger self.free_covered(f)]
                    self.free_covered(f) == (old(self).free_covered(f) && !in_block(
                        f,
                        mi,
                        om,
                    )) by {
                    assert(self.free_covered(f) == (s_pre.free_covered(f) && !in_block(
                        f,
                        bi,
                        oo,
                    )));
                    assert(s_pre.free_covered(f) == (old(self).free_covered(f) && !in_block(
                        f,
                        ci,
                        oo,
                    )));
                    assert(in_block(f, mi, om) == (in_block(f, ci, oo) || in_block(f, bi, oo)));
                }
                assert forall|f: int| #![trigger self.alloc_covered(f)]
                    self.alloc_covered(f) == ((old(self).alloc_covered(f) && !in_block(
                        f,
                        h0,
                        o0,
                    )) || in_block(f, mi, om)) by {
                    assert(self.alloc_covered(f) == (s_pre.alloc_covered(f) || in_block(
                        f,
                        bi,
                        oo,
                    )));
                    assert(s_pre.alloc_covered(f) == ((old(self).alloc_covered(f) && !in_block(
                        f,
                        h0,
                        o0,
                    )) || in_block(f, ci, oo)));
                    assert(in_block(f, mi, om) == (in_block(f, ci, oo) || in_block(f, bi, oo)));
                }
                assert forall|f: int| #![trigger in_block(f, mi, om)]
                    in_block(f, mi, om) && !in_block(f, h0, o0) implies old(
                    self,
                ).free_covered(f) by {
                    if in_block(f, ci, oo) {
                        assert(in_block(f, ci, oo) && !in_block(f, h0, o0));
                    } else {
                        assert(in_block(f, bi, oo));
                        assert(s_pre.is_free_frame(bi) && s_pre.order_of(bi) == oo);
                        assert(s_pre.pages@[bi].free && in_block(f, bi, s_pre.pages@[bi].order as int));
                        assert(s_pre.free_covered(f));
                        assert(!in_block(f, ci, oo));
                        assert(old(self).free_covered(f));
                    }
                }
                // the records the next steps consult are unchanged
                assert forall|i: int|
                    0 <= i < old(self).n_frames() && !in_block(i, mi, om) implies #[trigger] self.is_free_frame(
                    i,
                ) == old(self).is_free_frame(i) && self.order_of(i) == old(self).order_of(
                    i,
                ) by {
                    assert(!in_block(i, ci, oo));
                    assert(s_pre.is_free_frame(i) == old(self).is_free_frame(i));
                    assert(self.is_free_frame(i) == s_pre.is_free_frame(i));
                }
                // this merge step is the one the pre-deallocation state
                // prescribes
                assert(old(self).buddy_mergeable(ci, oo) == s_pre.buddy_mergeable(ci, oo)) by {
                    let b2 = s_pre.buddy_of(ci, oo);
                    assert(old(self).buddy_of(ci, oo) == b2);
                    if 0 <= b2 && b2 + pow2(oo as nat) <= old(self).n_frames() {
                        assert(!in_block(b2, ci, oo));
                        assert(s_pre.is_free_frame(b2) == old(self).is_free_frame(b2));
                        assert(s_pre.order_of(b2) == old(self).order_of(b2));
                    }
                }
                assert(coalesce_lists(*old(self), s_pre.lists(), ci, oo) == coalesce_lists(
                    *old(self),
                    self.lists(),
                    mi,
                    om,
                ));
            }
            cur = m;
            o = o + 1;
        }
        let ghost s_loop = *self;
        let ghost ci = cur as int;
        let ghost oo = o as int;
        proof {
            // the walk stops here in the pre-deallocation state too
            if oo < MAX_ORDER {
                assert(old(self).buddy_mergeable(ci, oo) == s_loop.buddy_mergeable(ci, oo)) by {
                    let b2 = s_loop.buddy_of(ci, oo);
                    assert(old(self).buddy_of(ci, oo) == b2);
                    if 0 <= b2 && b2 + pow2(oo as nat) <= old(self).n_frames() {
                        assert(!in_block(b2, ci, oo));
                        assert(s_loop.is_free_frame(b2) == old(self).is_free_frame(b2));
                        assert(s_loop.order_of(b2) == old(self).order_of(b2));
                    }
                }
            }
            assert(coalesce_lists(*old(self), s_loop.lists(), ci, oo) == s_loop.lists().update(
                oo,
                s_loop.lists()[oo].push(cur),
            ));
        }
        self.release(cur, o);
        proof {
            let s1 = *self;
            assert(old(self).allocated().remove(h0).insert(ci, oo).remove(ci)
                =~= old(self).allocated().remove(h0));
            assert forall|f: int| #![trigger s1.free_covered(f)]
                s1.free_covered(f) == (old(self).free_covered(f) || in_block(f, h0, o0)) by {
                assert(s1.free_covered(f) == (s_loop.free_covered(f) || in_block(f, ci, oo)));
                assert(s_loop.free_covered(f) == (old(self).free_covered(f) && !in_block(
                    f,
                    ci,
                    oo,
                )));
                if in_block(f, ci, oo) && !in_block(f, h0, o0) {
                    assert(old(self).free_covered(f));
                }
                if in_block(f, h0, o0) {
                    assert(in_block(f, ci, oo));
                }
            }
            assert forall|f: int| #![trigger s1.alloc_covered(f)]
                s1.alloc_covered(f) == (old(self).alloc_covered(f) && !in_block(f, h0, o0)) by {
                assert(s1.alloc_covered(f) == (s_loop.alloc_covered(f) && !in_block(f, ci, oo)));
                assert(s_loop.alloc_covered(f) == ((old(self).alloc_covered(f) && !in_block(
                    f,
                    h0,
                    o0,
                )) || in_block(f, ci, oo)));
                if in_block(f, ci, oo) && !in_block(f, h0, o0) {
                    assert(old(self).free_covered(f));
                    old(self).lemma_cover_disjoint(f);
                }
                if in_block(f, h0, o0) {
                    assert(in_block(f, ci, oo));
                }
            }
            // the released block is the coalescing result
            assert(freed_block_ok(*old(self), s1, h0, ci, oo)) by {
                if o as int == o0 {
                    assert(s_loop == *old(self));
                    assert(!(o0 < MAX_ORDER && old(self).buddy_mergeable(h0, o0)));
                } else {
                    assert(o0 < MAX_ORDER && old(self).buddy_mergeable(h0, o0));
                }
                assert forall|i: int| #![trigger s1.is_free_frame(i)]
                    0 <= i < old(self).n_frames() && !in_block(i, ci, oo) implies s1.is_free_frame(
                    i,
                ) == old(self).is_free_frame(i) && s1.order_of(i) == old(self).order_of(i) by {
                    assert(i != ci);
                    assert(s_loop.is_free_frame(i) == old(self).is_free_frame(i));
                    assert(s1.is_free_frame(i) == s_loop.is_free_frame(i));
                }
            }
        }
    }

    /// Marks the not-yet-free block headed by `cur` as a free block of
    /// order `o`, during the initial seeding of a fresh window. All
    /// existing free blocks must end at or before `cur` and nothing may be
    /// allocated yet.
    fn seed_block(&mut self, cur: usize, o: u32)
        requires
            old(self).inv(),
            old(self).allocated() === Map::<int, int>::empty(),
            o <= MAX_ORDER,
            cur + pow2(o as nat) <= old(self).n_frames(),
            (old(self).base() + cur) % (pow2(o as nat) as int) == 0,
            forall|i: int|
                0 <= i < old(self).n_frames() && old(self).is_free_frame(i) ==> i + pow2(
                    old(self).order_of(i) as nat,
                ) <= cur,
        ensures
            final(self).inv(),
            final(self).base() == old(self).base(),
            final(self).n_frames() == old(self).n_frames(),
            final(self).is_registered() == old(self).is_registered(),
            final(self).allocated() === Map::<int, int>::empty(),
            final(self).lists() == old(self).lists().update(
                o as int,
                old(self).lists()[o as int].push(cur),
            ),
            forall|f: int| #![trigger final(self).free_covered(f)]
                final(self).free_covered(f) == (old(self).free_covered(f) || in_block(
                    f,
                    cur as int,
                    o as int,
                )),
            forall|i: int|
                0 <= i < final(self).n_frames() && final(self).is_free_frame(i) ==> i + pow2(
                    final(self).order_of(i) as nat,
                ) <= cur + pow2(o as nat),
    {
        let ghost s0 = *self;
        proof {
            // the head frame is not free: a free head ends after cur
            if s0.pages@[cur as int].free {
                assert(s0.is_free_frame(cur as int));
                assert(cur as int + pow2(s0.order_of(cur as int) as nat) <= cur);
            }
        }
        let mut rec = self.pages[cur];
        rec.free = true;
        rec.buddy = false;
        rec.order = o;
        self.pages[cur] = rec;
        self.free_lists[o as usize].push(cur);
        proof {
            let s1 = *self;
            let hi = cur as int;
            let oo = o as int;
            let l0 = s0.lists()[oo].len() as int;
            assert(s1.pages@ == s0.pages@.update(hi, rec));
            assert(s1.lists() =~= s0.lists().update(oo, s0.lists()[oo].push(cur)));
            assert(s1.lists()[oo][l0] == cur);
            assert forall|o2: int, jj: int|
                0 <= o2 < NUM_ORDERS && 0 <= jj < s0.lists()[o2].len() implies s0.lists()[o2][jj]
                != cur by {
                assert(s0.list_entry_ok(o2, jj));
                if s0.lists()[o2][jj] == cur {
                    assert(s0.pages@[hi].free);
                    assert(!s0.pages@[hi].free);
                }
            }
            assert forall|o2: int, jj: int|
                0 <= o2 < NUM_ORDERS && 0 <= jj < s1.lists()[o2].len() implies #[trigger] s1.list_entry_ok(
                o2,
                jj,
            ) by {
                if o2 == oo && jj == l0 {
                    assert(s1.pages@[hi] == rec);
                } else {
                    assert(s1.lists()[o2][jj] == s0.lists()[o2][jj]);
                    assert(s0.list_entry_ok(o2, jj));
                }
            }
            assert forall|o2: int, jj: int, kk: int|
                0 <= o2 < NUM_ORDERS && 0 <= jj < kk < s1.lists()[o2].len() implies s1.lists()[o2][jj]
                != s1.lists()[o2][kk] by {
                assert(s1.lists()[o2][jj] == s0.lists()[o2][jj]);
                if o2 == oo && kk == l0 {
                    assert(s0.lists()[o2][jj] != cur);
                } else {
                    assert(s1.lists()[o2][kk] == s0.lists()[o2][kk]);
                }
            }
            assert forall|i: int|
                0 <= i < s1.pages@.len() && (#[trigger] s1.pages@[i]).free implies {
                let o3 = s1.pages@[i].order as int;
                &&& 0 <= o3 < NUM_ORDERS
                &&& exists|jj: int|
                    0 <= jj < s1.lists()[o3].len() && (#[trigger] s1.lists()[o3][jj]) == i
            } by {
                if i == hi {
                    assert(s1.lists()[oo][l0] == i);
                } else {
                    assert(s0.pages@[i].free);
                    let o3 = s0.pages@[i].order as int;
                    let jj = choose|jj: int|
                        0 <= jj < s0.lists()[o3].len() && (#[trigger] s0.lists()[o3][jj]) == i;
                    assert(s1.lists()[o3][jj] == i);
                }
            }
            assert forall|i1: int, i2: int|
                0 <= i1 < i2 < s1.pages@.len() && (#[trigger] s1.pages@[i1]).free && (
                #[trigger] s1.pages@[i2]).free implies i1 + pow2(s1.pages@[i1].order as nat)
                <= i2 by {
                if i2 == hi {
                    assert(s0.pages@[i1].free);
                    assert(s0.is_free_frame(i1));
                    assert(i1 + pow2(s0.order_of(i1) as nat) <= cur as int);
                } else if i1 == hi {
                    assert(s0.pages@[i2].free);
                    assert(s0.is_free_frame(i2));
                    assert(i2 + pow2(s0.order_of(i2) as nat) <= cur as int);
                    assert(false);
                } else {
                    assert(s0.pages@[i1].free && s0.pages@[i2].free);
                }
            }
            assert forall|i: int| #[trigger]
                s1.allocated@.dom().contains(i) implies s1.alloc_entry_ok(i) by {
                assert(false);
            }
            assert forall|f: int| #![trigger s1.free_covered(f)]
                s1.free_covered(f) == (s0.free_covered(f) || in_block(f, hi, oo)) by {
                if s1.free_covered(f) {
                    let i = choose|i: int|
                        0 <= i < s1.pages@.len() && (#[trigger] s1.pages@[i]).free && in_block(
                            f,
                            i,
                            s1.pages@[i].order as int,
                        );
                    if i != hi {
                        assert(s0.pages@[i].free && in_block(f, i, s0.pages@[i].order as int));
                        assert(s0.free_covered(f));
                    }
                }
                if s0.free_covered(f) {
                    let i = choose|i: int|
                        0 <= i < s0.pages@.len() && (#[trigger] s0.pages@[i]).free && in_block(
                            f,
                            i,
                            s0.pages@[i].order as int,
                        );
                    assert(i != hi);
                    assert(s1.pages@[i].free && in_block(f, i, s1.pages@[i].order as int));
                    assert(s1.free_covered(f));
                }
                if in_block(f, hi, oo) {
                    assert(s1.pages@[hi].free && in_block(f, hi, s1.pages@[hi].order as int));
                    assert(s1.free_covered(f));
                }
            }
            assert forall|i: int|
                0 <= i < s1.n_frames() && s1.is_free_frame(i) implies i + pow2(
                s1.order_of(i) as nat,
            ) <= cur + pow2(o as nat) by {
                if i != hi {
                    assert(s0.pages@[i].free);
                    assert(s0.is_free_frame(i));
                    assert(i + pow2(s0.order_of(i) as nat) <= cur as int);
                }
            }
        }
    }

    /// Registers the managed physical window `[start, end)`, both bounds
    /// frame-aligned byte addresses, and seeds every frame of the window as
    /// free at the maximal order that alignment and the window's end allow,
    /// so no region is left unmanaged. Must be called exactly once, on a
    /// fresh allocator, before any allocation.
    pub fn create_pages(&mut self, start: usize, end: usize)
        requires
            old(self).inv(),
            !old(self).is_registered(),
            old(self).n_frames() == 0,
            start % PAGE_SIZE == 0,
            end % PAGE_SIZE == 0,
            start <= end,
            (end - start) / (PAGE_SIZE as int) <= MAX_FRAMES,
            start / PAGE_SIZE + (end - start) / (PAGE_SIZE as int) <= usize::MAX,
        ensures
            final(self).inv(),
            final(self).is_registered(),
            final(self).base() == start as int / PAGE_SIZE as int,
            final(self).n_frames() == (end - start) as int / PAGE_SIZE as int,
            final(self).allocated() === Map::<int, int>::empty(),
            forall|f: int|
                0 <= f < final(self).n_frames() ==> #[trigger] final(self).free_covered(f),
            forall|f: int| !(#[trigger] final(self).alloc_covered(f)),
            final(self).n_frames() > 0 ==> final(self).has_free_at_or_above(0),
            final(self).lists() == seed_fill(
                old(self).lists(),
                start as int / PAGE_SIZE as int,
                (end - start) as int / PAGE_SIZE as int,
                0,
            ),
    {
        let ghost s0 = *self;
        proof {
            // a fresh allocator's free lists and allocation map are empty
            assert forall|o2: int| 0 <= o2 < NUM_ORDERS implies s0.lists()[o2].len() == 0 by {
                if s0.lists()[o2].len() > 0 {
                    assert(s0.list_entry_ok(o2, 0));
                }
            }
            assert forall|i: int| !(#[trigger] s0.allocated@.dom().contains(i)) by {
                if s0.allocated@.dom().contains(i) {
                    assert(s0.alloc_entry_ok(i));
                }
            }
            assert(s0.allocated() =~= Map::<int, int>::empty());
        }
        let n = (end - start) / PAGE_SIZE;
        self.base_pfn = start / PAGE_SIZE;
        self.registered = true;
        let mut k: usize = 0;
        while k < n
            invariant
                k <= n,
                self.pages@.len() == k,
                self.base_pfn == start / PAGE_SIZE,
                self.registered,
                self.free_lists == s0.free_lists,
                self.allocated == s0.allocated,
                forall|i: int| 0 <= i < k ==> !(#[trigger] self.pages@[i]).free,
                forall|i: int| 0 <= i < k ==> (#[trigger] self.pages@[i]).refcount == 0,
            decreases n - k,
        {
            self.pages.push(RawPage::new());
            k = k + 1;
        }
        proof {
            let s2 = *self;
            assert forall|o2: int, j: int|
                0 <= o2 < NUM_ORDERS && 0 <= j < s2.lists()[o2].len() implies #[trigger] s2.list_entry_ok(
                o2,
                j,
            ) by {
                assert(s2.lists()[o2].len() == s0.lists()[o2].len());
            }
            assert(s2.inv());
            assert(s2.lists() =~= s0.lists());
        }
        let ghost b = start as int / PAGE_SIZE as int;
        let ghost nn = (end - start) as int / PAGE_SIZE as int;
        let mut cur: usize = 0;
        while cur < n
            invariant
                self.inv(),
                cur <= n,
                n == self.n_frames(),
                self.base() == start as int / PAGE_SIZE as int,
                self.is_registered(),
                self.base() + n <= usize::MAX,
                self.allocated() === Map::<int, int>::empty(),
                forall|f: int| 0 <= f < cur ==> #[trigger] self.free_covered(f),
                forall|i: int|
                    0 <= i < n && self.is_free_frame(i) ==> i + pow2(self.order_of(i) as nat)
                        <= cur,
                b == start as int / PAGE_SIZE as int,
                nn == n as int,
                self.base() == b,
                seed_fill(s0.lists(), b, nn, 0) == seed_fill(self.lists(), b, nn, cur as int),
            decreases n - cur,
        {
            let mut o: u32 = 0;
            proof {
                lemma2_to64();
            }
            while o < MAX_ORDER && (self.base_pfn + cur) % pow2_usize(o + 1) == 0 && cur
                + pow2_usize(o + 1) <= n
                invariant
                    self.inv(),
                    o <= MAX_ORDER,
                    cur < n <= MAX_FRAMES,
                    n == self.n_frames(),
                    self.base() + n <= usize::MAX,
                    self.base() == b,
                    nn == n as int,
                    (self.base() + cur) % (pow2(o as nat) as int) == 0,
                    cur + pow2(o as nat) <= n,
                    seed_order_rec(b, nn, cur as int, 0) == seed_order_rec(b, nn, cur as int, o as int),
                decreases MAX_ORDER - o,
            {
                proof {
                    assert(seed_order_rec(b, nn, cur as int, o as int) == seed_order_rec(
                        b,
                        nn,
                        cur as int,
                        o as int + 1,
                    ));
                }
                o = o + 1;
            }
            proof {
                assert(seed_order_rec(b, nn, cur as int, o as int) == o as int);
            }
            let size = pow2_usize(o);
            let ghost ls_pre = self.lists();
            self.seed_block(cur, o);
            proof {
                assert forall|f: int| 0 <= f < cur + size implies #[trigger] self.free_covered(
                    f,
                ) by {
                    if f < cur {
                    } else {
                        assert(in_block(f, cur as int, o as int));
                    }
                }
                assert(seed_fill(ls_pre, b, nn, cur as int) == seed_fill(
                    ls_pre.update(o as int, ls_pre[o as int].push(cur)),
                    b,
                    nn,
                    cur as int + pow2(o as nat),
                ));
            }
            cur = cur + size;
        }
        proof {
            let s1 = *self;
            assert(seed_fill(s1.lists(), b, nn, nn) == s1.lists());
            assert(s1.lists() == seed_fill(s0.lists(), b, nn, 0));
            assert forall|f: int| !(#[trigger] s1.alloc_covered(f)) by {
                if s1.alloc_covered(f) {
                    let i = choose|i: int|
                        #![trigger s1.allocated().dom().contains(i)]
                        s1.allocated().dom().contains(i) && in_block(f, i, s1.allocated()[i]);
                }
            }
            if s1.n_frames() > 0 {
                assert(s1.free_covered(0));
                let i = choose|i: int|
                    0 <= i < s1.pages@.len() && (#[trigger] s1.pages@[i]).free && in_block(
                        0,
                        i,
                        s1.pages@[i].order as int,
                    );
                let o3 = s1.pages@[i].order as int;
                let jj = choose|jj: int|
                    0 <= jj < s1.lists()[o3].len() && (#[trigger] s1.lists()[o3][jj]) == i;
                assert(s1.has_free_at(o3));
                assert(s1.has_free_at_or_above(0));
            }
        }
    }
}

/// The free lists part-way through unwinding an allocation that took the
/// last block off the list of order `of` and split it down: the orders
/// below `k` are already restored, the orders in `[k, of)` still carry the
/// split-off upper half of their level, and the list of `of` still misses
/// the block that was taken.
spec fn partially_restored(s0: BuddyAllocator, h: usize, k: int, of: int) -> Seq<Seq<usize>> {
    Seq::new(
        s0.lists().len(),
        |j: int|
            if j == of {
                s0.lists()[of].drop_last()
            } else if k <= j < of {
                s0.lists()[j].push(((h + pow2(j as nat)) as usize))
            } else {
                s0.lists()[j]
            },
    )
}

/// Deallocating the block that an allocation just returned coalesces it
/// with exactly the halves that were split off on the way down, one order
/// at a time, and ends with the free lists as they were before the
/// allocation.
proof fn lemma_coalesce_unwinds(
    s0: BuddyAllocator,
    s1: BuddyAllocator,
    h: usize,
    of: int,
    k: int,
)
    requires
        s0.inv(),
        s1.inv(),
        s1.base() == s0.base(),
        s1.n_frames() == s0.n_frames(),
        0 <= k <= of <= MAX_ORDER,
        s0.lists()[of].len() > 0,
        s0.lists()[of].last() == h,
        of == MAX_ORDER || !s0.buddy_mergeable(h as int, of),
        forall|i: int| #![trigger s1.is_free_frame(i)]
            0 <= i < s0.n_frames() && !in_block(i, h as int, of) ==> s1.is_free_frame(i)
                == s0.is_free_frame(i) && s1.order_of(i) == s0.order_of(i),
        forall|j: int|
            k <= j < of ==> #[trigger] s1.lists()[j] == s0.lists()[j].push(
                ((h + pow2(j as nat)) as usize),
            ),
    ensures
        coalesce_lists(s1, partially_restored(s0, h, k, of), h as int, k) == s0.lists(),
    decreases of - k,
{
    let hi = h as int;
    let n = s0.n_frames();
    let base = s0.base();
    let lof = s0.lists()[of].len() as int;
    assert(s0.list_entry_ok(of, lof - 1));
    assert(s0.pages@[hi].free && s0.pages@[hi].order == of);
    assert((base + hi) % (pow2(of as nat) as int) == 0);
    assert(hi + pow2(of as nat) <= n);
    if k == of {
        if of < MAX_ORDER {
            let b2 = s1.buddy_of(hi, of);
            assert(b2 == s0.buddy_of(hi, of));
            assert(!in_block(b2, hi, of));
            if 0 <= b2 && b2 + pow2(of as nat) <= n {
                assert(s1.is_free_frame(b2) == s0.is_free_frame(b2));
                assert(s1.order_of(b2) == s0.order_of(b2));
            }
            assert(s1.buddy_mergeable(hi, of) == s0.buddy_mergeable(hi, of));
            assert(!s1.buddy_mergeable(hi, of));
        }
        let pr = partially_restored(s0, h, of, of);
        assert(coalesce_lists(s1, pr, hi, of) == pr.update(of, pr[of].push(((hi) as usize))));
        assert(pr[of].push(h) =~= s0.lists()[of]);
        assert(pr.update(of, pr[of].push(h)) =~= s0.lists());
    } else {
        lemma_pow2_mod_le(base + hi, (k + 1) as nat, of as nat);
        lemma_pow2_adds(k as nat, 1);
        lemma2_to64();
        assert(pow2((k + 1) as nat) == 2 * pow2(k as nat));
        lemma_even_quotient(base + hi, pow2(k as nat) as int);
        let b = hi + pow2(k as nat);
        assert(s1.buddy_of(hi, k) == b);
        if (k as nat) < of as nat {
            lemma_pow2_strictly_increases(k as nat, of as nat);
        }
        assert(in_block(b, hi, of));
        // the split-off half sits at the end of the free list of order k
        assert(s1.lists()[k] == s0.lists()[k].push((b as usize)));
        let l1 = s1.lists()[k].len() as int;
        assert(s1.lists()[k][l1 - 1] == (b as usize));
        assert(s1.list_entry_ok(k, l1 - 1));
        assert(s1.buddy_mergeable(hi, k));
        // the pre-allocation list of order k never held that half: it lay
        // inside the free block that was taken
        assert forall|j: int|
            0 <= j < s0.lists()[k].len() implies s0.lists()[k][j] != (b as usize) by {
            assert(s0.list_entry_ok(k, j));
            if s0.lists()[k][j] == (b as usize) {
                assert(s0.pages@[b].free);
                assert(hi + pow2(s0.pages@[hi].order as nat) <= b);
            }
        }
        let pr_k = partially_restored(s0, h, k, of);
        assert(pr_k[k] == s0.lists()[k].push((b as usize)));
        assert(pr_k[k].remove_value((b as usize)) =~= s0.lists()[k]) by {
            pr_k[k].index_of_first_ensures((b as usize));
            assert(pr_k[k][l1 - 1] == (b as usize));
            assert(pr_k[k].contains((b as usize)));
            let fi = pr_k[k].index_of_first((b as usize)).unwrap();
            assert(pr_k[k][fi] == (b as usize));
            if fi < l1 - 1 {
                assert(pr_k[k][fi] == s0.lists()[k][fi]);
            }
            assert(fi == l1 - 1);
            assert(pr_k[k].remove(l1 - 1) =~= s0.lists()[k]);
        }
        assert(pr_k.update(k, pr_k[k].remove_value((b as usize))) =~= partially_restored(
            s0,
            h,
            k + 1,
            of,
        ));
        lemma_coalesce_unwinds(s0, s1, h, of, k + 1);
        assert(coalesce_lists(s1, pr_k, hi, k) == coalesce_lists(
            s1,
            partially_restored(s0, h, k + 1, of),
            hi,
            k + 1,
        ));
    }
}

/// Allocating a block of any order and immediately deallocating it leaves
/// the per-order free lists exactly as they were before the allocation,
/// and the map of outstanding blocks with it. The hypotheses are what
/// `alloc_order` ensures of a successful allocation `s0 -> s1` that found
/// its block on the free list of order `of`, and what `dealloc` ensures of
/// the matching deallocation `s1 -> s2`. The one configuration left out
/// (`of` below the maximal order with the taken block's own buddy free at
/// equal order) is one the allocator's operations never produce: they
/// would already have coalesced that pair.
pub proof fn lemma_alloc_dealloc_restores_free_lists(
    s0: BuddyAllocator,
    s1: BuddyAllocator,
    s2: BuddyAllocator,
    h: usize,
    order: int,
    of: int,
)
    requires
        s0.inv(),
        s1.inv(),
        s1.base() == s0.base(),
        s1.n_frames() == s0.n_frames(),
        0 <= order <= of <= MAX_ORDER,
        s0.lists()[of].len() > 0,
        s0.lists()[of].last() == h,
        of == MAX_ORDER || !s0.buddy_mergeable(h as int, of),
        s1.lists()[of] == s0.lists()[of].drop_last(),
        forall|j: int|
            order <= j < of ==> #[trigger] s1.lists()[j] == s0.lists()[j].push(
                ((h + pow2(j as nat)) as usize),
            ),
        forall|j: int|
            0 <= j < NUM_ORDERS && j != of && !(order <= j < of) ==> #[trigger] s1.lists()[j]
                == s0.lists()[j],
        forall|i: int| #![trigger s1.is_free_frame(i)]
            0 <= i < s0.n_frames() && !in_block(i, h as int, of) ==> s1.is_free_frame(i)
                == s0.is_free_frame(i) && s1.order_of(i) == s0.order_of(i),
        !s0.allocated().dom().contains(h as int),
        s1.allocated() == s0.allocated().insert(h as int, order),
        s2.lists() == coalesce_lists(s1, s1.lists(), h as int, order),
        s2.allocated() == s1.allocated().remove(h as int),
    ensures
        s2.lists() == s0.lists(),
        s2.allocated() == s0.allocated(),
{
    assert(s1.lists() =~= partially_restored(s0, h, order, of));
    lemma_coalesce_unwinds(s0, s1, h, of, order);
    assert(s2.allocated() =~= s0.allocated());
}

/// Allocating a block of any order and immediately deallocating it restores
/// the allocator's observable state exactly: the map of outstanding blocks,
/// the set of frames covered by free blocks, and the set of frames covered
/// by allocated blocks are all as they were before the allocation. The
/// hypotheses are exactly what `alloc_order` ensures of a successful
/// allocation `s0 -> s1` of `order` returning `h`, and what `dealloc`
/// ensures of the matching deallocation `s1 -> s2`.
pub proof fn lemma_alloc_dealloc_round_trip(
    s0: BuddyAllocator,
    s1: BuddyAllocator,
    s2: BuddyAllocator,
    h: int,
    order: int,
)
    requires
        s0.inv(),
        !s0.allocated().dom().contains(h),
        s1.allocated() == s0.allocated().insert(h, order),
        forall|f: int| #![trigger s1.free_covered(f)]
            s1.free_covered(f) == (s0.free_covered(f) && !in_block(f, h, order)),
        forall|f: int| #![trigger s1.alloc_covered(f)]
            s1.alloc_covered(f) == (s0.alloc_covered(f) || in_block(f, h, order)),
        forall|f: int| #![trigger in_block(f, h, order)]
            in_block(f, h, order) ==> s0.free_covered(f),
        s2.allocated() == s1.allocated().remove(h),
        forall|f: int| #![trigger s2.free_covered(f)]
            s2.free_covered(f) == (s1.free_covered(f) || in_block(f, h, s1.allocated()[h])),
        forall|f: int| #![trigger s2.alloc_covered(f)]
            s2.alloc_covered(f) == (s1.alloc_covered(f) && !in_block(f, h, s1.allocated()[h])),
    ensures
        s2.allocated() == s0.allocated(),
        forall|f: int| #![trigger s2.free_covered(f)] s2.free_covered(f) == s0.free_covered(f),
        forall|f: int| #![trigger s2.alloc_covered(f)] s2.alloc_covered(f) == s0.alloc_covered(f),
{
    assert(s1.allocated()[h] == order);
    assert(s2.allocated() =~= s0.allocated());
    assert forall|f: int| #![trigger s2.alloc_covered(f)]
        s2.alloc_covered(f) == s0.alloc_covered(f) by {
        if in_block(f, h, order) {
            assert(s0.free_covered(f));
            s0.lemma_cover_disjoint(f);
        }
    }
}

/// Outstanding allocations never overstep the window and never overlap:
/// any two distinct allocated blocks are disjoint, and the set of frames
/// covered by allocated blocks is no larger than the registered window.
pub proof fn lemma_allocations_bounded(s: BuddyAllocator)
    requires
        s.inv(),
    ensures
        forall|i1: int, i2: int|
            #![trigger s.allocated().dom().contains(i1), s.allocated().dom().contains(i2)]
            s.allocated().dom().contains(i1) && s.allocated().dom().contains(i2) && i1 < i2
                ==> i1 + pow2(s.allocated()[i1] as nat) <= i2,
        forall|f: int| #![trigger s.alloc_covered(f)] s.alloc_covered(f) ==> 0 <= f < s.n_frames(),
        Set::new(|f: int| s.alloc_covered(f)).finite(),
        Set::new(|f: int| s.alloc_covered(f)).len() <= s.n_frames(),
{
    assert forall|f: int| #![trigger s.alloc_covered(f)]
        s.alloc_covered(f) implies 0 <= f < s.n_frames() by {
        let i = choose|i: int|
            #![trigger s.allocated().dom().contains(i)]
            s.allocated().dom().contains(i) && in_block(f, i, s.allocated()[i]);
        assert(s.alloc_entry_ok(i));
    }
    let covered = Set::new(|f: int| s.alloc_covered(f));
    let window = set_int_range(0, s.n_frames());
    lemma_int_range(0, s.n_frames());
    assert(covered.subset_of(window));
    lemma_len_subset(covered, window);
}

/// Deallocating two buddy blocks of equal order, in either order, leaves a
/// coalesced free block of at least the next order, so an allocation at
/// `order + 1` is then owed to succeed. `d1` is whichever buddy is
/// deallocated first, `d2` the other; the hypotheses are what `dealloc`
/// ensures of the two calls `s0 -> s1 -> s2`.
pub proof fn lemma_buddy_coalesce(
    s0: BuddyAllocator,
    s1: BuddyAllocator,
    s2: BuddyAllocator,
    d1: int,
    d2: int,
    order: int,
    hf1: int,
    of1: int,
    hf2: int,
    of2: int,
)
    requires
        s0.inv(),
        s1.inv(),
        0 <= order < MAX_ORDER,
        s0.allocated().dom().contains(d1),
        s0.allocated().dom().contains(d2),
        s0.allocated()[d1] == order,
        s0.allocated()[d2] == order,
        d2 == s0.buddy_of(d1, order),
        s1.allocated() == s0.allocated().remove(d1),
        freed_block_ok(s0, s1, d1, hf1, of1),
        s1.base() == s0.base(),
        s1.n_frames() == s0.n_frames(),
        freed_block_ok(s1, s2, d2, hf2, of2),
        s2.lists() == coalesce_lists(s1, s1.lists(), d2, order),
        order + 1 == MAX_ORDER || !s0.buddy_mergeable(
            if d1 < d2 {
                d1
            } else {
                d2
            },
            order + 1,
        ),
    ensures
        of2 >= order + 1,
        s2.has_free_at_or_above(order + 1),
        s2.lists() == s1.lists().update(
            order,
            s1.lists()[order].remove_value((d1 as usize)),
        ).update(
            order + 1,
            s1.lists()[order + 1].push(
                (if d1 < d2 {
                    d1
                } else {
                    d2
                } as usize),
            ),
        ),
{
    assert(s0.alloc_entry_ok(d1));
    assert(s0.alloc_entry_ok(d2));
    let m = pow2(order as nat) as int;
    let a1 = s0.base() + d1;
    let a2 = s0.base() + d2;
    // the first buddy cannot merge: its partner is still allocated, hence
    // not free
    assert(!s0.buddy_mergeable(d1, order));
    assert(of1 == order && hf1 == d1);
    // buddy relation is symmetric
    vstd::arithmetic::div_mod::lemma_fundamental_div_mod(a1, m);
    vstd::arithmetic::div_mod::lemma_fundamental_div_mod(a2, m);
    if (a1 / m) % 2 == 0 {
        assert(d2 == d1 + m);
        assert(a2 == a1 + m);
        assert(a2 / m == a1 / m + 1) by (nonlinear_arith)
            requires
                m > 0,
                a1 % m == 0,
                a2 % m == 0,
                a2 == a1 + m,
                a1 == m * (a1 / m) + a1 % m,
                a2 == m * (a2 / m) + a2 % m,
        ;
        assert((a2 / m) % 2 == 1);
        assert(s1.buddy_of(d2, order) == d1);
    } else {
        assert(d2 == d1 - m);
        assert(a2 == a1 - m);
        assert(a2 / m == a1 / m - 1) by (nonlinear_arith)
            requires
                m > 0,
                a1 % m == 0,
                a2 % m == 0,
                a2 == a1 - m,
                a1 == m * (a1 / m) + a1 % m,
                a2 == m * (a2 / m) + a2 % m,
        ;
        assert((a2 / m) % 2 == 0);
        assert(s1.buddy_of(d2, order) == d1);
    }
    // after the first deallocation the partner is a free block of the same
    // order, so the second deallocation merges
    assert(s1.buddy_mergeable(d2, order));
    assert(s1.allocated()[d2] == order);
    assert(of2 >= order + 1);
    assert(s2.has_free_at(of2));
    assert(s2.has_free_at_or_above(order + 1));
    // exactly one block surfaces, on the free list of the next order: the
    // merged block's own buddy was not free before the first deallocation,
    // and that deallocation touched nothing outside the block it freed
    let mm = if d1 < d2 {
        d1
    } else {
        d2
    };
    if order + 1 < MAX_ORDER || order + 1 == MAX_ORDER {
        lemma_pow2_adds(order as nat, 1);
        lemma2_to64();
        assert(pow2((order + 1) as nat) == 2 * pow2(order as nat));
    }
    if order + 1 < MAX_ORDER {
        let b2 = s1.buddy_of(mm, order + 1);
        assert(b2 == s0.buddy_of(mm, order + 1));
        assert(!in_block(b2, d1, order));
        if 0 <= b2 && b2 + pow2((order + 1) as nat) <= s0.n_frames() {
            assert(s1.is_free_frame(b2) == s0.is_free_frame(b2));
            assert(s1.order_of(b2) == s0.order_of(b2));
        }
        assert(s1.buddy_mergeable(mm, order + 1) == s0.buddy_mergeable(mm, order + 1));
    }
    let ls1 = s1.lists().update(order, s1.lists()[order].remove_value((d1 as usize)));
    assert(coalesce_lists(s1, s1.lists(), d2, order) == coalesce_lists(s1, ls1, mm, order + 1));
    assert(coalesce_lists(s1, ls1, mm, order + 1) == ls1.update(
        order + 1,
        ls1[order + 1].push((mm as usize)),
    ));
    assert(ls1[order + 1] == s1.lists()[order + 1]);
}

} // verus!
