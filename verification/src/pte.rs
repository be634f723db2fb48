//! The raw Sv39/Sv48 page-table entry and one hardware translation table.
//!
//! An entry packs a physical frame number above a ten-bit attribute field:
//! `word == pfn * 1024 + attrs`. One table is one 4 KiB frame holding 512
//! entries.

use vstd::prelude::*;

use crate::attr::page_bits_of_raw;
use crate::attr::raw_bits_of_page;
use crate::attr::table_bits_of_raw;
use crate::attr::raw_bits_of_table;
use crate::attr::lemma_page_attr_round_trip;
use crate::attr::lemma_table_attr_round_trip;
use crate::attr::Attribute;
use crate::attr::PA_R;
use crate::attr::PA_W;
use crate::attr::PA_X;
use crate::attr::PAGE_READ;
use crate::attr::PAGE_WRITE;
use crate::attr::PAGE_EXECUTE;

verus! {

/// Number of entries in one translation table.
pub const PTES_PER_PAGE: usize = 512;

/// Largest physical frame number that fits the entry's frame field: the
/// attribute field takes the low ten bits, so fifty-four remain.
pub const MAX_PTE_PFN: u64 = 0x40_0000_0000_0000;

/// One raw page-table entry.
#[derive(Clone, Copy, PartialEq, Eq, Structural, Debug)]
pub struct RV39PTE(pub u64);

impl RV39PTE {
    /// The frame number packed into this entry.
    pub open spec fn spec_pfn(self) -> int {
        self.0 as int / 1024
    }

    /// The raw attribute field packed into this entry.
    pub open spec fn spec_attr(self) -> int {
        self.0 as int % 1024
    }

    /// Whether the hardware would treat the entry as valid.
    pub open spec fn spec_present(self) -> bool {
        self.0 as int % 2 == 1
    }

    /// An all-zero, non-present entry.
    pub fn empty() -> (r: Self)
        ensures
            r.0 == 0,
    {
        RV39PTE(0)
    }

    /// Packs a frame number and a raw attribute field into the entry word.
    pub fn set(&mut self, pfn: u64, attr: Attribute)
        requires
            pfn < MAX_PTE_PFN,
            attr.0 < 1024,
        ensures
            final(self).0 == pfn * 1024 + attr.0,
    {
        let a = attr.0;
        let word = (pfn << 10u64) | a;
        proof {
            assert((pfn << 10u64) | a == pfn * 1024 + a) by (bit_vector)
                requires
                    pfn < 0x40_0000_0000_0000u64,
                    a < 1024u64,
            ;
        }
        self.0 = word;
    }

    /// Unpacks the entry word into its frame number and raw attribute field.
    pub fn get(&self) -> (r: (u64, Attribute))
        ensures
            r.0 == self.spec_pfn(),
            r.1.0 == self.spec_attr(),
    {
        let word = self.0;
        let pfn = word >> 10u64;
        let a = word & 0x3FF;
        proof {
            assert(word >> 10u64 == word as int / 1024 && (word & 0x3FF) == word as int % 1024)
                by (bit_vector);
        }
        (pfn, Attribute(a))
    }

    /// Whether the entry is valid (present) for the hardware.
    pub fn is_present(&self) -> (r: bool)
        ensures
            r == self.spec_present(),
    {
        let word = self.0;
        proof {
            assert((word & 1 != 0) == (word as int % 2 == 1)) by (bit_vector);
        }
        word & 1 != 0
    }

    /// Whether the hardware would treat the entry as a table descriptor:
    /// present, with none of the read/write/execute bits.
    pub open spec fn spec_table_ptr(self) -> bool {
        self.spec_present() && (self.0 as int / 2) % 8 == 0
    }

    /// Whether the entry is a table descriptor pointing at the next level.
    pub fn is_table_ptr(&self) -> (r: bool)
        ensures
            r == self.spec_table_ptr(),
    {
        let word = self.0;
        proof {
            assert(((word & 1 != 0) && (word & 14 == 0)) == ((word as int % 2 == 1) && (word as int
                / 2) % 8 == 0)) by (bit_vector);
        }
        word & 1 != 0 && word & 14 == 0
    }
}

/// A leaf mapping survives the round trip through one raw entry: packing a
/// frame number with an encoded leaf attribute set, then unpacking and
/// decoding, returns the frame number and the set unchanged, for every set
/// holding at least one of read/write/execute.
pub proof fn lemma_leaf_encode_decode(pfn: u64, p: u64)
    requires
        pfn < MAX_PTE_PFN,
        p < 1024,
        p & (PAGE_READ | PAGE_WRITE | PAGE_EXECUTE) != 0,
    ensures
        ({
            let word = pfn * 1024 + raw_bits_of_page(p);
            &&& word / 1024 == pfn
            &&& word % 1024 == raw_bits_of_page(p)
            &&& page_bits_of_raw((word % 1024) as u64) == p
        }),
{
    lemma_page_attr_round_trip(p);
    let r = raw_bits_of_page(p);
    assert((pfn * 1024 + r) / 1024 == pfn && (pfn * 1024 + r) % 1024 == r)
        by (nonlinear_arith)
        requires
            0 <= r < 1024,
    ;
}

/// A table descriptor survives the round trip through one raw entry in the
/// same way, for every portable set restricted to the table-scoped
/// attributes; its raw field never carries read/write/execute, so the
/// hardware will keep treating the entry as an interior node.
pub proof fn lemma_table_encode_decode(pfn: u64, t: u64)
    requires
        pfn < MAX_PTE_PFN,
        t < 16,
    ensures
        ({
            let word = pfn * 1024 + raw_bits_of_table(t);
            &&& word / 1024 == pfn
            &&& word % 1024 == raw_bits_of_table(t)
            &&& table_bits_of_raw((word % 1024) as u64) == t
            &&& (raw_bits_of_table(t) as u64) & (PA_R | PA_W | PA_X) == 0
        }),
{
    lemma_table_attr_round_trip(t);
    let r = raw_bits_of_table(t);
    assert((pfn * 1024 + r) / 1024 == pfn && (pfn * 1024 + r) % 1024 == r)
        by (nonlinear_arith)
        requires
            0 <= r < 1024,
    ;
}

/// One hardware translation table: 512 raw entries filling one frame.
pub struct RV39RawTable {
    entries: Vec<RV39PTE>,
}

impl View for RV39RawTable {
    type V = Seq<RV39PTE>;

    closed spec fn view(&self) -> Seq<RV39PTE> {
        self.entries@
    }
}

impl RV39RawTable {
    /// A table always holds exactly 512 entries.
    pub open spec fn wf(self) -> bool {
        self@.len() == PTES_PER_PAGE
    }

    /// A fresh table with every entry zeroed (non-present), as the walker
    /// installs it when it allocates an intermediate level.
    pub fn new_zeroed() -> (r: Self)
        ensures
            r.wf(),
            forall|i: int| 0 <= i < PTES_PER_PAGE ==> r@[i].0 == 0,
    {
        let mut entries: Vec<RV39PTE> = Vec::new();
        let mut i: usize = 0;
        while i < PTES_PER_PAGE
            invariant
                i <= PTES_PER_PAGE,
                entries@.len() == i,
                forall|k: int| 0 <= k < i ==> entries@[k].0 == 0,
            decreases PTES_PER_PAGE - i,
        {
            entries.push(RV39PTE(0));
            i = i + 1;
        }
        RV39RawTable { entries }
    }

    /// The entry in the given slot.
    pub fn index(&self, index: u16) -> (r: &RV39PTE)
        requires
            self.wf(),
            index < 512,
        ensures
            *r == self@[index as int],
    {
        &self.entries[index as usize]
    }

    /// Overwrites the entry in the given slot.
    pub fn set_entry(&mut self, index: u16, pte: RV39PTE)
        requires
            old(self).wf(),
            index < 512,
        ensures
            final(self)@ == old(self)@.update(index as int, pte),
            final(self).wf(),
    {
        self.entries.set(index as usize, pte);
    }
}

} // verus!
