//! Attribute bit-sets and their translation to and from the raw Sv39/Sv48
//! page-table-entry attribute field.
//!
//! A raw entry keeps its attributes in the low ten bits. The portable
//! [`PageAttribute`] and [`TableAttribute`] sets are architecture-neutral;
//! the hardware's own discriminant between a leaf and an interior node is
//! that an interior (table-descriptor) entry never carries any of the
//! read/write/execute bits, while a leaf always carries at least one.

use vstd::prelude::*;

verus! {

/// Raw "valid" (present) bit of an Sv39/Sv48 entry.
pub const PA_V: u64 = 1;
/// Raw "readable" bit.
pub const PA_R: u64 = 2;
/// Raw "writable" bit.
pub const PA_W: u64 = 4;
/// Raw "executable" bit.
pub const PA_X: u64 = 8;
/// Raw "user-accessible" bit.
pub const PA_U: u64 = 16;
/// Raw "global mapping" bit.
pub const PA_G: u64 = 32;
/// Raw "accessed" bit.
pub const PA_A: u64 = 64;
/// Raw "dirty" bit.
pub const PA_D: u64 = 128;
/// Software bit: the frame is shared copy-on-write.
pub const PA_COW: u64 = 256;
/// Software bit: the frame belongs to a memory mapping.
pub const PA_MMAP: u64 = 512;

/// Portable leaf attribute: translation is valid.
pub const PAGE_PRESENT: u64 = 1;
/// Portable leaf attribute: readable.
pub const PAGE_READ: u64 = 2;
/// Portable leaf attribute: writable.
pub const PAGE_WRITE: u64 = 4;
/// Portable leaf attribute: executable.
pub const PAGE_EXECUTE: u64 = 8;
/// Portable leaf attribute: user-accessible.
pub const PAGE_USER: u64 = 16;
/// Portable leaf attribute: global mapping.
pub const PAGE_GLOBAL: u64 = 32;
/// Portable leaf attribute: accessed.
pub const PAGE_ACCESSED: u64 = 64;
/// Portable leaf attribute: dirty.
pub const PAGE_DIRTY: u64 = 128;
/// Portable leaf attribute: copy-on-write.
pub const PAGE_COPY_ON_WRITE: u64 = 256;
/// Portable leaf attribute: part of a memory mapping.
pub const PAGE_MAPPED: u64 = 512;

/// Portable table-descriptor attribute: the next-level table is present.
pub const TABLE_PRESENT: u64 = 1;
/// Portable table-descriptor attribute: user-accessible subtree.
pub const TABLE_USER: u64 = 2;
/// Portable table-descriptor attribute: global subtree.
pub const TABLE_GLOBAL: u64 = 4;
/// Portable table-descriptor attribute: accessed.
pub const TABLE_ACCESSED: u64 = 8;

/// The raw attribute field of one page-table entry: the low ten bits of the
/// entry word, in the hardware's own layout.
#[derive(Clone, Copy, PartialEq, Eq, Structural, Debug)]
pub struct Attribute(pub u64);

/// The portable, architecture-neutral attribute set of a leaf entry.
#[derive(Clone, Copy, PartialEq, Eq, Structural, Debug)]
pub struct PageAttribute(pub u64);

/// The portable, architecture-neutral attribute set of a table-descriptor
/// entry; only present/user/global/accessed are meaningful here.
#[derive(Clone, Copy, PartialEq, Eq, Structural, Debug)]
pub struct TableAttribute(pub u64);

/// The portable table-descriptor set that a raw attribute field projects to.
pub open spec fn table_bits_of_raw(a: u64) -> int {
    (if a & PA_V != 0 { TABLE_PRESENT as int } else { 0 })
        + (if a & PA_U != 0 { TABLE_USER as int } else { 0 })
        + (if a & PA_G != 0 { TABLE_GLOBAL as int } else { 0 })
        + (if a & PA_A != 0 { TABLE_ACCESSED as int } else { 0 })
}

/// The raw attribute field that encodes a portable table-descriptor set.
pub open spec fn raw_bits_of_table(t: u64) -> int {
    (if t & TABLE_PRESENT != 0 { PA_V as int } else { 0 })
        + (if t & TABLE_USER != 0 { PA_U as int } else { 0 })
        + (if t & TABLE_GLOBAL != 0 { PA_G as int } else { 0 })
        + (if t & TABLE_ACCESSED != 0 { PA_A as int } else { 0 })
}

/// The portable leaf set that a raw attribute field projects to.
pub open spec fn page_bits_of_raw(a: u64) -> int {
    (if a & PA_V != 0 { PAGE_PRESENT as int } else { 0 })
        + (if a & PA_R != 0 { PAGE_READ as int } else { 0 })
        + (if a & PA_W != 0 { PAGE_WRITE as int } else { 0 })
        + (if a & PA_X != 0 { PAGE_EXECUTE as int } else { 0 })
        + (if a & PA_U != 0 { PAGE_USER as int } else { 0 })
        + (if a & PA_G != 0 { PAGE_GLOBAL as int } else { 0 })
        + (if a & PA_A != 0 { PAGE_ACCESSED as int } else { 0 })
        + (if a & PA_D != 0 { PAGE_DIRTY as int } else { 0 })
        + (if a & PA_COW != 0 { PAGE_COPY_ON_WRITE as int } else { 0 })
        + (if a & PA_MMAP != 0 { PAGE_MAPPED as int } else { 0 })
}

/// The raw attribute field that encodes a portable leaf set.
pub open spec fn raw_bits_of_page(p: u64) -> int {
    (if p & PAGE_PRESENT != 0 { PA_V as int } else { 0 })
        + (if p & PAGE_READ != 0 { PA_R as int } else { 0 })
        + (if p & PAGE_WRITE != 0 { PA_W as int } else { 0 })
        + (if p & PAGE_EXECUTE != 0 { PA_X as int } else { 0 })
        + (if p & PAGE_USER != 0 { PA_U as int } else { 0 })
        + (if p & PAGE_GLOBAL != 0 { PA_G as int } else { 0 })
        + (if p & PAGE_ACCESSED != 0 { PA_A as int } else { 0 })
        + (if p & PAGE_DIRTY != 0 { PA_D as int } else { 0 })
        + (if p & PAGE_COPY_ON_WRITE != 0 { PA_COW as int } else { 0 })
        + (if p & PAGE_MAPPED != 0 { PA_MMAP as int } else { 0 })
}

impl Attribute {
    /// The empty (non-present) attribute field.
    pub fn null() -> (r: Self)
        ensures
            r.0 == 0,
    {
        Attribute(0)
    }

    /// Interprets the raw field as table-descriptor attributes.
    ///
    /// A raw field with any of the read/write/execute bits set is a leaf by
    /// the hardware's rules and must never be read as a table descriptor;
    /// such a field is excluded here outright.
    pub fn as_table_attr(self) -> (r: Option<TableAttribute>)
        requires
            self.0 & (PA_R | PA_W | PA_X) == 0,
        ensures
            r matches Some(t) && t.0 == table_bits_of_raw(self.0),
    {
        let mut bits: u64 = 0;

        if self.0 & PA_V != 0 {
            bits = bits + TABLE_PRESENT;
        }
        if self.0 & PA_U != 0 {
            bits = bits + TABLE_USER;
        }
        if self.0 & PA_G != 0 {
            bits = bits + TABLE_GLOBAL;
        }
        if self.0 & PA_A != 0 {
            bits = bits + TABLE_ACCESSED;
        }

        Some(TableAttribute(bits))
    }

    /// Interprets the raw field as leaf attributes.
    ///
    /// A raw field with none of the read/write/execute bits set is an
    /// interior node by the hardware's rules and must never be read as a
    /// leaf; such a field is excluded here outright.
    pub fn as_page_attr(self) -> (r: Option<PageAttribute>)
        requires
            self.0 & (PA_R | PA_W | PA_X) != 0,
        ensures
            r matches Some(p) && p.0 == page_bits_of_raw(self.0),
    {
        let mut bits: u64 = 0;

        if self.0 & PA_V != 0 {
            bits = bits + PAGE_PRESENT;
        }
        if self.0 & PA_R != 0 {
            bits = bits + PAGE_READ;
        }
        if self.0 & PA_W != 0 {
            bits = bits + PAGE_WRITE;
        }
        if self.0 & PA_X != 0 {
            bits = bits + PAGE_EXECUTE;
        }
        if self.0 & PA_U != 0 {
            bits = bits + PAGE_USER;
        }
        if self.0 & PA_G != 0 {
            bits = bits + PAGE_GLOBAL;
        }
        if self.0 & PA_A != 0 {
            bits = bits + PAGE_ACCESSED;
        }
        if self.0 & PA_D != 0 {
            bits = bits + PAGE_DIRTY;
        }
        if self.0 & PA_COW != 0 {
            bits = bits + PAGE_COPY_ON_WRITE;
        }
        if self.0 & PA_MMAP != 0 {
            bits = bits + PAGE_MAPPED;
        }

        Some(PageAttribute(bits))
    }

    /// Encodes portable table-descriptor attributes into the raw field.
    ///
    /// Only present/user/global/accessed are meaningful on a table
    /// descriptor; a set holding anything else is excluded here.
    pub fn from_table_attr(table_attr: TableAttribute) -> (r: Self)
        requires
            table_attr.0 < 16,
        ensures
            r.0 == raw_bits_of_table(table_attr.0),
    {
        let mut raw_attr: u64 = 0;

        if table_attr.0 & TABLE_PRESENT != 0 {
            raw_attr = raw_attr + PA_V;
        }
        if table_attr.0 & TABLE_USER != 0 {
            raw_attr = raw_attr + PA_U;
        }
        if table_attr.0 & TABLE_GLOBAL != 0 {
            raw_attr = raw_attr + PA_G;
        }
        if table_attr.0 & TABLE_ACCESSED != 0 {
            raw_attr = raw_attr + PA_A;
        }

        Attribute(raw_attr)
    }

    /// Encodes portable leaf attributes into the raw field.
    ///
    /// A leaf must carry at least one of read/write/execute: encoding a set
    /// without any of them would make the raw field an interior node, so
    /// such a set is excluded here. Sets with bits beyond the ten known
    /// flags are excluded too.
    pub fn from_page_attr(page_attr: PageAttribute) -> (r: Self)
        requires
            page_attr.0 & (PAGE_READ | PAGE_WRITE | PAGE_EXECUTE) != 0,
            page_attr.0 < 1024,
        ensures
            r.0 == raw_bits_of_page(page_attr.0),
    {
        let mut raw_attr: u64 = 0;

        if page_attr.0 & PAGE_PRESENT != 0 {
            raw_attr = raw_attr + PA_V;
        }
        if page_attr.0 & PAGE_READ != 0 {
            raw_attr = raw_attr + PA_R;
        }
        if page_attr.0 & PAGE_WRITE != 0 {
            raw_attr = raw_attr + PA_W;
        }
        if page_attr.0 & PAGE_EXECUTE != 0 {
            raw_attr = raw_attr + PA_X;
        }
        if page_attr.0 & PAGE_USER != 0 {
            raw_attr = raw_attr + PA_U;
        }
        if page_attr.0 & PAGE_GLOBAL != 0 {
            raw_attr = raw_attr + PA_G;
        }
        if page_attr.0 & PAGE_ACCESSED != 0 {
            raw_attr = raw_attr + PA_A;
        }
        if page_attr.0 & PAGE_DIRTY != 0 {
            raw_attr = raw_attr + PA_D;
        }
        if page_attr.0 & PAGE_COPY_ON_WRITE != 0 {
            raw_attr = raw_attr + PA_COW;
        }
        if page_attr.0 & PAGE_MAPPED != 0 {
            raw_attr = raw_attr + PA_MMAP;
        }

        Attribute(raw_attr)
    }
}

/// A portable table-descriptor set restricted to present/user/global/accessed
/// survives the round trip through the raw attribute field, and its raw
/// encoding never carries a read/write/execute bit.
pub proof fn lemma_table_attr_round_trip(t: u64)
    requires
        t < 16,
    ensures
        (raw_bits_of_table(t) as u64) & (PA_R | PA_W | PA_X) == 0,
        table_bits_of_raw(raw_bits_of_table(t) as u64) == t,
{
    assert((raw_bits_of_table(t) as u64) & (PA_R | PA_W | PA_X) == 0
        && table_bits_of_raw(raw_bits_of_table(t) as u64) == t) by (bit_vector)
        requires
            t < 16,
    ;
}

/// A portable leaf set holding at least one of read/write/execute survives
/// the round trip through the raw attribute field, and its raw encoding
/// always carries a read/write/execute bit.
pub proof fn lemma_page_attr_round_trip(p: u64)
    requires
        p < 1024,
        p & (PAGE_READ | PAGE_WRITE | PAGE_EXECUTE) != 0,
    ensures
        0 <= raw_bits_of_page(p) < 1024,
        (raw_bits_of_page(p) as u64) & (PA_R | PA_W | PA_X) != 0,
        page_bits_of_raw(raw_bits_of_page(p) as u64) == p,
{
    assert(0 <= raw_bits_of_page(p) < 1024
        && (raw_bits_of_page(p) as u64) & (PA_R | PA_W | PA_X) != 0
        && page_bits_of_raw(raw_bits_of_page(p) as u64) == p) by (bit_vector)
        requires
            p < 1024,
            p & (PAGE_READ | PAGE_WRITE | PAGE_EXECUTE) != 0,
    ;
}

} // verus!
