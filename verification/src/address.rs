//! Virtual and physical page numbers of the three-level Sv39 scheme.
//!
//! An address is a page number and an offset of twelve bits.  A virtual page
//! number has 27 bits, nine for each level of the page table; a physical page
//! number has 44.

use vstd::prelude::*;

verus! {

/// The number of bytes of a page.
pub const PAGE_SIZE: u64 = 4096;

/// The number of entries of a page table.
pub const ENTRIES: u64 = 512;

/// The number of pages that one entry of the root table spans.
pub const ROOT_SPAN: u64 = 0x4_0000;

/// One more than the largest virtual page number.
pub const VPN_LIMIT: u64 = 0x800_0000;

/// One more than the largest physical page number.
pub const PPN_LIMIT: u64 = 0x1000_0000_0000;

/// One more than the largest virtual address.
pub const VADDR_LIMIT: u64 = 0x80_0000_0000;

/// The page at the very top of every address space, where the trampoline lies.
pub const TRAMPOLINE_VPN: u64 = 0x7FF_FFFF;

/// The Sv39 scheme.
#[derive(Clone, Copy, PartialEq, Eq, Structural, Debug)]
pub struct Sv39;

impl Sv39 {
    pub const P_ADDR_BITS: usize = 56;

    pub const PAGE_BITS: usize = 12;

    pub const LEVELS: usize = 3;

    pub const MAX_LEVEL: usize = 2;

    pub const PPN_POS: usize = 10;

    /// Whether the raw entry `value` maps a page, rather than pointing to a
    /// table of the next level: one of its bits 1 to 3 is set.
    pub fn is_leaf(value: usize) -> (b: bool)
        ensures
            b == (value / 2 % 8 != 0),
    {
        value / 2 % 8 != 0
    }
}

/// The page number of the virtual address `addr`, of which only the low 39
/// bits count.
pub open spec fn vpn_of(addr: u64) -> u64 {
    (addr % VADDR_LIMIT / PAGE_SIZE) as u64
}

/// The offset of the address `addr` in its page.
pub open spec fn offset_of(addr: u64) -> u64 {
    (addr % PAGE_SIZE) as u64
}

/// The place of the page `vpn` in the table of `level` on the way to it;
/// level 2 is the root.
pub open spec fn index_in(vpn: u64, level: int) -> int {
    if level == 0 {
        (vpn % ENTRIES) as int
    } else if level == 1 {
        (vpn / ENTRIES % ENTRIES) as int
    } else {
        (vpn / ROOT_SPAN % ENTRIES) as int
    }
}

/// The page that is reached by the three indices.
pub open spec fn vpn_at(i2: int, i1: int, i0: int) -> int {
    (i2 * ENTRIES + i1) * ENTRIES + i0
}

/// A page number below the limit is the one that its three indices reach, and
/// no other is.
pub proof fn lemma_indices(vpn: u64)
    requires
        vpn < VPN_LIMIT,
    ensures
        0 <= index_in(vpn, 0) < ENTRIES,
        0 <= index_in(vpn, 1) < ENTRIES,
        0 <= index_in(vpn, 2) < ENTRIES,
        vpn_at(index_in(vpn, 2), index_in(vpn, 1), index_in(vpn, 0)) == vpn,
{
}

/// Two pages with the same three indices are the same page.
pub proof fn lemma_indices_injective(a: u64, b: u64)
    requires
        a < VPN_LIMIT,
        b < VPN_LIMIT,
        index_in(a, 0) == index_in(b, 0),
        index_in(a, 1) == index_in(b, 1),
        index_in(a, 2) == index_in(b, 2),
    ensures
        a == b,
{
    lemma_indices(a);
    lemma_indices(b);
}

/// The page number of a virtual address.
pub fn page_of(addr: u64) -> (vpn: u64)
    ensures
        vpn == vpn_of(addr),
        vpn < VPN_LIMIT,
{
    addr % VADDR_LIMIT / PAGE_SIZE
}

/// The offset of an address in its page.
pub fn page_offset(addr: u64) -> (offset: u64)
    ensures
        offset == offset_of(addr),
        offset < PAGE_SIZE,
{
    addr % PAGE_SIZE
}

/// The number of the first page that lies wholly at or after `addr`.
pub fn page_ceil(addr: u64) -> (vpn: u64)
    ensures
        vpn == (addr % VADDR_LIMIT + PAGE_SIZE - 1) / (PAGE_SIZE as int),
        vpn <= VPN_LIMIT,
{
    (addr % VADDR_LIMIT + (PAGE_SIZE - 1)) / PAGE_SIZE
}

/// The first address of the page `vpn`.
pub fn page_base(vpn: u64) -> (addr: u64)
    requires
        vpn < PPN_LIMIT,
    ensures
        addr == vpn * PAGE_SIZE,
{
    vpn * PAGE_SIZE
}

/// The place of the page `vpn` in the table of `level` on the way to it.
pub fn index_of(vpn: u64, level: usize) -> (i: usize)
    requires
        level < Sv39::LEVELS,
    ensures
        i == index_in(vpn, level as int),
        i < ENTRIES,
{
    if level == 0 {
        (vpn % ENTRIES) as usize
    } else if level == 1 {
        (vpn / ENTRIES % ENTRIES) as usize
    } else {
        (vpn / ROOT_SPAN % ENTRIES) as usize
    }
}

} // verus!
