//! Pure value type for half-open virtual-address intervals, and the algebra
//! the grant layer builds on: intersection, before/after splitting,
//! collision tests, rounding and rebasing.

use vstd::prelude::*;

use crate::PAGE_SIZE;
use crate::addr::Page;
use crate::addr::PageIter;
use crate::addr::VirtualAddress;

verus! {

/// A half-open interval `[start, start + size)` of virtual addresses.
#[derive(Clone, Copy, Debug, PartialEq, Eq, Structural)]
pub struct Region {
    pub start: VirtualAddress,
    pub size: u64,
}

/// Round a byte count up to the nearest multiple of the page size.
pub open spec fn round_up_spec(size: int) -> int {
    if size % PAGE_SIZE as int == 0 {
        size
    } else {
        size + PAGE_SIZE - size % PAGE_SIZE as int
    }
}

impl Region {
    /// The first address of the interval, as a mathematical integer.
    pub open spec fn start_int(self) -> int {
        self.start.addr as int
    }

    /// One past the last address of the interval, as a mathematical integer.
    pub open spec fn end_int(self) -> int {
        self.start.addr + self.size
    }

    /// The region with the same start and the size rounded up to a page
    /// multiple.
    pub open spec fn spec_round(self) -> Self {
        Region { start: self.start, size: round_up_spec(self.size as int) as u64 }
    }

    /// What `collides` decides: whether `other` starts inside `self`.
    pub open spec fn spec_collides(self, other: Self) -> bool {
        self.start_int() <= other.start_int() < self.end_int()
    }

    /// Whether the two intervals share no address.
    pub open spec fn spec_disjoint(self, other: Self) -> bool {
        self.end_int() <= other.start_int() || other.end_int() <= self.start_int()
    }

    /// The interval both regions share; empty when they are disjoint.
    pub open spec fn spec_intersect(self, other: Self) -> Self {
        let lo = if self.start_int() >= other.start_int() {
            self.start_int()
        } else {
            other.start_int()
        };
        let hi = if self.end_int() <= other.end_int() {
            self.end_int()
        } else {
            other.end_int()
        };
        Region {
            start: VirtualAddress { addr: lo as u64 },
            size: (if hi >= lo {
                hi - lo
            } else {
                0
            }) as u64,
        }
    }

    /// The prefix of `self` that lies below `region`, or `None` if it is
    /// empty.
    pub open spec fn spec_before(self, region: Self) -> Option<Self> {
        if region.start_int() > self.start_int() {
            Some(
                Region {
                    start: self.start,
                    size: (region.start_int() - self.start_int()) as u64,
                },
            )
        } else {
            None
        }
    }

    /// The suffix of `self` that lies above `region`, or `None` if it is
    /// empty.
    pub open spec fn spec_after(self, region: Self) -> Option<Self> {
        if self.end_int() > region.end_int() {
            Some(
                Region {
                    start: VirtualAddress { addr: region.end_int() as u64 },
                    size: (self.end_int() - region.end_int()) as u64,
                },
            )
        } else {
            None
        }
    }

    /// Create a new region with the given size.
    pub fn new(start: VirtualAddress, size: u64) -> (r: Self)
        ensures
            r.start == start,
            r.size == size,
    {
        Self { start, size }
    }

    /// Create a new region spanning exactly one byte.
    pub fn byte(address: VirtualAddress) -> (r: Self)
        ensures
            r.start == address,
            r.size == 1,
    {
        Self::new(address, 1)
    }

    /// Create a new region spanning between the start and end address
    /// (exclusive end); empty when `end` is not above `start`.
    pub fn between(start: VirtualAddress, end: VirtualAddress) -> (r: Self)
        ensures
            r.start == start,
            r.size == if end.addr > start.addr {
                end.addr - start.addr
            } else {
                0
            },
    {
        let size = if end.addr > start.addr {
            end.addr - start.addr
        } else {
            0
        };
        Self::new(start, size)
    }

    /// Return the part of the specified region that intersects with self.
    pub fn intersect(&self, other: Self) -> (r: Self)
        requires
            self.end_int() <= u64::MAX,
            other.end_int() <= u64::MAX,
        ensures
            r == self.spec_intersect(other),
    {
        let lo = if self.start.addr >= other.start.addr {
            self.start.addr
        } else {
            other.start.addr
        };
        let self_end = self.start.addr + self.size;
        let other_end = other.start.addr + other.size;
        let hi = if self_end <= other_end {
            self_end
        } else {
            other_end
        };
        Self::between(VirtualAddress { addr: lo }, VirtualAddress { addr: hi })
    }

    /// Get the start address of the region.
    pub fn start_address(&self) -> (r: VirtualAddress)
        ensures
            r == self.start,
    {
        self.start
    }

    /// Set the start address of the region.
    pub fn set_start_address(&mut self, start: VirtualAddress)
        ensures
            final(self).start == start,
            final(self).size == old(self).size,
    {
        self.start = start;
    }

    /// Get the last address in the region (inclusive end).
    pub fn final_address(&self) -> (r: VirtualAddress)
        requires
            self.size > 0,
            self.end_int() <= u64::MAX + 1,
        ensures
            r.addr == self.end_int() - 1,
    {
        VirtualAddress { addr: self.start.addr + (self.size - 1) }
    }

    /// Get the start address of the next region (exclusive end).
    pub fn end_address(&self) -> (r: VirtualAddress)
        requires
            self.end_int() <= u64::MAX,
        ensures
            r.addr == self.end_int(),
    {
        VirtualAddress { addr: self.start.addr + self.size }
    }

    /// Return the exact size of the region.
    pub fn size(&self) -> (r: u64)
        ensures
            r == self.size,
    {
        self.size
    }

    /// Return true if the size of this region is zero. Grants with such a
    /// region should never exist.
    pub fn is_empty(&self) -> (r: bool)
        ensures
            r == (self.size == 0),
    {
        self.size == 0
    }

    /// Set the exact size of the region.
    pub fn set_size(&mut self, size: u64)
        ensures
            final(self).start == old(self).start,
            final(self).size == size,
    {
        self.size = size;
    }

    /// Round the region's size up to the nearest page multiple.
    pub fn round(self) -> (r: Self)
        requires
            self.size + PAGE_SIZE - 1 <= u64::MAX,
        ensures
            r == self.spec_round(),
    {
        let rem = self.size % PAGE_SIZE;
        let size = if rem == 0 {
            self.size
        } else {
            self.size - rem + PAGE_SIZE
        };
        Self { start: self.start, size }
    }

    /// Return the size of the region in whole pages' worth of bytes.
    pub fn full_size(&self) -> (r: u64)
        requires
            self.size + PAGE_SIZE - 1 <= u64::MAX,
        ensures
            r == round_up_spec(self.size as int),
    {
        self.round().size()
    }

    /// Returns true if the other region starts within this region's
    /// requested range.
    pub fn collides(&self, other: Self) -> (r: bool)
        ensures
            r == self.spec_collides(other),
    {
        self.start.addr <= other.start.addr && other.start.addr - self.start.addr < self.size
    }

    /// Returns true if the other region starts within this region's actual
    /// range (so, rounded up to the page size).
    pub fn occupies(&self, other: Self) -> (r: bool)
        requires
            self.size + PAGE_SIZE - 1 <= u64::MAX,
        ensures
            r == self.spec_round().spec_collides(other),
    {
        self.round().collides(other)
    }

    /// Return all pages containing a chunk of the region.
    pub fn pages(&self) -> (r: PageIter)
        requires
            self.end_int() <= u64::MAX,
        ensures
            r.next.start == self.start_int() - self.start_int() % PAGE_SIZE as int,
            r.end.start == self.end_int() - self.end_int() % PAGE_SIZE as int,
    {
        Page::range_exclusive(
            Page::containing_address(self.start_address()),
            Page::containing_address(self.end_address()),
        )
    }

    /// Returns the region from the start of self until the start of the
    /// specified region, or `None` when that part is empty.
    pub fn before(self, region: Self) -> (r: Option<Self>)
        requires
            self.start_int() <= region.start_int(),
        ensures
            r == self.spec_before(region),
    {
        let reg = Self::between(self.start, region.start);
        if reg.size == 0 {
            None
        } else {
            Some(reg)
        }
    }

    /// Returns the region from the end of the given region until the end of
    /// self, or `None` when that part is empty.
    pub fn after(self, region: Self) -> (r: Option<Self>)
        requires
            region.end_int() <= self.end_int(),
            self.end_int() <= u64::MAX,
        ensures
            r == self.spec_after(region),
    {
        let reg = Self::between(region.end_address(), self.end_address());
        if reg.size == 0 {
            None
        } else {
            Some(reg)
        }
    }

    /// Re-base an address that lives inside this region onto a new base
    /// region.
    pub fn rebase(self, new_base: Self, address: VirtualAddress) -> (r: VirtualAddress)
        requires
            self.start_int() <= address.addr,
            new_base.start_int() + (address.addr - self.start_int()) <= u64::MAX,
        ensures
            r.addr == new_base.start_int() + (address.addr - self.start_int()),
    {
        let offset = address.addr - self.start.addr;
        VirtualAddress { addr: new_base.start.addr + offset }
    }
}

/// Intersection is commutative, and disjoint regions intersect in the empty
/// region.
pub proof fn lemma_intersect_comm(a: Region, b: Region)
    ensures
        a.spec_intersect(b) == b.spec_intersect(a),
        a.spec_disjoint(b) ==> a.spec_intersect(b).size == 0,
{
}

/// `collides` agrees with non-emptiness of the intersection, for an operand
/// that is non-empty and does not start below `a`. (When `b` starts below
/// `a`, the two notions differ: `[0, 3)` reaches into `[2, 4)` without
/// starting inside it.)
pub proof fn lemma_collides_iff_intersects(a: Region, b: Region)
    requires
        a.start_int() <= b.start_int(),
        b.size > 0,
    ensures
        a.spec_collides(b) <==> a.spec_intersect(b).size > 0,
{
}

/// The part of `a` before a subregion `b` ends no later than `b` starts; the
/// part after starts no earlier than `b` ends; and both are subintervals of
/// `a`.
pub proof fn lemma_before_after_subintervals(a: Region, b: Region)
    requires
        a.start_int() <= b.start_int(),
        b.end_int() <= a.end_int(),
        a.end_int() <= u64::MAX,
    ensures
        a.spec_before(b) matches Some(r) ==> r.end_int() <= b.start_int() && a.start_int()
            <= r.start_int() && r.end_int() <= a.end_int(),
        a.spec_after(b) matches Some(r) ==> r.start_int() >= b.end_int() && a.start_int()
            <= r.start_int() && r.end_int() <= a.end_int(),
{
}

} // verus!
