//! Address and page-unit types: opaque wrappers over an integer address,
//! with arithmetic only through helper methods.

use vstd::prelude::*;

use crate::PAGE_SIZE;

verus! {

/// A physical address.
#[derive(Clone, Copy, Debug, PartialEq, Eq, Structural)]
pub struct PhysicalAddress {
    pub addr: u64,
}

impl PhysicalAddress {
    pub fn new(addr: u64) -> (r: Self)
        ensures
            r.addr == addr,
    {
        Self { addr }
    }

    pub fn data(&self) -> (r: u64)
        ensures
            r == self.addr,
    {
        self.addr
    }

    pub fn add(self, offset: u64) -> (r: Self)
        requires
            self.addr + offset <= u64::MAX,
        ensures
            r.addr == self.addr + offset,
    {
        Self { addr: self.addr + offset }
    }
}

/// A virtual address. Virtual addresses below `USER_END_OFFSET` form the user
/// half; the rest is the kernel half.
#[derive(Clone, Copy, Debug, PartialEq, Eq, Structural)]
pub struct VirtualAddress {
    pub addr: u64,
}

impl VirtualAddress {
    pub fn new(addr: u64) -> (r: Self)
        ensures
            r.addr == addr,
    {
        Self { addr }
    }

    pub fn data(&self) -> (r: u64)
        ensures
            r == self.addr,
    {
        self.addr
    }
}

/// Round `size` up to the nearest multiple of the page size.
pub fn round_up_pages(size: u64) -> (r: u64)
    requires
        size + PAGE_SIZE - 1 <= u64::MAX,
    ensures
        r % PAGE_SIZE == 0,
        size <= r < size + PAGE_SIZE,
        r == crate::region::round_up_spec(size as int),
{
    let rem = size % PAGE_SIZE;
    if rem == 0 {
        size
    } else {
        size - rem + PAGE_SIZE
    }
}

/// A page-sized unit of virtual memory, identified by its page-aligned start
/// address.
#[derive(Clone, Copy, Debug, PartialEq, Eq, Structural)]
pub struct Page {
    pub start: u64,
}

impl Page {
    /// Whether this value denotes a real page: its start address is aligned.
    pub open spec fn wf(self) -> bool {
        self.start as int % PAGE_SIZE as int == 0
    }

    /// The page that contains the given virtual address.
    pub fn containing_address(address: VirtualAddress) -> (r: Self)
        ensures
            r.wf(),
            r.start == address.addr as int - (address.addr as int % PAGE_SIZE as int),
    {
        Self { start: address.addr - address.addr % PAGE_SIZE }
    }

    pub fn start_address(&self) -> (r: VirtualAddress)
        ensures
            r.addr == self.start,
    {
        VirtualAddress { addr: self.start }
    }

    /// The page `n` pages above this one.
    pub fn next_by(&self, n: u64) -> (r: Self)
        requires
            self.start + n * PAGE_SIZE <= u64::MAX,
        ensures
            r.start == self.start + n * PAGE_SIZE,
            self.wf() ==> r.wf(),
    {
        Self { start: self.start + n * PAGE_SIZE }
    }

    /// The half-open range of pages `[start, end)`.
    pub fn range_exclusive(start: Page, end: Page) -> (r: PageIter)
        ensures
            r.next == start,
            r.end == end,
    {
        PageIter { next: start, end }
    }
}

/// A half-open iterator over a range of pages.
#[derive(Clone, Copy, Debug)]
pub struct PageIter {
    pub next: Page,
    pub end: Page,
}

impl PageIter {
    /// Yield the next page of the range, if one is left.
    pub fn next(&mut self) -> (r: Option<Page>)
        requires
            old(self).next.start + PAGE_SIZE <= u64::MAX,
        ensures
            final(self).end == old(self).end,
            if old(self).next.start < old(self).end.start {
                &&& r == Some(old(self).next)
                &&& final(self).next.start == old(self).next.start + PAGE_SIZE
            } else {
                &&& r is None
                &&& *final(self) == *old(self)
            },
    {
        if self.next.start < self.end.start {
            let page = self.next;
            self.next = Page { start: self.next.start + PAGE_SIZE };
            Some(page)
        } else {
            None
        }
    }
}

/// A page-sized unit of physical memory (a frame), identified by its
/// page-aligned base address.
#[derive(Clone, Copy, Debug, PartialEq, Eq, Structural)]
pub struct Frame {
    pub start: u64,
}

impl Frame {
    /// Whether this value denotes a real frame: its base address is aligned.
    pub open spec fn wf(self) -> bool {
        self.start as int % PAGE_SIZE as int == 0
    }

    /// The frame that contains the given physical address.
    pub fn containing_address(address: PhysicalAddress) -> (r: Self)
        ensures
            r.wf(),
            r.start == address.addr as int - (address.addr as int % PAGE_SIZE as int),
    {
        Self { start: address.addr - address.addr % PAGE_SIZE }
    }

    pub fn start_address(&self) -> (r: PhysicalAddress)
        ensures
            r.addr == self.start,
    {
        PhysicalAddress { addr: self.start }
    }

    /// The frame `n` frames above this one.
    pub fn next_by(&self, n: u64) -> (r: Self)
        requires
            self.start + n * PAGE_SIZE <= u64::MAX,
        ensures
            r.start == self.start + n * PAGE_SIZE,
            self.wf() ==> r.wf(),
    {
        Self { start: self.start + n * PAGE_SIZE }
    }
}

} // verus!
