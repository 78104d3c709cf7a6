//! A model of the architecture's page-table mapper and of physical page
//! contents. The mapper records which virtual page maps to which frame with
//! which flags; physical memory records the bytes of each frame that has
//! been written. Page-table walks, entry encodings and the TLB are below
//! this model: what the rest of the core relies on is exactly what these
//! operations say.

use vstd::prelude::*;

use std::collections::HashMap;

use crate::PAGE_SIZE;
use crate::PHYSMAP_SIZE;
use crate::addr::PhysicalAddress;
use crate::addr::VirtualAddress;
use crate::flags::PageFlags;
use crate::frame_alloc::LockedAllocator;

verus! {

broadcast use vstd::std_specs::hash::group_hash_axioms;

/// One present leaf entry: the frame a page maps to, and its flags.
#[derive(Clone, Copy, Debug, PartialEq, Eq, Structural)]
pub struct PageEntry {
    /// Base address of the mapped frame.
    pub phys: u64,
    /// The entry's flags.
    pub flags: PageFlags,
}

/// A pending TLB invalidation for one page. The caller must either consume
/// it through a flusher or ignore it deliberately (legal only while the
/// table is not active).
#[must_use]
#[derive(Clone, Copy, Debug)]
pub struct PageFlush {
    /// Start address of the page whose translation became stale.
    pub virt: u64,
}

impl PageFlush {
    /// Discard the invalidation: the table is not the active one, or is
    /// about to be switched away from.
    pub fn ignore(self) {
    }
}

/// A strategy for pending TLB invalidations: consume them at once, batch
/// them, or drop them for an inactive table.
pub trait Flusher {
    /// Take responsibility for one pending invalidation.
    fn consume(&mut self, flush: PageFlush);
}

/// The flusher for tables that are not active anywhere: every token may be
/// dropped.
#[derive(Clone, Copy, Debug)]
pub struct InactiveFlusher {
}

impl Flusher for InactiveFlusher {
    fn consume(&mut self, flush: PageFlush) {
        flush.ignore();
    }
}

/// A flusher that remembers every page it was handed, so that the caller
/// can invalidate them all at once.
#[derive(Debug)]
pub struct PageFlushAll {
    /// The pages whose invalidation is pending.
    pub pages: Vec<u64>,
}

impl PageFlushAll {
    pub fn new() -> (r: Self)
        ensures
            r.pages@ =~= Seq::<u64>::empty(),
    {
        PageFlushAll { pages: Vec::new() }
    }
}

impl Flusher for PageFlushAll {
    fn consume(&mut self, flush: PageFlush)
        ensures
            final(self).pages@ == old(self).pages@.push(flush.virt),
    {
        self.pages.push(flush.virt);
    }
}

/// One page table: the map from virtual page start addresses to present
/// leaf entries, plus the frame holding the table root.
#[derive(Debug)]
pub struct Mapper {
    /// The frame that holds the root of the table.
    pub root: u64,
    /// The present leaf entries, keyed by page start address.
    pub entries: HashMap<u64, PageEntry>,
}

impl Mapper {
    /// The leaf entries as a map.
    pub open spec fn view(self) -> Map<u64, PageEntry> {
        self.entries@
    }

    /// Create an empty table, allocating its root frame.
    pub fn create(alloc: &mut LockedAllocator) -> (r: Option<Mapper>)
        requires
            old(alloc).wf(),
        ensures
            final(alloc).wf(),
            final(alloc).total() == old(alloc).total(),
            final(alloc).initialized() == old(alloc).initialized(),
            match r {
                Some(m) => {
                    &&& old(alloc).initialized()
                    &&& m@ =~= Map::<u64, PageEntry>::empty()
                    &&& final(alloc).used() == old(alloc).used() + 1
                    &&& m.root as int % PAGE_SIZE as int == 0
                    &&& forall|a: int| #[trigger] final(alloc).is_free(a) ==> old(alloc).is_free(a)
                },
                None => {
                    &&& *final(alloc) == *old(alloc)
                    &&& old(alloc).inner matches Some(b) ==> forall|i: int|
                        0 <= i < b.blocks@.len() ==> (#[trigger] b.blocks@[i]).size < PAGE_SIZE
                },
            },
    {
        match alloc.allocate_one() {
            Some(frame) => Some(Mapper { root: frame.data(), entries: HashMap::new() }),
            None => None,
        }
    }

    /// Install a leaf entry mapping `virt` to `phys` with the given flags.
    /// The page must not be mapped yet.
    pub fn map_phys(&mut self, virt: VirtualAddress, phys: PhysicalAddress, flags: PageFlags) -> (r:
        Option<PageFlush>)
        requires
            virt.addr as int % PAGE_SIZE as int == 0,
            !old(self)@.contains_key(virt.addr),
        ensures
            final(self).root == old(self).root,
            r matches Some(f) && f.virt == virt.addr,
            final(self)@ == old(self)@.insert(virt.addr, PageEntry { phys: phys.addr, flags }),
    {
        self.entries.insert(virt.addr, PageEntry { phys: phys.addr, flags });
        Some(PageFlush { virt: virt.addr })
    }

    /// Allocate a zero-filled frame and map `virt` to it. `None`, with
    /// nothing changed, when no frame is left.
    pub fn map(
        &mut self,
        virt: VirtualAddress,
        flags: PageFlags,
        alloc: &mut LockedAllocator,
        mem: &mut PhysMem,
    ) -> (r: Option<PageFlush>)
        requires
            virt.addr as int % PAGE_SIZE as int == 0,
            !old(self)@.contains_key(virt.addr),
            old(alloc).wf(),
        ensures
            final(self).root == old(self).root,
            final(alloc).wf(),
            final(alloc).total() == old(alloc).total(),
            final(alloc).initialized() == old(alloc).initialized(),
            match r {
                Some(f) => {
                    &&& f.virt == virt.addr
                    &&& final(self)@.contains_key(virt.addr)
                    &&& final(self)@ == old(self)@.insert(
                        virt.addr,
                        final(self)@[virt.addr],
                    )
                    &&& final(self)@[virt.addr].flags == flags
                    &&& final(self)@[virt.addr].phys as int % PAGE_SIZE as int == 0
                    &&& final(self)@[virt.addr].phys + PAGE_SIZE <= PHYSMAP_SIZE
                    &&& old(alloc).is_free(final(self)@[virt.addr].phys as int)
                    &&& forall|a: int|
                        final(self)@[virt.addr].phys <= a < final(self)@[virt.addr].phys
                            + PAGE_SIZE ==> old(alloc).is_free(a)
                    &&& final(alloc).used() == old(alloc).used() + 1
                    &&& forall|a: int|
                        #[trigger] final(alloc).is_free(a) <==> (old(alloc).is_free(a) && !(
                        final(self)@[virt.addr].phys <= a < final(self)@[virt.addr].phys
                            + PAGE_SIZE))
                    &&& final(mem)@ == old(mem)@.insert(
                        final(self)@[virt.addr].phys,
                        final(mem)@[final(self)@[virt.addr].phys],
                    )
                    &&& final(mem)@[final(self)@[virt.addr].phys]@ == Seq::new(
                        PAGE_SIZE as nat,
                        |i: int| 0u8,
                    )
                    &&& old(mem).wf() ==> final(mem).wf()
                },
                None => {
                    &&& *final(self) == *old(self)
                    &&& *final(alloc) == *old(alloc)
                    &&& *final(mem) == *old(mem)
                    &&& old(alloc).inner matches Some(b) ==> forall|i: int|
                        0 <= i < b.blocks@.len() ==> (#[trigger] b.blocks@[i]).size < PAGE_SIZE
                },
            },
    {
        match alloc.allocate_one() {
            Some(frame) => {
                mem.zero_frame(frame.data());
                self.entries.insert(virt.addr, PageEntry { phys: frame.data(), flags });
                Some(PageFlush { virt: virt.addr })
            },
            None => None,
        }
    }

    /// Clear the leaf entry of `virt`, returning the frame it mapped to,
    /// its flags, and the pending invalidation; `None` when the page was
    /// not mapped.
    pub fn unmap_phys(&mut self, virt: VirtualAddress) -> (r: Option<(
        PhysicalAddress,
        PageFlags,
        PageFlush,
    )>)
        ensures
            final(self).root == old(self).root,
            match r {
                Some((phys, flags, f)) => {
                    &&& old(self)@.contains_key(virt.addr)
                    &&& phys.addr == old(self)@[virt.addr].phys
                    &&& flags == old(self)@[virt.addr].flags
                    &&& f.virt == virt.addr
                    &&& final(self)@ == old(self)@.remove(virt.addr)
                },
                None => {
                    &&& !old(self)@.contains_key(virt.addr)
                    &&& final(self)@ == old(self)@
                    &&& final(self).root == old(self).root
                },
            },
    {
        let r = self.entries.remove(&virt.addr);
        proof {
            if !old(self)@.contains_key(virt.addr) {
                assert(old(self)@.remove(virt.addr) =~= old(self)@);
            }
        }
        match r {
            Some(entry) => Some(
                (
                    PhysicalAddress { addr: entry.phys },
                    entry.flags,
                    PageFlush { virt: virt.addr },
                ),
            ),
            None => None,
        }
    }

    /// Walk the table without modifying it: the frame and flags the page
    /// of `virt` maps to, if present.
    pub fn translate(&self, virt: VirtualAddress) -> (r: Option<(PhysicalAddress, PageFlags)>)
        requires
            virt.addr as int % PAGE_SIZE as int == 0,
        ensures
            match r {
                Some((phys, flags)) => {
                    &&& self@.contains_key(virt.addr)
                    &&& phys.addr == self@[virt.addr].phys
                    &&& flags == self@[virt.addr].flags
                },
                None => !self@.contains_key(virt.addr),
            },
    {
        match self.entries.get(&virt.addr) {
            Some(entry) => Some((PhysicalAddress { addr: entry.phys }, entry.flags)),
            None => None,
        }
    }

    /// Make this table the CPU's active one.
    pub fn make_current(&self, active_root: &mut u64)
        ensures
            *final(active_root) == self.root,
    {
        *active_root = self.root;
    }

    /// Whether this table is the CPU's active one.
    pub fn is_current(&self, active_root: u64) -> (r: bool)
        ensures
            r == (self.root == active_root),
    {
        self.root == active_root
    }
}

/// The contents of physical memory, frame by frame: the bytes of every
/// frame something has written through the physmap window. Freed frames
/// keep their bytes, as real memory does.
#[derive(Debug)]
pub struct PhysMem {
    /// The bytes of each written frame, keyed by frame start address.
    pub frames: HashMap<u64, Vec<u8>>,
}

impl PhysMem {
    /// The written frames as a map from frame start to page bytes.
    pub open spec fn view(self) -> Map<u64, Vec<u8>> {
        self.frames@
    }

    /// Whether every recorded frame holds exactly one page of bytes.
    pub open spec fn wf(self) -> bool {
        forall|f: u64| self@.contains_key(f) ==> (#[trigger] self@[f])@.len() == PAGE_SIZE
    }

    /// Memory nothing has written yet.
    pub fn new() -> (r: Self)
        ensures
            r.wf(),
            r@ =~= Map::<u64, Vec<u8>>::empty(),
    {
        PhysMem { frames: HashMap::new() }
    }

    /// Fill the frame at `frame` with zeroes.
    pub fn zero_frame(&mut self, frame: u64)
        ensures
            final(self)@ == old(self)@.insert(frame, final(self)@[frame]),
            final(self)@[frame]@ == Seq::new(PAGE_SIZE as nat, |i: int| 0u8),
            old(self).wf() ==> final(self).wf(),
    {
        let mut bytes: Vec<u8> = Vec::new();
        let mut i: u64 = 0;
        while i < PAGE_SIZE
            invariant
                0 <= i <= PAGE_SIZE,
                bytes@.len() == i,
                forall|k: int| 0 <= k < i ==> bytes@[k] == 0u8,
            decreases PAGE_SIZE - i,
        {
            bytes.push(0u8);
            i += 1;
        }
        proof {
            assert(bytes@ =~= Seq::new(PAGE_SIZE as nat, |i: int| 0u8));
        }
        self.frames.insert(frame, bytes);
    }

    /// Read one byte of a written frame.
    pub fn read_byte(&self, frame: u64, offset: u64) -> (r: u8)
        requires
            self@.contains_key(frame),
            self.wf(),
            offset < PAGE_SIZE,
        ensures
            r == self@[frame]@[offset as int],
    {
        let bytes = self.frames.get(&frame).unwrap();
        bytes[offset as usize]
    }

    /// Write one byte of a written frame.
    pub fn write_byte(&mut self, frame: u64, offset: u64, value: u8)
        requires
            old(self)@.contains_key(frame),
            old(self).wf(),
            offset < PAGE_SIZE,
        ensures
            final(self).wf(),
            final(self)@ == old(self)@.insert(
                frame,
                final(self)@[frame],
            ),
            final(self)@[frame]@ == old(self)@[frame]@.update(offset as int, value),
    {
        let mut bytes = self.frames.remove(&frame).unwrap();
        bytes[offset as usize] = value;
        self.frames.insert(frame, bytes);
    }

    /// Copy the page at frame `src` over the page at frame `dst`, as the
    /// kernel does through the physmap window.
    pub fn copy_frame(&mut self, src: u64, dst: u64)
        requires
            old(self)@.contains_key(src),
            old(self)@.contains_key(dst),
            old(self).wf(),
        ensures
            final(self).wf(),
            final(self)@ == old(self)@.insert(dst, final(self)@[dst]),
            final(self)@[dst]@ == old(self)@[src]@,
    {
        let mut bytes: Vec<u8> = Vec::new();
        let mut i: u64 = 0;
        while i < PAGE_SIZE
            invariant
                0 <= i <= PAGE_SIZE,
                bytes@.len() == i,
                self@.contains_key(src),
                self.wf(),
                *self == *old(self),
                forall|k: int| 0 <= k < i ==> bytes@[k] == self@[src]@[k],
            decreases PAGE_SIZE - i,
        {
            let b = self.read_byte(src, i);
            bytes.push(b);
            i += 1;
        }
        proof {
            assert(bytes@ =~= self@[src]@);
        }
        self.frames.insert(dst, bytes);
    }
}

} // verus!
