//! End-to-end tests of the memory core: the region algebra, the grant
//! container with its hole map, the frame allocators, the mapper model and
//! the grant lifecycle.

use kmem::AddrSpace;
use kmem::BootloaderMemoryEntry;
use kmem::BootloaderMemoryKind;
use kmem::BuddyAllocator;
use kmem::BumpAllocator;
use kmem::Error;
use kmem::Frame;
use kmem::Grant;
use kmem::InactiveFlusher;
use kmem::KernelLock;
use kmem::KernelMapper;
use kmem::LockedAllocator;
use kmem::MapFlags;
use kmem::Mapper;
use kmem::MemoryArea;
use kmem::PAGE_SIZE;
use kmem::Page;
use kmem::PageFlags;
use kmem::PhysMem;
use kmem::PhysicalAddress;
use kmem::Region;
use kmem::USER_END_OFFSET;
use kmem::UserGrants;
use kmem::VirtualAddress;
use kmem::init;
use kmem::map_flags;
use kmem::page_flags;

fn region(start: u64, size: u64) -> Region {
    Region::new(VirtualAddress::new(start), size)
}

fn grant_at(start: u64, size: u64) -> Grant {
    Grant {
        region: region(start, size),
        flags: PageFlags::new().user(true),
        mapped: true,
        owned: false,
        desc_opt: None,
    }
}

/// A small machine: one area of `frames` frames starting at physical 0,
/// nothing consumed by the bump stage.
fn small_allocator(frames: u64) -> LockedAllocator {
    let areas = vec![MemoryArea { base: PhysicalAddress::new(0), size: frames * PAGE_SIZE }];
    let bump = BumpAllocator::new(areas, 0);
    let buddy = BuddyAllocator::new(bump);
    let mut alloc = LockedAllocator::empty();
    alloc.install(buddy);
    alloc
}

#[test]
fn region_collides() {
    assert!(region(0, 2).collides(region(0, 1)));
    assert!(region(0, 2).collides(region(1, 1)));
    assert!(!region(0, 2).collides(region(2, 1)));
    assert!(!region(0, 2).collides(region(3, 1)));
}

#[test]
fn region_intersect_commutes() {
    let a = region(0x1000, 0x3000);
    let b = region(0x2000, 0x4000);
    assert_eq!(a.intersect(b), b.intersect(a));
    assert_eq!(a.intersect(b), region(0x2000, 0x2000));
    let c = region(0x10000, 0x1000);
    assert_eq!(a.intersect(c).size(), 0);
}

#[test]
fn region_before_after() {
    let a = region(0x0, 0x4000);
    let b = region(0x1000, 0x2000);
    let before = a.before(b).unwrap();
    let after = a.after(b).unwrap();
    assert_eq!(before, region(0x0, 0x1000));
    assert_eq!(after, region(0x3000, 0x1000));
    assert!(before.end_address().data() <= b.start_address().data());
    assert!(after.start_address().data() >= 0x3000);
    assert!(a.before(region(0, 0x1000)).is_none());
    assert!(a.after(region(0x1000, 0x3000)).is_none());
}

#[test]
fn region_round_and_rebase() {
    assert_eq!(region(0, 0x1001).round().size(), 0x2000);
    assert_eq!(region(0, 0x1000).round().size(), 0x1000);
    assert_eq!(region(0, 5).full_size(), 0x1000);
    let r = region(0x5000, 0x1000);
    let nb = region(0x9000, 0x1000);
    assert_eq!(r.rebase(nb, VirtualAddress::new(0x5123)).data(), 0x9123);
}

#[test]
fn first_allocation_avoids_null_page() {
    let grants = UserGrants::new();
    let free = grants.find_free(0x4000).unwrap();
    assert_eq!(free.start_address().data(), 0x1000);
    assert_eq!(free.size(), 0x4000);
}

#[test]
fn fixed_noreplace_conflict() {
    let mut grants = UserGrants::new();
    grants.insert(grant_at(0x10000, 0x2000));
    let mut flags = MapFlags::empty();
    flags.map_fixed_noreplace = true;
    let r = grants.find_free_at(VirtualAddress::new(0x11000), 0x1000, flags);
    assert_eq!(r, Err(Error::Eexist));
}

#[test]
fn fixed_overwrite_unsupported() {
    let mut grants = UserGrants::new();
    grants.insert(grant_at(0x10000, 0x2000));
    let mut flags = MapFlags::empty();
    flags.map_fixed = true;
    let r = grants.find_free_at(VirtualAddress::new(0x11000), 0x1000, flags);
    assert_eq!(r, Err(Error::Eopnotsupp));
}

#[test]
fn find_free_at_rejects_bad_addresses() {
    let mut grants = UserGrants::new();
    let flags = MapFlags::empty();
    let r = grants.find_free_at(VirtualAddress::new(0x11001), 0x1000, flags);
    assert_eq!(r, Err(Error::Einval));
    let r = grants.find_free_at(VirtualAddress::new(USER_END_OFFSET - 0x1000), 0x2000, flags);
    assert_eq!(r, Err(Error::Einval));
}

#[test]
fn find_free_at_hint_falls_back() {
    let mut grants = UserGrants::new();
    grants.insert(grant_at(0x10000, 0x2000));
    let flags = MapFlags::empty();
    // the hinted range overlaps: fall back to the first free region
    let r = grants.find_free_at(VirtualAddress::new(0x10000), 0x1000, flags).unwrap();
    assert_eq!(r.start_address().data(), 0x1000);
    // a free hint is honored exactly
    let r = grants.find_free_at(VirtualAddress::new(0x40000), 0x1000, flags).unwrap();
    assert_eq!(r, region(0x40000, 0x1000));
    // a null hint means no preference
    let r = grants.find_free_at(VirtualAddress::new(0), 0x3000, flags).unwrap();
    assert_eq!(r.start_address().data(), 0x1000);
}

#[test]
fn hole_splitting() {
    let mut grants = UserGrants::new();
    grants.insert(grant_at(0x10000, 0x2000));
    let holes = grants.holes();
    assert_eq!(holes.len(), 2);
    assert_eq!(holes[0].start, 0);
    assert_eq!(holes[0].size, 0x10000);
    assert_eq!(holes[1].start, 0x12000);
    assert_eq!(holes[1].size, USER_END_OFFSET - 0x12000);
}

#[test]
fn hole_coalescing_on_remove() {
    let mut grants = UserGrants::new();
    grants.insert(grant_at(0x10000, 0x2000));
    assert!(grants.remove(&region(0x10000, 0x2000)));
    let holes = grants.holes();
    assert_eq!(holes.len(), 1);
    assert_eq!(holes[0].start, 0);
    assert_eq!(holes[0].size, USER_END_OFFSET);
}

#[test]
fn insert_take_restores_container() {
    let mut grants = UserGrants::new();
    grants.insert(grant_at(0x20000, 0x3000));
    let before_inner = grants.iter().len();
    let before_holes = grants.holes().clone();
    let g = grant_at(0x10000, 0x2000);
    grants.insert(g);
    let taken = grants.take(&region(0x10000, 0x2000)).unwrap();
    assert_eq!(taken.region, region(0x10000, 0x2000));
    assert_eq!(grants.iter().len(), before_inner);
    assert_eq!(grants.holes().len(), before_holes.len());
    for (i, h) in grants.holes().iter().enumerate() {
        assert_eq!(h.start, before_holes[i].start);
        assert_eq!(h.size, before_holes[i].size);
    }
    assert!(grants.take(&region(0x70000, 0x1000)).is_none());
}

#[test]
fn contains_and_conflicts() {
    let mut grants = UserGrants::new();
    grants.insert(grant_at(0x10000, 0x2000));
    grants.insert(grant_at(0x14000, 0x1000));
    assert!(grants.contains(VirtualAddress::new(0x10000)).is_some());
    assert!(grants.contains(VirtualAddress::new(0x11fff)).is_some());
    assert!(grants.contains(VirtualAddress::new(0x12000)).is_none());
    let c = grants.conflicts(region(0x11000, 0x4000));
    assert_eq!(c.len(), 2);
    assert!(grants.conflicts(region(0x30000, 0x1000)).is_empty());
}

#[test]
fn find_free_skips_grants() {
    let mut grants = UserGrants::new();
    grants.insert(grant_at(0x1000, 0x2000));
    let free = grants.find_free(0x1000).unwrap();
    assert_eq!(free.start_address().data(), 0x3000);
}

#[test]
fn map_flag_round_trip() {
    let mut flags = MapFlags::empty();
    flags.prot_write = true;
    let pf = page_flags(flags);
    assert!(pf.user);
    assert!(pf.has_write());
    assert!(!pf.has_execute());
    let back = map_flags(pf);
    assert!(back.prot_write && !back.prot_exec);
}

#[test]
fn bump_allocator_walks_areas() {
    let areas = vec![
        MemoryArea { base: PhysicalAddress::new(0x10000), size: 2 * PAGE_SIZE },
        MemoryArea { base: PhysicalAddress::new(0x40000), size: PAGE_SIZE },
    ];
    let mut bump = BumpAllocator::new(areas, 0);
    assert_eq!(bump.allocate_one().unwrap().data(), 0x10000);
    assert_eq!(bump.allocate_one().unwrap().data(), 0x11000);
    assert_eq!(bump.allocate_one().unwrap().data(), 0x40000);
    assert!(bump.allocate_one().is_none());
    assert_eq!(bump.offset(), 3 * PAGE_SIZE);
}

#[test]
fn buddy_allocate_and_free() {
    let mut alloc = small_allocator(8);
    assert_eq!(alloc.usage().total, 8);
    assert_eq!(alloc.usage().used, 0);
    let a = alloc.allocate(2).unwrap();
    assert_eq!(alloc.usage().used, 2);
    let b = alloc.allocate_one().unwrap();
    assert_ne!(a.data(), b.data());
    assert_eq!(alloc.usage().used, 3);
    alloc.free(b, 1);
    alloc.free(a, 2);
    assert_eq!(alloc.usage().used, 0);
    // after freeing everything, a maximal allocation works again
    let c = alloc.allocate(8).unwrap();
    assert_eq!(alloc.usage().used, 8);
    assert!(alloc.allocate_one().is_none());
    alloc.free(c, 8);
}

#[test]
fn zeroed_unmap_returns_frames() {
    let mut alloc = small_allocator(16);
    let mut mem = PhysMem::new();
    let mut mapper = Mapper::create(&mut alloc).unwrap();
    let mut flusher = InactiveFlusher {};
    let used_before = alloc.usage().used;
    let grant = Grant::zeroed(
        Page { start: 0x10000 },
        4,
        PageFlags::new().user(true).write(true),
        &mut mapper,
        &mut alloc,
        &mut mem,
        &mut flusher,
    )
    .unwrap();
    assert!(grant.mapped && grant.is_owned());
    assert_eq!(alloc.usage().used, used_before + 4);
    let result = grant.unmap(&mut mapper, &mut alloc, &mut flusher);
    assert!(result.file_desc.is_none());
    assert_eq!(alloc.usage().used, used_before);
    assert!(mapper.translate(VirtualAddress::new(0x10000)).is_none());
}

#[test]
fn zeroed_out_of_frames_unwinds() {
    let mut alloc = small_allocator(2);
    let mut mem = PhysMem::new();
    let mut mapper = Mapper::create(&mut alloc).unwrap();
    let mut flusher = InactiveFlusher {};
    let used_before = alloc.usage().used;
    let r = Grant::zeroed(
        Page { start: 0x10000 },
        4,
        PageFlags::new().user(true),
        &mut mapper,
        &mut alloc,
        &mut mem,
        &mut flusher,
    );
    assert_eq!(r.err().unwrap(), Error::Enomem);
    assert_eq!(alloc.usage().used, used_before);
    assert!(mapper.translate(VirtualAddress::new(0x10000)).is_none());
}

#[test]
fn borrow_unmap_leaves_source_intact() {
    let mut alloc = small_allocator(16);
    let mut mem = PhysMem::new();
    let mut src_mapper = Mapper::create(&mut alloc).unwrap();
    let mut dst_mapper = Mapper::create(&mut alloc).unwrap();
    let mut flusher = InactiveFlusher {};
    let src = Grant::zeroed(
        Page { start: 0x10000 },
        2,
        PageFlags::new().user(true),
        &mut src_mapper,
        &mut alloc,
        &mut mem,
        &mut flusher,
    )
    .unwrap();
    let borrowed = Grant::reborrow(
        &src,
        Page { start: 0x30000 },
        &mut src_mapper,
        &mut dst_mapper,
        &mut flusher,
    )
    .unwrap();
    assert!(!borrowed.is_owned());
    let (sf, _) = src_mapper.translate(VirtualAddress::new(0x10000)).unwrap();
    let (bf, _) = dst_mapper.translate(VirtualAddress::new(0x30000)).unwrap();
    assert_eq!(sf.data(), bf.data());
    let used = alloc.usage().used;
    borrowed.unmap(&mut dst_mapper, &mut alloc, &mut flusher);
    // the source mapping is intact and no frame was freed
    assert_eq!(alloc.usage().used, used);
    let (sf2, _) = src_mapper.translate(VirtualAddress::new(0x10000)).unwrap();
    assert_eq!(sf2.data(), sf.data());
    src.unmap(&mut src_mapper, &mut alloc, &mut flusher);
}

#[test]
fn transfer_moves_mapping() {
    let mut alloc = small_allocator(16);
    let mut mem = PhysMem::new();
    let mut src_mapper = Mapper::create(&mut alloc).unwrap();
    let mut dst_mapper = Mapper::create(&mut alloc).unwrap();
    let mut flusher = InactiveFlusher {};
    let flags = PageFlags::new().user(true).write(true);
    let src = Grant::zeroed(
        Page { start: 0x10000 },
        2,
        flags,
        &mut src_mapper,
        &mut alloc,
        &mut mem,
        &mut flusher,
    )
    .unwrap();
    let (f0, _) = src_mapper.translate(VirtualAddress::new(0x10000)).unwrap();
    let mut flusher2 = InactiveFlusher {};
    let moved = Grant::transfer(
        src,
        Page { start: 0x50000 },
        &mut src_mapper,
        &mut dst_mapper,
        &mut flusher,
        &mut flusher2,
    )
    .unwrap();
    // the source is unmapped and the destination is mapped to the same
    // frames, with the flags preserved
    assert!(src_mapper.translate(VirtualAddress::new(0x10000)).is_none());
    let (f1, ef) = dst_mapper.translate(VirtualAddress::new(0x50000)).unwrap();
    assert_eq!(f0.data(), f1.data());
    assert!(ef.has_write());
    assert!(moved.mapped && moved.is_owned());
    assert_eq!(moved.region(), &region(0x50000, 0x2000));
    moved.unmap(&mut dst_mapper, &mut alloc, &mut flusher);
}

#[test]
fn extract_splits_grant() {
    let mut g = grant_at(0, 0x4000);
    g.owned = true;
    let (before, middle, after) = g.extract(region(0x1000, 0x2000)).unwrap();
    let before = before.unwrap();
    let after = after.unwrap();
    assert_eq!(before.region, region(0, 0x1000));
    assert_eq!(middle.region, region(0x1000, 0x2000));
    assert_eq!(after.region, region(0x3000, 0x1000));
    assert!(before.is_owned() && middle.is_owned() && after.is_owned());
    assert!(before.mapped && middle.mapped && after.mapped);
}

#[test]
fn addr_space_clone_copies_owned_pages() {
    let mut alloc = small_allocator(64);
    let mut mem = PhysMem::new();
    let mut space = AddrSpace::new(&mut alloc).unwrap();
    let mut flusher = InactiveFlusher {};
    let grant = Grant::zeroed(
        Page { start: 0x10000 },
        1,
        PageFlags::new().user(true).write(true),
        &mut space.table.utable,
        &mut alloc,
        &mut mem,
        &mut flusher,
    )
    .unwrap();
    space.grants.insert(grant);
    let (frame, _) = space.table.utable.translate(VirtualAddress::new(0x10000)).unwrap();
    for i in 0..PAGE_SIZE {
        mem.write_byte(frame.data(), i, 0xA5);
    }
    let clone = space.try_clone(&mut alloc, &mut mem).unwrap();
    let (clone_frame, _) = clone.table.utable.translate(VirtualAddress::new(0x10000)).unwrap();
    assert_ne!(clone_frame.data(), frame.data());
    for i in 0..PAGE_SIZE {
        assert_eq!(mem.read_byte(clone_frame.data(), i), 0xA5);
        assert_eq!(mem.read_byte(frame.data(), i), 0xA5);
    }
    assert_eq!(clone.grants.iter().len(), 1);
    assert_eq!(clone.grants.iter()[0].region, region(0x10000, 0x1000));
    assert!(clone.grants.iter()[0].is_owned());
}

#[test]
fn addr_space_clone_shares_borrowed_pages() {
    let mut alloc = small_allocator(64);
    let mut mem = PhysMem::new();
    let mut space = AddrSpace::new(&mut alloc).unwrap();
    let mut flusher = InactiveFlusher {};
    let grant = Grant::physmap(
        Frame { start: 0x200000 },
        Page { start: 0x20000 },
        2,
        PageFlags::new().user(true),
        &mut space.table.utable,
        &mut flusher,
    )
    .unwrap();
    space.grants.insert(grant);
    let clone = space.try_clone(&mut alloc, &mut mem).unwrap();
    let (f, _) = clone.table.utable.translate(VirtualAddress::new(0x20000)).unwrap();
    assert_eq!(f.data(), 0x200000);
    assert!(!clone.grants.iter()[0].is_owned());
}

#[test]
fn normalizer_carves_and_merges() {
    let entries = vec![
        // a free area straddling the kernel image
        BootloaderMemoryEntry { base: 0x200000, size: 0x400000, kind: BootloaderMemoryKind::Free },
        // a reserved area is ignored
        BootloaderMemoryEntry { base: 0x0, size: 0x100000, kind: BootloaderMemoryKind::Reserved },
        // a free area overlapping the first is merged
        BootloaderMemoryEntry { base: 0x500000, size: 0x100000, kind: BootloaderMemoryKind::Free },
        // an unaligned area is aligned inward
        BootloaderMemoryEntry { base: 0x800001, size: 0x2fff, kind: BootloaderMemoryKind::Free },
    ];
    let areas = init(
        &entries, 0x200000, 0x100000, // kernel
        0x700000, 0x1000, // stack
        0x702000, 0x1000, // env
        0x704000, 0x1000, // acpi
        0x706000, 0x1000, // initfs
    );
    for a in areas.iter() {
        assert_eq!(a.base.data() % PAGE_SIZE, 0);
        assert_eq!(a.size % PAGE_SIZE, 0);
        assert!(a.size > 0);
        // no area touches the kernel image or the low megabyte
        assert!(a.base.data() >= 0x100000);
        assert!(a.base.data() + a.size <= 0x200000 || a.base.data() >= 0x300000);
    }
    // the first entry was pushed above the kernel and merged with the third
    assert_eq!(areas[0].base.data(), 0x300000);
    assert_eq!(areas[0].size, 0x300000);
    // the unaligned entry was aligned inward to [0x801000, 0x803000)
    assert_eq!(areas[1].base.data(), 0x801000);
    assert_eq!(areas[1].size, 0x2000);
}

#[test]
fn kernel_lock_reentrancy() {
    let mut alloc = small_allocator(8);
    let mut lock = KernelLock::new();
    let mapper = Mapper::create(&mut alloc).unwrap();
    let mut outer = KernelMapper::lock(&mut lock, 1, mapper);
    assert!(outer.get_mut().is_some());
    let inner_mapper = Mapper::create(&mut alloc).unwrap();
    let mut inner = KernelMapper::lock(&mut lock, 1, inner_mapper);
    // the nested acquisition is read-only
    assert!(inner.get_mut().is_none());
    inner.unlock(&mut lock);
    outer.unlock(&mut lock);
    assert_eq!(lock.count, 0);
    assert_eq!(lock.owner, kmem::NO_PROCESSOR);
}

#[test]
fn physmap_grant_maps_device_frames() {
    let mut alloc = small_allocator(8);
    let mut mapper = Mapper::create(&mut alloc).unwrap();
    let mut flusher = InactiveFlusher {};
    let g = Grant::physmap(
        Frame { start: 0x100000 },
        Page { start: 0x40000 },
        3,
        PageFlags::new().user(true).write(true),
        &mut mapper,
        &mut flusher,
    )
    .unwrap();
    assert!(!g.is_owned());
    let (f, _) = mapper.translate(VirtualAddress::new(0x41000)).unwrap();
    assert_eq!(f.data(), 0x101000);
    let used = alloc.usage().used;
    g.unmap(&mut mapper, &mut alloc, &mut flusher);
    // borrowed frames are not returned to the allocator
    assert_eq!(alloc.usage().used, used);
}
