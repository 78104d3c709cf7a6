//! Virtual-memory management core of a small kernel: physical frame
//! allocation (bump and buddy stages), a model of the page-table mapper,
//! page-aligned region algebra, and per-process user address spaces kept as a
//! set of grants with a parallel free-hole map.
//!
//! Addresses and byte sizes are carried as `u64` throughout: the layout
//! (a 48-bit user half below a high kernel half) is that of a 64-bit machine.

use vstd::prelude::*;

mod addr;
mod flags;
mod frame_alloc;
mod grant;
mod mapper;
mod space;
mod grants;
mod init;
mod kernel_lock;
mod region;

pub use addr::Frame;
pub use addr::Page;
pub use addr::PageIter;
pub use addr::PhysicalAddress;
pub use addr::VirtualAddress;
pub use addr::round_up_pages;
pub use flags::MapFlags;
pub use flags::PageFlags;
pub use flags::page_flags;
pub use flags::map_flags;
pub use flags::kernel_page_flags;
pub use flags::spec_kernel_page_flags;
pub use grant::Grant;
pub use grant::GrantFileRef;
pub use grants::Hole;
pub use grants::UserGrants;
pub use grants::hole_end;
pub use grants::hole_wf;
pub use grants::region_wf;
pub use grants::region_contains;
pub use grants::holes_vec_wf;
pub use grants::seq_in_holes;
pub use grants::grants_vec_wf;
pub use grants::seq_in_grants;
pub use frame_alloc::MemoryArea;
pub use frame_alloc::FrameUsage;
pub use frame_alloc::BumpAllocator;
pub use frame_alloc::area_wf;
pub use frame_alloc::areas_wf;
pub use frame_alloc::areas_total_bytes;
pub use frame_alloc::bump_spec;
pub use frame_alloc::lemma_total_bytes_nonneg;
pub use frame_alloc::FreeBlock;
pub use frame_alloc::BuddyAllocator;
pub use frame_alloc::block_size_ok;
pub use frame_alloc::free_block_wf;
pub use frame_alloc::blocks_wf;
pub use frame_alloc::in_free;
pub use frame_alloc::free_frames;
pub use frame_alloc::LockedAllocator;
pub use frame_alloc::order_bytes;
pub use frame_alloc::lemma_order_bytes_props;
pub use mapper::PageEntry;
pub use mapper::PageFlush;
pub use mapper::Flusher;
pub use mapper::InactiveFlusher;
pub use mapper::PageFlushAll;
pub use mapper::Mapper;
pub use mapper::PhysMem;
pub use space::Table;
pub use space::AddrSpace;
pub use space::setup_new_utable;
pub use space::clone_frames_upto;
pub use init::BootloaderMemoryKind;
pub use init::BootloaderMemoryEntry;
pub use init::init;
pub use init::area_avoids;
pub use init::range_disjoint;
pub use init::carve_spec;
pub use init::covered;
pub use init::areas_sorted;
pub use kernel_lock::KernelLock;
pub use kernel_lock::KernelMapper;
pub use kernel_lock::NO_PROCESSOR;
pub use grants::insert_rel;
pub use grants::take_rel;
pub use grants::lemma_wf_invariants;
pub use grants::lemma_holes_canonical;
pub use grants::lemma_insert_take_restores;
pub use grants::hole_usable_size;
pub use grants::find_free_spec;
pub use grant::UnmapResult;
pub use grant::page_key;
pub use grant::in_page_span;
pub use grant::span_mapped;
pub use grant::span_unmapped;
pub use grant::lemma_zeroed_unmap_roundtrip;
pub use grant::lemma_borrow_unmap_source_intact;
pub use grant::lemma_span_key;
pub use region::Region;
pub use region::round_up_spec;
pub use region::lemma_intersect_comm;
pub use region::lemma_collides_iff_intersects;
pub use region::lemma_before_after_subintervals;

verus! {

/// Size in bytes of one page of virtual or physical memory.
pub const PAGE_SIZE: u64 = 4096;

/// End of the user half of the address space: user pages live in
/// `[0, USER_END_OFFSET)`.
pub const USER_END_OFFSET: u64 = 0x8000_0000_0000;

/// Start of the physmap window, which linearly maps physical memory into the
/// kernel half for in-kernel access.
pub const PHYS_OFFSET: u64 = 0xFFFF_8000_0000_0000;

/// Size of the physmap window: only the first GiB of physical memory is
/// mapped.
pub const PHYSMAP_SIZE: u64 = 0x4000_0000;

/// Virtual base at which the kernel image is mapped.
pub const KERNEL_OFFSET: u64 = 0xFFFF_FFFF_8000_0000;

/// A known-bad virtual address, usable as a placeholder that no mapping can
/// ever occupy.
pub const DANGLING: u64 = 1u64 << 62;

/// The error kinds that the memory core reports to its callers.
#[derive(Clone, Copy, Debug, PartialEq, Eq, Structural)]
pub enum Error {
    /// Out of frames, or out of hole space.
    Enomem,
    /// Unaligned address, zero-size mapping, or address above the user end.
    Einval,
    /// A fixed-noreplace request hit an existing grant.
    Eexist,
    /// An unimplemented path, such as a fixed-address overwrite.
    Eopnotsupp,
}

} // verus!
