//! One grant: a mapped, contiguous, page-aligned virtual range in a user
//! address space, with its permissions, ownership status and optional
//! backing file reference.

use vstd::prelude::*;

use crate::Error;
use crate::PAGE_SIZE;
use crate::PHYSMAP_SIZE;
use crate::USER_END_OFFSET;
use crate::addr::Frame;
use crate::addr::Page;
use crate::addr::VirtualAddress;
use crate::flags::MapFlags;
use crate::flags::PageFlags;
use crate::frame_alloc::LockedAllocator;
use crate::mapper::Flusher;
use crate::mapper::Mapper;
use crate::mapper::PageEntry;
use crate::mapper::PhysMem;
use crate::region::Region;

verus! {

/// The start address of the `i`-th page above `base`.
pub open spec fn page_key(base: u64, i: int) -> u64 {
    (base + i * PAGE_SIZE) as u64
}

/// Whether `k` is the start of one of the `count` pages above `base`.
pub open spec fn in_page_span(k: u64, base: u64, count: u64) -> bool {
    base <= k < base + count * PAGE_SIZE && (k as int) % PAGE_SIZE as int == 0
}

/// Every page of the span is absent from the table.
pub open spec fn span_unmapped(m: Map<u64, PageEntry>, base: u64, count: u64) -> bool {
    forall|i: int| 0 <= i < count ==> !m.contains_key(#[trigger] page_key(base, i))
}

/// Every page of the span is present in the table.
pub open spec fn span_mapped(m: Map<u64, PageEntry>, base: u64, count: u64) -> bool {
    forall|i: int| 0 <= i < count ==> m.contains_key(#[trigger] page_key(base, i))
}

/// A page-span member is one of the span's page keys.
pub proof fn lemma_span_key(k: u64, base: u64, count: u64)
    requires
        in_page_span(k, base, count),
        base as int % PAGE_SIZE as int == 0,
    ensures
        exists|i: int| 0 <= i < count && k == page_key(base, i),
{
    let p = PAGE_SIZE as int;
    let i = (k - base) as int / p;
    vstd::arithmetic::div_mod::lemma_sub_mod_noop(k as int, base as int, p);
    vstd::arithmetic::div_mod::lemma_fundamental_div_mod((k - base) as int, p);
    assert((k - base) as int == p * i);
    assert(0 <= i < count) by (nonlinear_arith)
        requires
            (k - base) as int == p * i,
            0 <= (k - base) as int,
            (k as int) < base + count * p,
            k >= base,
            p > 0,
    ;
    assert(k == page_key(base, i)) by (nonlinear_arith)
        requires
            (k - base) as int == p * i,
            k >= base,
            page_key(base, i) == ((base + i * p) as u64),
            base + i * p == k,
    ;
}

/// An opaque reference to a backing file: a descriptor handle, the byte
/// offset of the mapping, and the original map flags. The memory core never
/// interprets it; it only preserves it across clones and returns it from
/// unmap.
#[derive(Clone, Copy, Debug, PartialEq, Eq, Structural)]
pub struct GrantFileRef {
    /// The file-descriptor handle, owned by the file layer.
    pub desc: u64,
    /// Byte offset of the mapping within the file.
    pub offset: u64,
    /// The flags the mapping was created with.
    pub flags: MapFlags,
}

/// One mapped sub-region of a user address space.
#[derive(Clone, Copy, Debug)]
pub struct Grant {
    /// The virtual interval the grant occupies.
    pub region: Region,
    /// The page-table entry flags of every page of the grant.
    pub flags: PageFlags,
    /// Whether the grant's pages are present in a page table. True from
    /// construction until `unmap` returns.
    pub mapped: bool,
    /// Whether the backing frames were allocated for this grant and must be
    /// returned to the frame allocator on unmap.
    pub owned: bool,
    /// The backing file reference, if the mapping is file-backed.
    pub desc_opt: Option<GrantFileRef>,
}

impl Grant {
    pub fn is_owned(&self) -> (r: bool)
        ensures
            r == self.owned,
    {
        self.owned
    }

    pub fn region(&self) -> (r: &Region)
        ensures
            r == self.region,
    {
        &self.region
    }

    pub fn flags(&self) -> (r: PageFlags)
        ensures
            r == self.flags,
    {
        self.flags
    }

    /// Get the start address of the grant's region.
    pub fn start_address(&self) -> (r: crate::addr::VirtualAddress)
        ensures
            r == self.region.start,
    {
        self.region.start_address()
    }

    /// Get the exact size of the grant's region.
    pub fn size(&self) -> (r: u64)
        ensures
            r == self.region.size,
    {
        self.region.size()
    }

    /// Map `page_count` pages at `dst` to the consecutive frames starting
    /// at `phys`: a borrowed mapping of device or otherwise foreign memory,
    /// never freed by this grant.
    #[verifier::loop_isolation(false)]
    pub fn physmap<F: Flusher>(
        phys: Frame,
        dst: Page,
        page_count: u64,
        flags: PageFlags,
        mapper: &mut Mapper,
        flusher: &mut F,
    ) -> (r: Result<Grant, Error>)
        requires
            dst.wf(),
            phys.wf(),
            page_count > 0,
            dst.start + page_count * PAGE_SIZE <= USER_END_OFFSET,
            phys.start + page_count * PAGE_SIZE <= u64::MAX,
            span_unmapped(old(mapper)@, dst.start, page_count),
        ensures
            final(mapper).root == old(mapper).root,
            match r {
                Ok(g) => {
                    &&& g.region == (Region {
                        start: VirtualAddress { addr: dst.start },
                        size: (page_count * PAGE_SIZE) as u64,
                    })
                    &&& g.flags == flags
                    &&& g.mapped
                    &&& !g.owned
                    &&& g.desc_opt is None
                    &&& forall|i: int|
                        0 <= i < page_count ==> final(mapper)@.contains_key(
                            #[trigger] page_key(dst.start, i),
                        ) && final(mapper)@[page_key(dst.start, i)] == (PageEntry {
                            phys: page_key(phys.start, i),
                            flags,
                        })
                    &&& forall|k: u64|
                        #![trigger final(mapper)@.contains_key(k)]
                        #![trigger final(mapper)@[k]]
                        !in_page_span(k, dst.start, page_count) ==> final(mapper)@.contains_key(k)
                            == old(mapper)@.contains_key(k) && (old(mapper)@.contains_key(k)
                            ==> final(mapper)@[k] == old(mapper)@[k])
                },
                Err(_) => false,
            },
    {
        let mut index: u64 = 0;
        while index < page_count
            invariant
                0 <= index <= page_count,
                mapper.root == old(mapper).root,
                forall|i: int|
                    0 <= i < index ==> mapper@.contains_key(#[trigger] page_key(dst.start, i))
                        && mapper@[page_key(dst.start, i)] == (PageEntry {
                        phys: page_key(phys.start, i),
                        flags,
                    }),
                forall|k: u64|
                    #![trigger mapper@.contains_key(k)]
                    #![trigger mapper@[k]]
                    !in_page_span(k, dst.start, index) ==> mapper@.contains_key(k) == old(mapper)@.contains_key(k) && (old(mapper)@.contains_key(k) ==> mapper@[k] == old(mapper)@[k]),
            decreases page_count - index,
        {
            let page = dst.next_by(index);
            let frame = phys.next_by(index);
            proof {
                assert(page.start == page_key(dst.start, index as int));
                assert(!old(mapper)@.contains_key(page.start)) by {
                    assert(!old(mapper)@.contains_key(page_key(dst.start, index as int)));
                }
                assert(!mapper@.contains_key(page.start));
            }
            let flush = mapper.map_phys(page.start_address(), frame.start_address(), flags)
                .unwrap();
            flusher.consume(flush);
            index += 1;
            proof {
                assert forall|i: int|
                    0 <= i < index implies mapper@.contains_key(
                    #[trigger] page_key(dst.start, i),
                ) && mapper@[page_key(dst.start, i)] == (PageEntry {
                    phys: page_key(phys.start, i),
                    flags,
                }) by {
                    if i < index - 1 {
                        assert(page_key(dst.start, i) != page.start);
                    }
                }
            }
        }
        Ok(
            Grant {
                region: Region {
                    start: VirtualAddress { addr: dst.start },
                    size: page_count * PAGE_SIZE,
                },
                flags,
                mapped: true,
                owned: false,
                desc_opt: None,
            },
        )
    }

    /// Allocate `page_count` fresh zero-filled frames and map them at
    /// `dst`. The grant owns the frames: unmap returns them. Fails with
    /// `Enomem`, unwinding every mapping it made, exactly when the
    /// allocator has fewer free frames than the request.
    #[verifier::rlimit(100)]
    #[verifier::spinoff_prover]
    pub fn zeroed<F: Flusher>(
        dst: Page,
        page_count: u64,
        flags: PageFlags,
        mapper: &mut Mapper,
        alloc: &mut LockedAllocator,
        mem: &mut PhysMem,
        flusher: &mut F,
    ) -> (r: Result<Grant, Error>)
        requires
            dst.wf(),
            page_count > 0,
            dst.start + page_count * PAGE_SIZE <= USER_END_OFFSET,
            span_unmapped(old(mapper)@, dst.start, page_count),
            old(alloc).wf(),
            old(mem).wf(),
        ensures
            final(mapper).root == old(mapper).root,
            final(alloc).wf(),
            final(mem).wf(),
            final(alloc).total() == old(alloc).total(),
            final(alloc).initialized() == old(alloc).initialized(),
            r is Ok <==> (old(alloc).initialized() && old(alloc).total() - old(alloc).used()
                >= page_count),
            match r {
                Ok(g) => {
                    &&& g.region == (Region {
                        start: VirtualAddress { addr: dst.start },
                        size: (page_count * PAGE_SIZE) as u64,
                    })
                    &&& g.flags == flags
                    &&& g.mapped
                    &&& g.owned
                    &&& g.desc_opt is None
                    &&& final(alloc).used() == old(alloc).used() + page_count
                    &&& forall|i: int|
                        0 <= i < page_count ==> final(mapper)@.contains_key(
                            #[trigger] page_key(dst.start, i),
                        ) && final(mapper)@[page_key(dst.start, i)].flags == flags
                    &&& forall|i: int|
                        0 <= i < page_count ==> (#[trigger] final(mapper)@[page_key(
                            dst.start,
                            i,
                        )]).phys as int % PAGE_SIZE as int == 0 && final(mapper)@[page_key(
                            dst.start,
                            i,
                        )].phys + PAGE_SIZE <= PHYSMAP_SIZE && old(alloc).is_free(
                            final(mapper)@[page_key(dst.start, i)].phys as int,
                        ) && !final(alloc).is_free(
                            final(mapper)@[page_key(dst.start, i)].phys as int,
                        )
                    &&& forall|i: int, j: int|
                        0 <= i < page_count && 0 <= j < page_count && i != j ==> (
                        #[trigger] final(mapper)@[page_key(dst.start, i)]).phys != (
                        #[trigger] final(mapper)@[page_key(dst.start, j)]).phys
                    &&& forall|i: int, a: int|
                        #![trigger final(mapper)@[page_key(dst.start, i)], old(alloc).is_free(a)]
                        0 <= i < page_count && final(mapper)@[page_key(dst.start, i)].phys <= a
                            < final(mapper)@[page_key(dst.start, i)].phys + PAGE_SIZE ==> old(
                            alloc,
                        ).is_free(a)
                    &&& forall|a: int|
                        #[trigger] final(alloc).is_free(a) <==> (old(alloc).is_free(a) && !(
                        exists|i: int|
                            0 <= i < page_count && (#[trigger] final(mapper)@[page_key(
                                dst.start,
                                i,
                            )]).phys <= a < final(mapper)@[page_key(dst.start, i)].phys
                                + PAGE_SIZE))
                    &&& forall|i: int|
                        0 <= i < page_count ==> final(mem)@.contains_key(
                            (#[trigger] final(mapper)@[page_key(dst.start, i)]).phys,
                        ) && final(mem)@[final(mapper)@[page_key(dst.start, i)].phys]@
                            == Seq::new(PAGE_SIZE as nat, |b: int| 0u8)
                    &&& forall|k: u64|
                        #![trigger final(mapper)@.contains_key(k)]
                        #![trigger final(mapper)@[k]]
                        !in_page_span(k, dst.start, page_count) ==> final(mapper)@.contains_key(k)
                            == old(mapper)@.contains_key(k) && (old(mapper)@.contains_key(k)
                            ==> final(mapper)@[k] == old(mapper)@[k])
                    &&& forall|f: u64|
                        #[trigger] old(mem)@.contains_key(f) ==> final(mem)@.contains_key(f)
                    &&& forall|f: u64|
                        #[trigger] old(mem)@.contains_key(f) && !old(alloc).is_free(f as int)
                            ==> final(mem)@[f] == old(mem)@[f]
                },
                Err(e) => {
                    &&& e == Error::Enomem
                    &&& final(mapper)@ == old(mapper)@
                    &&& final(alloc).used() == old(alloc).used()
                    &&& forall|a: int|
                        #[trigger] final(alloc).is_free(a) <==> old(alloc).is_free(a)
                    &&& forall|f: u64|
                        #[trigger] old(mem)@.contains_key(f) ==> final(mem)@.contains_key(f)
                    &&& forall|f: u64|
                        #[trigger] old(mem)@.contains_key(f) && !old(alloc).is_free(f as int)
                            ==> final(mem)@[f] == old(mem)@[f]
                },
            },
    {
        let mut index: u64 = 0;
        while index < page_count
            invariant
                0 <= index <= page_count,
                dst.wf(),
                page_count > 0,
                dst.start + page_count * PAGE_SIZE <= USER_END_OFFSET,
                span_unmapped(old(mapper)@, dst.start, page_count),
                old(alloc).wf(),
                old(mem).wf(),
                mapper.root == old(mapper).root,
                alloc.wf(),
                mem.wf(),
                alloc.total() == old(alloc).total(),
                alloc.initialized() == old(alloc).initialized(),
                alloc.used() == old(alloc).used() + index,
                index > 0 ==> old(alloc).initialized(),
                forall|i: int|
                    0 <= i < index ==> mapper@.contains_key(#[trigger] page_key(dst.start, i))
                        && mapper@[page_key(dst.start, i)].flags == flags,
                forall|i: int|
                    0 <= i < index ==> (#[trigger] mapper@[page_key(dst.start, i)]).phys as int
                        % PAGE_SIZE as int == 0 && mapper@[page_key(dst.start, i)].phys + PAGE_SIZE
                        <= PHYSMAP_SIZE && !alloc.is_free(
                        mapper@[page_key(dst.start, i)].phys as int,
                    ),
                forall|i: int, a: int|
                    #![trigger mapper@[page_key(dst.start, i)], old(alloc).is_free(a)]
                    0 <= i < index && mapper@[page_key(dst.start, i)].phys <= a < mapper@[page_key(
                        dst.start,
                        i,
                    )].phys + PAGE_SIZE ==> old(alloc).is_free(a),
                forall|i: int, j: int|
                    0 <= i < index && 0 <= j < index && i != j ==> (#[trigger] mapper@[page_key(
                        dst.start,
                        i,
                    )]).phys != (#[trigger] mapper@[page_key(dst.start, j)]).phys,
                forall|a: int|
                    #[trigger] alloc.is_free(a) <==> (old(alloc).is_free(a) && !(exists|i: int|
                        0 <= i < index && (#[trigger] mapper@[page_key(dst.start, i)]).phys <= a
                            < mapper@[page_key(dst.start, i)].phys + PAGE_SIZE)),
                forall|i: int|
                    0 <= i < index ==> mem@.contains_key(
                        (#[trigger] mapper@[page_key(dst.start, i)]).phys,
                    ) && mem@[mapper@[page_key(dst.start, i)].phys]@ == Seq::new(
                        PAGE_SIZE as nat,
                        |b: int| 0u8,
                    ),
                forall|f: u64| #[trigger] old(mem)@.contains_key(f) ==> mem@.contains_key(f),
                forall|f: u64|
                    #[trigger] old(mem)@.contains_key(f) && !old(alloc).is_free(f as int)
                        ==> mem@[f] == old(mem)@[f],
                forall|k: u64|
                    #![trigger mapper@.contains_key(k)]
                    #![trigger mapper@[k]]
                    !in_page_span(k, dst.start, index) ==> mapper@.contains_key(k) == old(mapper)@.contains_key(k) && (old(mapper)@.contains_key(k) ==> mapper@[k] == old(mapper)@[k]),
            decreases page_count - index,
        {
            let page = dst.next_by(index);
            proof {
                assert(page.start == page_key(dst.start, index as int));
                assert(!old(mapper)@.contains_key(page_key(dst.start, index as int)));
                assert(!mapper@.contains_key(page.start));
            }
            let ghost pre_mapper = mapper@;
            let ghost pre_alloc = *alloc;
            match mapper.map(page.start_address(), flags, alloc, mem) {
                Some(flush) => {
                    flusher.consume(flush);
                    proof {
                        let newf = mapper@[page.start].phys;
                        assert(forall|i: int|
                            0 <= i < index ==> #[trigger] page_key(dst.start, i) != page.start
                                && pre_mapper.contains_key(page_key(dst.start, i))
                                && mapper@[page_key(dst.start, i)] == pre_mapper[page_key(
                                dst.start,
                                i,
                            )]);
                        assert(pre_alloc.is_free(newf as int));
                        assert forall|a: int| newf <= a < newf + PAGE_SIZE implies old(alloc).is_free(a) by {
                            assert(pre_alloc.is_free(a));
                            assert(pre_alloc.is_free(a) ==> old(alloc).is_free(a));
                        }
                        assert forall|i: int|
                            0 <= i < index + 1 implies !alloc.is_free(
                            (#[trigger] mapper@[page_key(dst.start, i)]).phys as int,
                        ) by {
                            if i < index {
                                assert(!pre_alloc.is_free(
                                    pre_mapper[page_key(dst.start, i)].phys as int,
                                ));
                            }
                        }
                        assert forall|i: int, j: int|
                            0 <= i < index + 1 && 0 <= j < index + 1 && i != j implies (
                        #[trigger] mapper@[page_key(dst.start, i)]).phys != (
                        #[trigger] mapper@[page_key(dst.start, j)]).phys by {
                            if i == index {
                                assert(!pre_alloc.is_free(
                                    pre_mapper[page_key(dst.start, j)].phys as int,
                                ));
                            } else if j == index {
                                assert(!pre_alloc.is_free(
                                    pre_mapper[page_key(dst.start, i)].phys as int,
                                ));
                            }
                        }
                        assert forall|i: int|
                            0 <= i < index + 1 implies mem@.contains_key(
                            (#[trigger] mapper@[page_key(dst.start, i)]).phys,
                        ) && mem@[mapper@[page_key(dst.start, i)].phys]@ == Seq::new(
                            PAGE_SIZE as nat,
                            |b: int| 0u8,
                        ) by {
                            if i < index {
                                let f = pre_mapper[page_key(dst.start, i)].phys;
                                assert(f != newf);
                            }
                        }
                    }
                    index += 1;
                },
                None => {
                    proof {
                        assert(!pre_alloc.initialized() || pre_alloc.used()
                            == pre_alloc.total()) by {
                            if pre_alloc.initialized() {
                                let b = pre_alloc.inner->Some_0;
                                assert(forall|i: int|
                                    0 <= i < b.blocks@.len() ==> (
                                    #[trigger] b.blocks@[i]).size < PAGE_SIZE);
                                if b.blocks@.len() > 0 {
                                    assert(crate::frame_alloc::free_block_wf(b.blocks@[0]));
                                    crate::frame_alloc::lemma_block_size_props(
                                        b.blocks@[0].size as int,
                                    );
                                    assert(false);
                                }
                                assert(b.blocks@.len() == 0);
                                assert(crate::frame_alloc::free_frames(b.blocks@) == 0);
                            }
                        }
                    }
                    unwind_span(
                        dst,
                        index,
                        mapper,
                        alloc,
                        flusher,
                        Ghost(old(mapper)@),
                        Ghost(*old(alloc)),
                    );
                    return Err(Error::Enomem);
                },
            }
        }
        proof {
            assert(old(alloc).initialized());
            let b = alloc.inner->Some_0;
            crate::frame_alloc::lemma_free_frames_nonneg(b.blocks@);
            assert(alloc.used() <= alloc.total());
            assert(old(alloc).total() - old(alloc).used() >= page_count);
        }
        Ok(
            Grant {
                region: Region {
                    start: VirtualAddress { addr: dst.start },
                    size: page_count * PAGE_SIZE,
                },
                flags,
                mapped: true,
                owned: true,
                desc_opt: None,
            },
        )
    }
}

impl Grant {
    /// Map `page_count` pages at `dst_base` to the frames the source pages
    /// map to, sharing them: the new grant does not own the frames. The
    /// source mapping is left exactly as it was.
    pub fn borrow<FD: Flusher>(
        src_base: Page,
        dst_base: Page,
        page_count: u64,
        flags: PageFlags,
        desc_opt: Option<GrantFileRef>,
        src_mapper: &mut Mapper,
        dst_mapper: &mut Mapper,
        dst_flusher: &mut FD,
    ) -> (r: Result<Grant, Error>)
        requires
            src_base.wf(),
            dst_base.wf(),
            page_count > 0,
            src_base.start + page_count * PAGE_SIZE <= USER_END_OFFSET,
            dst_base.start + page_count * PAGE_SIZE <= USER_END_OFFSET,
            span_mapped(old(src_mapper)@, src_base.start, page_count),
            span_unmapped(old(dst_mapper)@, dst_base.start, page_count),
        ensures
            *final(src_mapper) == *old(src_mapper),
            final(dst_mapper).root == old(dst_mapper).root,
            r is Ok,
            match r {
                Ok(g) => {
                    &&& g.region == (Region {
                        start: VirtualAddress { addr: dst_base.start },
                        size: (page_count * PAGE_SIZE) as u64,
                    })
                    &&& g.flags == flags
                    &&& g.mapped
                    &&& !g.owned
                    &&& g.desc_opt == desc_opt
                    &&& forall|i: int|
                        0 <= i < page_count ==> final(dst_mapper)@.contains_key(
                            #[trigger] page_key(dst_base.start, i),
                        ) && final(dst_mapper)@[page_key(dst_base.start, i)] == (PageEntry {
                            phys: old(src_mapper)@[page_key(src_base.start, i)].phys,
                            flags,
                        })
                    &&& forall|k: u64|
                        #![trigger final(dst_mapper)@.contains_key(k)]
                        #![trigger final(dst_mapper)@[k]]
                        !in_page_span(k, dst_base.start, page_count) ==> final(dst_mapper)@.contains_key(k) == old(dst_mapper)@.contains_key(k) && (old(dst_mapper)@.contains_key(k) ==> final(dst_mapper)@[k] == old(dst_mapper)@[k])
                },
                Err(_) => false,
            },
    {
        let mut nop = crate::mapper::InactiveFlusher {  };
        Self::copy_inner(
            src_base,
            dst_base,
            page_count,
            flags,
            desc_opt,
            src_mapper,
            dst_mapper,
            &mut nop,
            dst_flusher,
            false,
            false,
        )
    }

    /// The convenience form of `borrow` that takes the source grant.
    pub fn reborrow<FD: Flusher>(
        src_grant: &Grant,
        dst_base: Page,
        src_mapper: &mut Mapper,
        dst_mapper: &mut Mapper,
        dst_flusher: &mut FD,
    ) -> (r: Result<Grant, Error>)
        requires
            src_grant.region.start.addr as int % PAGE_SIZE as int == 0,
            src_grant.region.size as int % PAGE_SIZE as int == 0,
            src_grant.region.size > 0,
            src_grant.region.end_int() <= USER_END_OFFSET,
            dst_base.wf(),
            dst_base.start + src_grant.region.size <= USER_END_OFFSET,
            span_mapped(
                old(src_mapper)@,
                src_grant.region.start.addr,
                (src_grant.region.size / PAGE_SIZE) as u64,
            ),
            span_unmapped(
                old(dst_mapper)@,
                dst_base.start,
                (src_grant.region.size / PAGE_SIZE) as u64,
            ),
        ensures
            *final(src_mapper) == *old(src_mapper),
            final(dst_mapper).root == old(dst_mapper).root,
            r is Ok,
            match r {
                Ok(g) => {
                    &&& g.region == (Region {
                        start: VirtualAddress { addr: dst_base.start },
                        size: src_grant.region.size,
                    })
                    &&& g.flags == src_grant.flags
                    &&& g.mapped
                    &&& !g.owned
                    &&& g.desc_opt == src_grant.desc_opt
                    &&& forall|i: int|
                        0 <= i < src_grant.region.size as int / PAGE_SIZE as int ==> final(dst_mapper)@.contains_key(#[trigger] page_key(dst_base.start, i)) && final(dst_mapper)@[page_key(dst_base.start, i)] == (PageEntry {
                            phys: old(src_mapper)@[page_key(
                                src_grant.region.start.addr,
                                i,
                            )].phys,
                            flags: src_grant.flags,
                        })
                    &&& forall|k: u64|
                        #![trigger final(dst_mapper)@.contains_key(k)]
                        #![trigger final(dst_mapper)@[k]]
                        !in_page_span(
                            k,
                            dst_base.start,
                            (src_grant.region.size / PAGE_SIZE) as u64,
                        ) ==> final(dst_mapper)@.contains_key(k) == old(dst_mapper)@.contains_key(k) && (old(dst_mapper)@.contains_key(k) ==> final(dst_mapper)@[k] == old(dst_mapper)@[k])
                },
                Err(_) => false,
            },
    {
        let count = src_grant.size() / PAGE_SIZE;
        proof {
            let p = PAGE_SIZE as int;
            vstd::arithmetic::div_mod::lemma_fundamental_div_mod(src_grant.region.size as int, p);
            assert(src_grant.region.size as int == p * (src_grant.region.size as int / p));
            assert(count * PAGE_SIZE == src_grant.region.size) by (nonlinear_arith)
                requires
                    src_grant.region.size as int == PAGE_SIZE as int * (count as int),
            ;
        }
        let r = Self::borrow(
            Page::containing_address(src_grant.start_address()),
            dst_base,
            count,
            src_grant.flags(),
            src_grant.desc_opt,
            src_mapper,
            dst_mapper,
            dst_flusher,
        );
        r
    }

    /// Move a mapped grant to a new base, possibly in another table: unmap
    /// every page in the source and map the same frame at the destination.
    /// Ownership and the file reference move with it.
    pub fn transfer<FS: Flusher, FD: Flusher>(
        src_grant: Grant,
        dst_base: Page,
        src_mapper: &mut Mapper,
        dst_mapper: &mut Mapper,
        src_flusher: &mut FS,
        dst_flusher: &mut FD,
    ) -> (r: Result<Grant, Error>)
        requires
            src_grant.mapped,
            src_grant.region.start.addr as int % PAGE_SIZE as int == 0,
            src_grant.region.size as int % PAGE_SIZE as int == 0,
            src_grant.region.size > 0,
            src_grant.region.end_int() <= USER_END_OFFSET,
            dst_base.wf(),
            dst_base.start + src_grant.region.size <= USER_END_OFFSET,
            span_mapped(
                old(src_mapper)@,
                src_grant.region.start.addr,
                (src_grant.region.size / PAGE_SIZE) as u64,
            ),
            span_unmapped(
                old(dst_mapper)@,
                dst_base.start,
                (src_grant.region.size / PAGE_SIZE) as u64,
            ),
        ensures
            final(src_mapper).root == old(src_mapper).root,
            final(dst_mapper).root == old(dst_mapper).root,
            r is Ok,
            match r {
                Ok(g) => {
                    &&& g.region == (Region {
                        start: VirtualAddress { addr: dst_base.start },
                        size: src_grant.region.size,
                    })
                    &&& g.flags == src_grant.flags
                    &&& g.mapped
                    &&& g.owned == src_grant.owned
                    &&& g.desc_opt == src_grant.desc_opt
                    &&& forall|i: int|
                        0 <= i < src_grant.region.size as int / PAGE_SIZE as int ==> !final(src_mapper)@.contains_key(#[trigger] page_key(src_grant.region.start.addr, i))
                    &&& forall|k: u64|
                        #![trigger final(src_mapper)@.contains_key(k)]
                        #![trigger final(src_mapper)@[k]]
                        !in_page_span(
                            k,
                            src_grant.region.start.addr,
                            (src_grant.region.size / PAGE_SIZE) as u64,
                        ) ==> final(src_mapper)@.contains_key(k) == old(src_mapper)@.contains_key(k) && (old(src_mapper)@.contains_key(k) ==> final(src_mapper)@[k] == old(src_mapper)@[k])
                    &&& forall|i: int|
                        0 <= i < src_grant.region.size as int / PAGE_SIZE as int ==> final(dst_mapper)@.contains_key(#[trigger] page_key(dst_base.start, i)) && final(dst_mapper)@[page_key(dst_base.start, i)] == (PageEntry {
                            phys: old(src_mapper)@[page_key(
                                src_grant.region.start.addr,
                                i,
                            )].phys,
                            flags: src_grant.flags,
                        })
                    &&& forall|k: u64|
                        #![trigger final(dst_mapper)@.contains_key(k)]
                        #![trigger final(dst_mapper)@[k]]
                        !in_page_span(
                            k,
                            dst_base.start,
                            (src_grant.region.size / PAGE_SIZE) as u64,
                        ) ==> final(dst_mapper)@.contains_key(k) == old(dst_mapper)@.contains_key(k) && (old(dst_mapper)@.contains_key(k) ==> final(dst_mapper)@[k] == old(dst_mapper)@[k])
                },
                Err(_) => false,
            },
    {
        let mut src_grant = src_grant;
        src_grant.mapped = false;
        let desc_opt = src_grant.desc_opt.take();

        let count = src_grant.size() / PAGE_SIZE;
        proof {
            let p = PAGE_SIZE as int;
            vstd::arithmetic::div_mod::lemma_fundamental_div_mod(src_grant.region.size as int, p);
            assert(src_grant.region.size as int == p * (src_grant.region.size as int / p));
            assert(count * PAGE_SIZE == src_grant.region.size) by (nonlinear_arith)
                requires
                    src_grant.region.size as int == PAGE_SIZE as int * (count as int),
            ;
        }
        Self::copy_inner(
            Page::containing_address(src_grant.start_address()),
            dst_base,
            count,
            src_grant.flags(),
            desc_opt,
            src_mapper,
            dst_mapper,
            src_flusher,
            dst_flusher,
            src_grant.owned,
            true,
        )
    }

    /// The shared worker of `borrow` and `transfer`: map every destination
    /// page to the frame its source page maps to, reading the source with
    /// `translate` or clearing it with `unmap_phys` as `unmap` says. In
    /// this model installing a destination entry cannot itself run out of
    /// memory, so the call always succeeds.
    #[verifier::loop_isolation(false)]
    #[verifier::rlimit(60)]
    #[verifier::spinoff_prover]
    fn copy_inner<FS: Flusher, FD: Flusher>(
        src_base: Page,
        dst_base: Page,
        page_count: u64,
        flags: PageFlags,
        desc_opt: Option<GrantFileRef>,
        src_mapper: &mut Mapper,
        dst_mapper: &mut Mapper,
        src_flusher: &mut FS,
        dst_flusher: &mut FD,
        owned: bool,
        unmap: bool,
    ) -> (r: Result<Grant, Error>)
        requires
            src_base.wf(),
            dst_base.wf(),
            page_count > 0,
            src_base.start + page_count * PAGE_SIZE <= USER_END_OFFSET,
            dst_base.start + page_count * PAGE_SIZE <= USER_END_OFFSET,
            span_mapped(old(src_mapper)@, src_base.start, page_count),
            span_unmapped(old(dst_mapper)@, dst_base.start, page_count),
        ensures
            final(src_mapper).root == old(src_mapper).root,
            final(dst_mapper).root == old(dst_mapper).root,
            !unmap ==> *final(src_mapper) == *old(src_mapper),
            r is Ok,
            match r {
                Ok(g) => {
                    &&& g.region == (Region {
                        start: VirtualAddress { addr: dst_base.start },
                        size: (page_count * PAGE_SIZE) as u64,
                    })
                    &&& g.flags == flags
                    &&& g.mapped
                    &&& g.owned == owned
                    &&& g.desc_opt == desc_opt
                    &&& unmap ==> forall|i: int|
                        0 <= i < page_count ==> !final(src_mapper)@.contains_key(
                            #[trigger] page_key(src_base.start, i),
                        )
                    &&& forall|k: u64|
                        #![trigger final(src_mapper)@.contains_key(k)]
                        #![trigger final(src_mapper)@[k]]
                        !in_page_span(k, src_base.start, page_count) ==> final(src_mapper)@.contains_key(k) == old(src_mapper)@.contains_key(k) && (old(src_mapper)@.contains_key(k) ==> final(src_mapper)@[k] == old(src_mapper)@[k])
                    &&& forall|i: int|
                        0 <= i < page_count ==> final(dst_mapper)@.contains_key(
                            #[trigger] page_key(dst_base.start, i),
                        ) && final(dst_mapper)@[page_key(dst_base.start, i)] == (PageEntry {
                            phys: old(src_mapper)@[page_key(src_base.start, i)].phys,
                            flags,
                        })
                    &&& forall|k: u64|
                        #![trigger final(dst_mapper)@.contains_key(k)]
                        #![trigger final(dst_mapper)@[k]]
                        !in_page_span(k, dst_base.start, page_count) ==> final(dst_mapper)@.contains_key(k) == old(dst_mapper)@.contains_key(k) && (old(dst_mapper)@.contains_key(k) ==> final(dst_mapper)@[k] == old(dst_mapper)@[k])
                },
                Err(_) => false,
            },
    {
        let mut index: u64 = 0;
        while index < page_count
            invariant
                0 <= index <= page_count,
                src_mapper.root == old(src_mapper).root,
                dst_mapper.root == old(dst_mapper).root,
                !unmap ==> *src_mapper == *old(src_mapper),
                forall|i: int|
                    index <= i < page_count ==> src_mapper@.contains_key(
                        #[trigger] page_key(src_base.start, i),
                    ) && src_mapper@[page_key(src_base.start, i)] == old(src_mapper)@[page_key(
                        src_base.start,
                        i,
                    )],
                unmap ==> forall|i: int|
                    0 <= i < index ==> !src_mapper@.contains_key(
                        #[trigger] page_key(src_base.start, i),
                    ),
                forall|k: u64|
                    #![trigger src_mapper@.contains_key(k)]
                    #![trigger src_mapper@[k]]
                    !in_page_span(k, src_base.start, index) ==> src_mapper@.contains_key(k) == old(src_mapper)@.contains_key(k) && (old(src_mapper)@.contains_key(k) ==> src_mapper@[k]
                        == old(src_mapper)@[k]),
                forall|i: int|
                    0 <= i < index ==> dst_mapper@.contains_key(
                        #[trigger] page_key(dst_base.start, i),
                    ) && dst_mapper@[page_key(dst_base.start, i)] == (PageEntry {
                        phys: old(src_mapper)@[page_key(src_base.start, i)].phys,
                        flags,
                    }),
                forall|k: u64|
                    #![trigger dst_mapper@.contains_key(k)]
                    #![trigger dst_mapper@[k]]
                    !in_page_span(k, dst_base.start, index) ==> dst_mapper@.contains_key(k) == old(dst_mapper)@.contains_key(k) && (old(dst_mapper)@.contains_key(k) ==> dst_mapper@[k]
                        == old(dst_mapper)@[k]),
            decreases page_count - index,
        {
            let src_page = src_base.next_by(index);
            let dst_page = dst_base.next_by(index);
            proof {
                assert(src_page.start == page_key(src_base.start, index as int));
                assert(dst_page.start == page_key(dst_base.start, index as int));
                assert(src_mapper@.contains_key(src_page.start));
                assert(!old(dst_mapper)@.contains_key(page_key(dst_base.start, index as int)));
                assert(!dst_mapper@.contains_key(dst_page.start));
            }
            let ghost pre_src = src_mapper@;
            let ghost pre_dst = dst_mapper@;
            let address = if unmap {
                let (address, _entry_flags, flush) = src_mapper.unmap_phys(
                    src_page.start_address(),
                ).unwrap();
                src_flusher.consume(flush);
                address
            } else {
                let (address, _entry_flags) = src_mapper.translate(src_page.start_address())
                    .unwrap();
                address
            };
            let flush = dst_mapper.map_phys(dst_page.start_address(), address, flags).unwrap();
            dst_flusher.consume(flush);
            index += 1;
            proof {
                assert forall|i: int|
                    index <= i < page_count implies src_mapper@.contains_key(
                    #[trigger] page_key(src_base.start, i),
                ) && src_mapper@[page_key(src_base.start, i)] == old(src_mapper)@[page_key(
                    src_base.start,
                    i,
                )] by {
                    assert(page_key(src_base.start, i) != src_page.start);
                    assert(pre_src.contains_key(page_key(src_base.start, i)));
                }
                assert forall|i: int|
                    0 <= i < index implies dst_mapper@.contains_key(
                    #[trigger] page_key(dst_base.start, i),
                ) && dst_mapper@[page_key(dst_base.start, i)] == (PageEntry {
                    phys: old(src_mapper)@[page_key(src_base.start, i)].phys,
                    flags,
                }) by {
                    if i < index - 1 {
                        assert(page_key(dst_base.start, i) != dst_page.start);
                        assert(pre_dst.contains_key(page_key(dst_base.start, i)));
                    }
                }
            }
        }
        Ok(
            Grant {
                region: Region {
                    start: VirtualAddress { addr: dst_base.start },
                    size: page_count * PAGE_SIZE,
                },
                flags,
                mapped: true,
                owned,
                desc_opt,
            },
        )
    }
}

/// Building a zero-filled grant and unmapping it returns every allocated
/// frame to the frame allocator: the used count is back where it started,
/// and each of the grant's frames — free before the grant was built — is
/// free again. The premises are what `zeroed` and `unmap` guarantee of the
/// allocator, over the table `m` that held the grant's pages in between.
pub proof fn lemma_zeroed_unmap_roundtrip(
    alloc0: LockedAllocator,
    alloc1: LockedAllocator,
    alloc2: LockedAllocator,
    m: Map<u64, PageEntry>,
    base: u64,
    count: u64,
)
    requires
        alloc1.used() == alloc0.used() + count,
        forall|i: int|
            0 <= i < count ==> alloc0.is_free(
                (#[trigger] m[page_key(base, i)]).phys as int,
            ) && !alloc1.is_free(m[page_key(base, i)].phys as int),
        alloc2.used() == alloc1.used() - count,
        forall|a: int|
            #[trigger] alloc2.is_free(a) <==> (alloc1.is_free(a) || exists|i: int|
                0 <= i < count && (#[trigger] m[page_key(base, i)]).phys <= a < m[page_key(
                    base,
                    i,
                )].phys + PAGE_SIZE),
    ensures
        alloc2.used() == alloc0.used(),
        forall|i: int|
            0 <= i < count ==> alloc0.is_free(
                (#[trigger] m[page_key(base, i)]).phys as int,
            ) && alloc2.is_free(m[page_key(base, i)].phys as int),
{
    assert forall|i: int| 0 <= i < count implies alloc0.is_free(
        (#[trigger] m[page_key(base, i)]).phys as int,
    ) && alloc2.is_free(m[page_key(base, i)].phys as int) by {
        let f = m[page_key(base, i)].phys;
        assert(f <= f < f + PAGE_SIZE);
        assert(alloc2.is_free(f as int));
    }
}

/// Borrowing a grant and then unmapping the borrowed copy leaves the
/// source intact: `borrow` does not change the source table, and `unmap`
/// of a grant that does not own its frames leaves the frame allocator
/// untouched — the source frames stay allocated and mapped. The premises
/// are what `borrow` and `unmap` guarantee.
pub proof fn lemma_borrow_unmap_source_intact(
    src0: Mapper,
    src1: Mapper,
    g: Grant,
    alloc0: LockedAllocator,
    alloc1: LockedAllocator,
)
    requires
        src1 == src0,
        !g.owned,
        !g.owned ==> alloc1 == alloc0,
    ensures
        src1@ == src0@,
        alloc1 == alloc0,
{
}

/// What `unmap` hands back: the file reference of the unmapped grant, if
/// any, for the caller to close or forward.
#[derive(Clone, Copy, Debug)]
pub struct UnmapResult {
    /// The grant's file reference, to be released by the file layer.
    pub file_desc: Option<GrantFileRef>,
}

impl Grant {
    /// Unmap every page of the grant. An owned grant returns its frames to
    /// the frame allocator; a borrowed one releases the page-table entries
    /// only. The grant is consumed, unmapped, and its file reference is
    /// handed back for deferred closing.
    #[verifier::loop_isolation(false)]
    #[verifier::rlimit(100)]
    #[verifier::spinoff_prover]
    pub fn unmap<F: Flusher>(
        self,
        mapper: &mut Mapper,
        alloc: &mut LockedAllocator,
        flusher: &mut F,
    ) -> (r: UnmapResult)
        requires
            self.mapped,
            self.region.start.addr as int % PAGE_SIZE as int == 0,
            self.region.size as int % PAGE_SIZE as int == 0,
            self.region.size > 0,
            self.region.end_int() <= USER_END_OFFSET,
            span_mapped(
                old(mapper)@,
                self.region.start.addr,
                (self.region.size / PAGE_SIZE) as u64,
            ),
            old(alloc).wf(),
            self.owned ==> old(alloc).initialized(),
            self.owned ==> forall|i: int|
                0 <= i < self.region.size as int / PAGE_SIZE as int ==> (#[trigger] old(mapper)@[page_key(self.region.start.addr, i)]).phys as int % PAGE_SIZE as int == 0 && old(mapper)@[page_key(self.region.start.addr, i)].phys + PAGE_SIZE <= PHYSMAP_SIZE,
            self.owned ==> forall|i: int, a: int|
                #![trigger old(mapper)@[page_key(self.region.start.addr, i)], old(alloc).is_free(a)]
                0 <= i < self.region.size as int / PAGE_SIZE as int && old(mapper)@[page_key(
                    self.region.start.addr,
                    i,
                )].phys <= a < old(mapper)@[page_key(self.region.start.addr, i)].phys + PAGE_SIZE
                    ==> !old(alloc).is_free(a),
            self.owned ==> forall|i: int, j: int|
                0 <= i < self.region.size as int / PAGE_SIZE as int && 0 <= j
                    < self.region.size as int / PAGE_SIZE as int && i != j ==> (#[trigger] old(mapper)@[page_key(self.region.start.addr, i)]).phys != (#[trigger] old(mapper)@[page_key(self.region.start.addr, j)]).phys,
            self.owned ==> old(alloc).used() >= self.region.size as int / PAGE_SIZE as int,
        ensures
            final(mapper).root == old(mapper).root,
            final(alloc).wf(),
            final(alloc).total() == old(alloc).total(),
            final(alloc).initialized() == old(alloc).initialized(),
            r.file_desc == self.desc_opt,
            forall|i: int|
                0 <= i < self.region.size as int / PAGE_SIZE as int ==> !final(mapper)@.contains_key(#[trigger] page_key(self.region.start.addr, i)),
            forall|k: u64|
                #![trigger final(mapper)@.contains_key(k)]
                #![trigger final(mapper)@[k]]
                !in_page_span(
                    k,
                    self.region.start.addr,
                    (self.region.size / PAGE_SIZE) as u64,
                ) ==> final(mapper)@.contains_key(k) == old(mapper)@.contains_key(k) && (old(mapper)@.contains_key(k) ==> final(mapper)@[k] == old(mapper)@[k]),
            self.owned ==> final(alloc).used() == old(alloc).used() - self.region.size as int
                / PAGE_SIZE as int,
            self.owned ==> forall|a: int|
                #[trigger] final(alloc).is_free(a) <==> (old(alloc).is_free(a) || exists|i: int|
                    0 <= i < self.region.size as int / PAGE_SIZE as int && (#[trigger] old(mapper)@[page_key(self.region.start.addr, i)]).phys <= a < old(mapper)@[page_key(
                        self.region.start.addr,
                        i,
                    )].phys + PAGE_SIZE),
            !self.owned ==> *final(alloc) == *old(alloc),
    {
        let base = self.region.start.addr;
        let page_count = self.region.size / PAGE_SIZE;
        proof {
            let p = PAGE_SIZE as int;
            vstd::arithmetic::div_mod::lemma_fundamental_div_mod(self.region.size as int, p);
            assert(self.region.size as int == p * (page_count as int));
            assert(page_count * PAGE_SIZE == self.region.size) by (nonlinear_arith)
                requires
                    self.region.size as int == PAGE_SIZE as int * (page_count as int),
            ;
        }
        let dst = Page { start: base };
        let mut index: u64 = 0;
        while index < page_count
            invariant
                0 <= index <= page_count,
                mapper.root == old(mapper).root,
                alloc.wf(),
                alloc.total() == old(alloc).total(),
                alloc.initialized() == old(alloc).initialized(),
                forall|i: int|
                    index <= i < page_count ==> mapper@.contains_key(
                        #[trigger] page_key(base, i),
                    ) && mapper@[page_key(base, i)] == old(mapper)@[page_key(base, i)],
                forall|i: int|
                    0 <= i < index ==> !mapper@.contains_key(#[trigger] page_key(base, i)),
                forall|k: u64|
                    #![trigger mapper@.contains_key(k)]
                    #![trigger mapper@[k]]
                    !in_page_span(k, base, index) ==> mapper@.contains_key(k) == old(mapper)@.contains_key(k) && (old(mapper)@.contains_key(k) ==> mapper@[k] == old(mapper)@[k]),
                self.owned ==> alloc.used() == old(alloc).used() - index,
                self.owned ==> forall|a: int|
                    #[trigger] alloc.is_free(a) <==> (old(alloc).is_free(a) || exists|i: int|
                        0 <= i < index && (#[trigger] old(mapper)@[page_key(base, i)]).phys <= a
                            < old(mapper)@[page_key(base, i)].phys + PAGE_SIZE),
                !self.owned ==> *alloc == *old(alloc),
            decreases page_count - index,
        {
            let page = dst.next_by(index);
            proof {
                assert(page.start == page_key(base, index as int));
                assert(mapper@.contains_key(page.start));
            }
            let ghost pre_alloc = *alloc;
            let (entry, _entry_flags, flush) = mapper.unmap_phys(page.start_address()).unwrap();
            if self.is_owned() {
                proof {
                    crate::frame_alloc::lemma_order_bytes_props(1);
                    assert(crate::frame_alloc::order_bytes(1) == PAGE_SIZE);
                    assert(entry.addr == old(mapper)@[page_key(base, index as int)].phys);
                    assert forall|a: int| entry.addr <= a < entry.addr + PAGE_SIZE implies !alloc
                        .is_free(a) by {
                        assert(!old(alloc).is_free(a));
                        if exists|i: int|
                            0 <= i < index && (#[trigger] old(mapper)@[page_key(base, i)]).phys
                                <= a < old(mapper)@[page_key(base, i)].phys + PAGE_SIZE {
                            let i = choose|i: int|
                                0 <= i < index && (#[trigger] old(mapper)@[page_key(
                                    base,
                                    i,
                                )]).phys <= a < old(mapper)@[page_key(base, i)].phys + PAGE_SIZE;
                            let fi = old(mapper)@[page_key(base, i)].phys;
                            let fr = entry.addr;
                            assert(fi != fr);
                            if fi < fr {
                                assert(fi + PAGE_SIZE <= fr) by (nonlinear_arith)
                                    requires
                                        fi as int % PAGE_SIZE as int == 0,
                                        fr as int % PAGE_SIZE as int == 0,
                                        fi < fr,
                                        PAGE_SIZE as int > 0,
                                ;
                            } else {
                                assert(fr + PAGE_SIZE <= fi) by (nonlinear_arith)
                                    requires
                                        fi as int % PAGE_SIZE as int == 0,
                                        fr as int % PAGE_SIZE as int == 0,
                                        fr < fi,
                                        PAGE_SIZE as int > 0,
                                ;
                            }
                            assert(false);
                        }
                    }
                }
                alloc.free(entry, 1);
                proof {
                    assert forall|a: int| #[trigger] alloc.is_free(a) <==> (old(alloc).is_free(a)
                        || exists|i: int|
                        0 <= i < index + 1 && (#[trigger] old(mapper)@[page_key(base, i)]).phys
                            <= a < old(mapper)@[page_key(base, i)].phys + PAGE_SIZE) by {
                        if alloc.is_free(a) {
                            if pre_alloc.is_free(a) {
                            } else {
                                assert(old(mapper)@[page_key(base, index as int)].phys <= a < old(mapper)@[page_key(base, index as int)].phys + PAGE_SIZE);
                            }
                        }
                        if !alloc.is_free(a) && exists|i: int|
                            0 <= i < index + 1 && (#[trigger] old(mapper)@[page_key(
                                base,
                                i,
                            )]).phys <= a < old(mapper)@[page_key(base, i)].phys + PAGE_SIZE {
                            let i = choose|i: int|
                                0 <= i < index + 1 && (#[trigger] old(mapper)@[page_key(
                                    base,
                                    i,
                                )]).phys <= a < old(mapper)@[page_key(base, i)].phys + PAGE_SIZE;
                            if i < index {
                                assert(pre_alloc.is_free(a));
                            }
                            assert(false);
                        }
                    }
                }
            }
            flusher.consume(flush);
            index += 1;
        }
        UnmapResult { file_desc: self.desc_opt }
    }

    /// Split a region out of the grant, purely as bookkeeping: no page
    /// table changes. Returns the part before the region, the narrowed
    /// grant itself, and the part after; the outer parts share the grant's
    /// flags, ownership, mapped state and a copy of its file reference.
    pub fn extract(self, region: Region) -> (r: Option<(Option<Grant>, Grant, Option<Grant>)>)
        requires
            region.start.addr as int % PAGE_SIZE as int == 0,
            region.size as int % PAGE_SIZE as int == 0,
            region.size > 0,
            self.region.start_int() <= region.start_int(),
            region.end_int() <= self.region.end_int(),
            self.region.end_int() <= USER_END_OFFSET,
        ensures
            r matches Some((before, middle, after)) && {
                &&& match before {
                    Some(b) => {
                        &&& Some(b.region) == self.region.spec_before(region)
                        &&& b.flags == self.flags
                        &&& b.mapped == self.mapped
                        &&& b.owned == self.owned
                        &&& b.desc_opt == self.desc_opt
                    },
                    None => self.region.spec_before(region) is None,
                }
                &&& match after {
                    Some(a) => {
                        &&& Some(a.region) == self.region.spec_after(region)
                        &&& a.flags == self.flags
                        &&& a.mapped == self.mapped
                        &&& a.owned == self.owned
                        &&& a.desc_opt == self.desc_opt
                    },
                    None => self.region.spec_after(region) is None,
                }
                &&& middle.region == region
                &&& middle.flags == self.flags
                &&& middle.mapped == self.mapped
                &&& middle.owned == self.owned
                &&& middle.desc_opt == self.desc_opt
            },
    {
        let mut this = self;
        let before_region = this.region.before(region);
        let after_region = this.region.after(region);
        let before_grant = match before_region {
            Some(reg) => Some(
                Grant {
                    region: reg,
                    flags: this.flags,
                    mapped: this.mapped,
                    owned: this.owned,
                    desc_opt: this.desc_opt,
                },
            ),
            None => None,
        };
        let after_grant = match after_region {
            Some(reg) => Some(
                Grant {
                    region: reg,
                    flags: this.flags,
                    mapped: this.mapped,
                    owned: this.owned,
                    desc_opt: this.desc_opt,
                },
            ),
            None => None,
        };
        this.region = region;
        Some((before_grant, this, after_grant))
    }
}

/// Undo a partially built zero-filled span: unmap its pages and return
/// their frames, restoring the table and the free set to what they were.
#[verifier::loop_isolation(false)]
#[verifier::rlimit(100)]
#[verifier::spinoff_prover]
fn unwind_span<F: Flusher>(
    dst: Page,
    index: u64,
    mapper: &mut Mapper,
    alloc: &mut LockedAllocator,
    flusher: &mut F,
    Ghost(orig_mapper): Ghost<Map<u64, PageEntry>>,
    Ghost(orig_alloc): Ghost<LockedAllocator>,
)
    requires
        dst.wf(),
        dst.start + index * PAGE_SIZE <= USER_END_OFFSET,
        span_unmapped(orig_mapper, dst.start, index),
        old(alloc).wf(),
        orig_alloc.wf(),
        old(alloc).total() == orig_alloc.total(),
        old(alloc).initialized() == orig_alloc.initialized(),
        old(alloc).used() == orig_alloc.used() + index,
        index > 0 ==> orig_alloc.initialized(),
        forall|i: int| 0 <= i < index ==> old(mapper)@.contains_key(#[trigger] page_key(dst.start, i)),
        forall|i: int|
            0 <= i < index ==> (#[trigger] old(mapper)@[page_key(dst.start, i)]).phys as int
                % PAGE_SIZE as int == 0 && old(mapper)@[page_key(dst.start, i)].phys + PAGE_SIZE
                <= PHYSMAP_SIZE,
        forall|i: int, a: int|
            #![trigger old(mapper)@[page_key(dst.start, i)], orig_alloc.is_free(a)]
            0 <= i < index && old(mapper)@[page_key(dst.start, i)].phys <= a < old(mapper)@[page_key(dst.start, i)].phys + PAGE_SIZE ==> orig_alloc.is_free(a),
        forall|i: int, j: int|
            0 <= i < index && 0 <= j < index && i != j ==> (#[trigger] old(mapper)@[page_key(
                dst.start,
                i,
            )]).phys != (#[trigger] old(mapper)@[page_key(dst.start, j)]).phys,
        forall|a: int|
            #[trigger] old(alloc).is_free(a) <==> (orig_alloc.is_free(a) && !(exists|i: int|
                0 <= i < index && (#[trigger] old(mapper)@[page_key(dst.start, i)]).phys <= a < old(mapper)@[page_key(dst.start, i)].phys + PAGE_SIZE)),
        forall|k: u64|
            #![trigger old(mapper)@.contains_key(k)]
            #![trigger old(mapper)@[k]]
            !in_page_span(k, dst.start, index) ==> old(mapper)@.contains_key(k)
                == orig_mapper.contains_key(k) && (orig_mapper.contains_key(k) ==> old(mapper)@[k]
                == orig_mapper[k]),
    ensures
        final(mapper).root == old(mapper).root,
        final(mapper)@ == orig_mapper,
        final(alloc).wf(),
        final(alloc).total() == orig_alloc.total(),
        final(alloc).initialized() == orig_alloc.initialized(),
        final(alloc).used() == orig_alloc.used(),
        forall|a: int| #[trigger] final(alloc).is_free(a) <==> orig_alloc.is_free(a),
{
    let ghost full = old(mapper)@;
    let mut back: u64 = 0;
    while back < index
        invariant
            0 <= back <= index,
            mapper.root == old(mapper).root,
            alloc.wf(),
            alloc.total() == orig_alloc.total(),
            alloc.initialized() == orig_alloc.initialized(),
            alloc.used() == orig_alloc.used() + index - back,
            forall|i: int|
                back <= i < index ==> mapper@.contains_key(#[trigger] page_key(dst.start, i))
                    && mapper@[page_key(dst.start, i)] == full[page_key(dst.start, i)],
            forall|a: int|
                #[trigger] alloc.is_free(a) <==> (orig_alloc.is_free(a) && !(exists|i: int|
                    back <= i < index && (#[trigger] full[page_key(dst.start, i)]).phys <= a < full[
                        page_key(dst.start, i)].phys + PAGE_SIZE)),
            forall|k: u64|
                #![trigger mapper@.contains_key(k)]
                #![trigger mapper@[k]]
                !in_page_span(k, dst.start, index) ==> mapper@.contains_key(k)
                    == orig_mapper.contains_key(k) && (orig_mapper.contains_key(k) ==> mapper@[k]
                    == orig_mapper[k]),
            forall|i: int|
                0 <= i < back ==> !mapper@.contains_key(#[trigger] page_key(dst.start, i)),
        decreases index - back,
    {
        let page = dst.next_by(back);
        proof {
            assert(page.start == page_key(dst.start, back as int));
            assert(mapper@.contains_key(page.start));
        }
        let ghost pre_free = *alloc;
        let (frame, _eflags, flush) = mapper.unmap_phys(page.start_address()).unwrap();
        flusher.consume(flush);
        proof {
            crate::frame_alloc::lemma_order_bytes_props(1);
            assert(crate::frame_alloc::order_bytes(1) == PAGE_SIZE);
            assert(frame.addr == full[page_key(dst.start, back as int)].phys);
            // the frame is not free: it is covered by the span at i = back
            assert forall|a: int| frame.addr <= a < frame.addr + PAGE_SIZE implies !pre_free
                .is_free(a) by {
                assert(full[page_key(dst.start, back as int)].phys <= a < full[page_key(
                    dst.start,
                    back as int,
                )].phys + PAGE_SIZE);
            }
        }
        alloc.free(frame, 1);
        proof {
            let fr = full[page_key(dst.start, back as int)].phys;
            assert forall|a: int| #[trigger] alloc.is_free(a) <==> (orig_alloc.is_free(a) && !(
            exists|i: int|
                back + 1 <= i < index && (#[trigger] full[page_key(dst.start, i)]).phys <= a < full[
                    page_key(dst.start, i)].phys + PAGE_SIZE)) by {
                if fr <= a < fr + PAGE_SIZE {
                    // the freed bytes were free originally, and belong to no
                    // later frame of the span, since frames are distinct and
                    // page-aligned
                    assert(orig_alloc.is_free(a)) by {
                        assert(old(mapper)@[page_key(dst.start, back as int)].phys <= a < old(mapper)@[page_key(dst.start, back as int)].phys + PAGE_SIZE);
                    }
                    assert forall|i: int| back + 1 <= i < index implies !((
                    #[trigger] full[page_key(dst.start, i)]).phys <= a < full[page_key(
                        dst.start,
                        i,
                    )].phys + PAGE_SIZE) by {
                        let fi = full[page_key(dst.start, i)].phys;
                        assert(fi != fr);
                        assert(fi as int % PAGE_SIZE as int == 0);
                        assert(fr as int % PAGE_SIZE as int == 0);
                        if fi < fr {
                            assert(fi + PAGE_SIZE <= fr) by (nonlinear_arith)
                                requires
                                    fi as int % PAGE_SIZE as int == 0,
                                    fr as int % PAGE_SIZE as int == 0,
                                    fi < fr,
                                    PAGE_SIZE as int > 0,
                            ;
                        } else {
                            assert(fr + PAGE_SIZE <= fi) by (nonlinear_arith)
                                requires
                                    fi as int % PAGE_SIZE as int == 0,
                                    fr as int % PAGE_SIZE as int == 0,
                                    fr < fi,
                                    PAGE_SIZE as int > 0,
                            ;
                        }
                    }
                }
            }
        }
        back += 1;
    }
    proof {
        assert forall|k: u64| in_page_span(k, dst.start, index) implies exists|i: int|
            0 <= i < index && k == page_key(dst.start, i) by {
            let p = PAGE_SIZE as int;
            let i = (k - dst.start) as int / p;
            vstd::arithmetic::div_mod::lemma_sub_mod_noop(k as int, dst.start as int, p);
            vstd::arithmetic::div_mod::lemma_fundamental_div_mod((k - dst.start) as int, p);
            assert((k - dst.start) as int == p * i);
            assert(0 <= i < index) by (nonlinear_arith)
                requires
                    (k - dst.start) as int == p * i,
                    0 <= (k - dst.start) as int,
                    (k as int) < dst.start + index * p,
                    k >= dst.start,
                    p > 0,
            ;
            assert(k == page_key(dst.start, i)) by (nonlinear_arith)
                requires
                    (k - dst.start) as int == p * i,
                    k >= dst.start,
                    page_key(dst.start, i) == ((dst.start + i * p) as u64),
                    dst.start + i * p == k,
            ;
        }
        assert forall|k: u64| #[trigger] mapper@.contains_key(k) == orig_mapper.contains_key(k)
            && (orig_mapper.contains_key(k) ==> mapper@[k] == orig_mapper[k]) by {
            if in_page_span(k, dst.start, index) {
                let i = choose|i: int| 0 <= i < index && k == page_key(dst.start, i);
                assert(!mapper@.contains_key(page_key(dst.start, i)));
                assert(!orig_mapper.contains_key(page_key(dst.start, i)));
            }
        }
        assert(mapper@ =~= orig_mapper);
    }
}

} // verus!
