//! One user address space: a user page table paired with its grant
//! container, and the clone operation that copies or shares its mappings.

use vstd::prelude::*;

use crate::Error;
use crate::PAGE_SIZE;
use crate::PHYSMAP_SIZE;
use crate::addr::Page;
use crate::frame_alloc::LockedAllocator;
use crate::grant::Grant;
use crate::grant::in_page_span;
use crate::grant::page_key;
use crate::grant::span_unmapped;
use crate::grants::UserGrants;
use crate::grants::region_wf;
use crate::region::Region;
use crate::mapper::InactiveFlusher;
use crate::mapper::Mapper;
use crate::mapper::PhysMem;

verus! {

/// Holds one user page-table root.
#[derive(Debug)]
pub struct Table {
    /// The user half's page table. The kernel half is shared between all
    /// tables and lives outside this model.
    pub utable: Mapper,
}

impl Table {
    /// Tear the table down, returning its root frame to the frame
    /// allocator: the counterpart of creating it, once every grant has
    /// been unmapped and the table is no longer active anywhere.
    pub fn destroy(self, alloc: &mut LockedAllocator)
        requires
            old(alloc).wf(),
            old(alloc).initialized(),
            self.utable.root as int % PAGE_SIZE as int == 0,
            self.utable.root + PAGE_SIZE <= PHYSMAP_SIZE,
            forall|a: int|
                self.utable.root <= a < self.utable.root + PAGE_SIZE ==> !old(alloc).is_free(a),
            old(alloc).used() >= 1,
        ensures
            final(alloc).wf(),
            final(alloc).total() == old(alloc).total(),
            final(alloc).initialized() == old(alloc).initialized(),
            final(alloc).used() == old(alloc).used() - 1,
            forall|a: int|
                #[trigger] final(alloc).is_free(a) <==> (old(alloc).is_free(a) || (
                self.utable.root <= a < self.utable.root + PAGE_SIZE)),
    {
        proof {
            crate::frame_alloc::lemma_order_bytes_props(1);
            assert(crate::frame_alloc::order_bytes(1) == PAGE_SIZE);
        }
        alloc.free(crate::addr::PhysicalAddress { addr: self.utable.root }, 1);
    }
}

/// Allocate a new page table for a user address space. The kernel-half
/// entries of the active kernel table are shared with every user table by
/// construction; this model tracks the user half, which starts empty.
pub fn setup_new_utable(alloc: &mut LockedAllocator) -> (r: Result<Table, Error>)
    requires
        old(alloc).wf(),
    ensures
        final(alloc).wf(),
        final(alloc).total() == old(alloc).total(),
        final(alloc).initialized() == old(alloc).initialized(),
        r is Ok <==> (old(alloc).initialized() && old(alloc).total() - old(alloc).used() >= 1),
        match r {
            Ok(t) => {
                &&& t.utable@ =~= Map::<u64, crate::mapper::PageEntry>::empty()
                &&& final(alloc).used() == old(alloc).used() + 1
                &&& forall|a: int| #[trigger] final(alloc).is_free(a) ==> old(alloc).is_free(a)
            },
            Err(e) => {
                &&& e == Error::Enomem
                &&& *final(alloc) == *old(alloc)
            },
        },
{
    let r = Mapper::create(alloc);
    match r {
        Some(utable) => {
            proof {
                let b = alloc.inner->Some_0;
                crate::frame_alloc::lemma_free_frames_nonneg(b.blocks@);
                assert(alloc.used() <= alloc.total());
            }
            Ok(Table { utable })
        },
        None => {
            proof {
                if alloc.initialized() {
                    let b = alloc.inner->Some_0;
                    if b.blocks@.len() > 0 {
                        assert(crate::frame_alloc::free_block_wf(b.blocks@[0]));
                        crate::frame_alloc::lemma_block_size_props(b.blocks@[0].size as int);
                        assert(false);
                    }
                    assert(crate::frame_alloc::free_frames(b.blocks@) == 0);
                }
            }
            Err(Error::Enomem)
        },
    }
}

/// The frames a clone of the given grants must allocate, counting the
/// grants before index `n`: one page's worth per page of every owned,
/// non-file-backed grant.
pub open spec fn clone_frames_upto(gs: Seq<Grant>, n: int) -> int
    decreases n,
{
    if n <= 0 {
        0
    } else {
        clone_frames_upto(gs, n - 1) + (if gs[n - 1].desc_opt is None && gs[n - 1].owned {
            gs[n - 1].region.size as int / PAGE_SIZE as int
        } else {
            0
        })
    }
}

/// One user address space.
#[derive(Debug)]
pub struct AddrSpace {
    /// The space's page table.
    pub table: Table,
    /// The grants that populate the table.
    pub grants: UserGrants,
}

impl AddrSpace {
    /// A consistent address space: the grant container is well-formed,
    /// every grant is mapped and its pages are present in the table, and
    /// the table holds nothing but grant pages.
    pub open spec fn wf(self) -> bool {
        &&& self.grants.wf()
        &&& forall|i: int|
            0 <= i < self.grants.inner@.len() ==> (#[trigger] self.grants.inner@[i]).mapped
        &&& forall|i: int, j: int|
            #![trigger self.grants.inner@[i], page_key(self.grants.inner@[i].region.start.addr, j)]
            0 <= i < self.grants.inner@.len() && 0 <= j
                < self.grants.inner@[i].region.size as int / PAGE_SIZE as int
                ==> self.table.utable@.contains_key(
                page_key(self.grants.inner@[i].region.start.addr, j),
            )
        &&& forall|k: u64|
            #[trigger] self.table.utable@.contains_key(k) ==> exists|i: int|
                0 <= i < self.grants.inner@.len() && in_page_span(
                    k,
                    (#[trigger] self.grants.inner@[i]).region.start.addr,
                    (self.grants.inner@[i].region.size / PAGE_SIZE) as u64,
                )
    }

    /// A fresh, empty address space: an empty user table and no grants.
    pub fn new(alloc: &mut LockedAllocator) -> (r: Result<Self, Error>)
        requires
            old(alloc).wf(),
        ensures
            final(alloc).wf(),
            final(alloc).total() == old(alloc).total(),
            final(alloc).initialized() == old(alloc).initialized(),
            r is Ok <==> (old(alloc).initialized() && old(alloc).total() - old(alloc).used()
                >= 1),
            match r {
                Ok(space) => {
                    &&& space.wf()
                    &&& space.grants.inner@ =~= Seq::<Grant>::empty()
                    &&& space.table.utable@ =~= Map::<u64, crate::mapper::PageEntry>::empty()
                    &&& final(alloc).used() == old(alloc).used() + 1
                    &&& forall|a: int| #[trigger] final(alloc).is_free(a) ==> old(alloc).is_free(a)
                },
                Err(e) => {
                    &&& e == Error::Enomem
                    &&& *final(alloc) == *old(alloc)
                },
            },
    {
        let table = match setup_new_utable(alloc) {
            Ok(table) => table,
            Err(e) => {
                return Err(e);
            },
        };
        let space = Self { grants: UserGrants::new(), table };
        proof {
            assert forall|k: u64| #[trigger] space.table.utable@.contains_key(k) implies exists|
                i: int,
            |
                0 <= i < space.grants.inner@.len() && in_page_span(
                    k,
                    (#[trigger] space.grants.inner@[i]).region.start.addr,
                    (space.grants.inner@[i].region.size / PAGE_SIZE) as u64,
                ) by {
                assert(!space.table.utable@.contains_key(k));
            }
        }
        Ok(space)
    }

    /// Whether this space's table is the CPU's active one.
    pub fn is_current(&self, active_root: u64) -> (r: bool)
        ensures
            r == (self.table.utable.root == active_root),
    {
        self.table.utable.is_current(active_root)
    }

    /// Clone this address space: every non-file-backed grant reappears in
    /// the new space at the same address — an owned grant as a fresh owned
    /// grant whose newly allocated frames carry a copy of the source pages'
    /// bytes, a borrowed grant as a reborrow sharing the very same frames.
    /// File-backed grants are skipped; the source space, its mappings and
    /// the bytes of its frames are untouched. Fails with `Enomem`, exactly
    /// when the allocator cannot supply the table root plus one frame per
    /// owned page.
    #[verifier::rlimit(100)]
    #[verifier::spinoff_prover]
    pub fn try_clone(&mut self, alloc: &mut LockedAllocator, mem: &mut PhysMem) -> (r: Result<
        AddrSpace,
        Error,
    >)
        requires
            old(self).wf(),
            old(alloc).wf(),
            old(mem).wf(),
            forall|k: u64, a: int|
                #![trigger old(self).table.utable@[k], old(alloc).is_free(a)]
                old(self).table.utable@.contains_key(k) && old(self).table.utable@[k].phys <= a
                    < old(self).table.utable@[k].phys + PAGE_SIZE ==> !old(alloc).is_free(a),
            forall|k: u64|
                #[trigger] old(self).table.utable@.contains_key(k) ==> old(mem)@.contains_key(
                    old(self).table.utable@[k].phys,
                ),
        ensures
            *final(self) == *old(self),
            final(alloc).wf(),
            final(mem).wf(),
            final(alloc).total() == old(alloc).total(),
            final(alloc).initialized() == old(alloc).initialized(),
            forall|a: int| #[trigger] final(alloc).is_free(a) ==> old(alloc).is_free(a),
            forall|f: u64| #[trigger] old(mem)@.contains_key(f) ==> final(mem)@.contains_key(f),
            forall|f: u64|
                #[trigger] old(mem)@.contains_key(f) && !old(alloc).is_free(f as int)
                    ==> final(mem)@[f] == old(mem)@[f],
            forall|k: u64|
                #[trigger] old(self).table.utable@.contains_key(k) ==> final(mem)@.contains_key(
                    old(self).table.utable@[k].phys,
                ) && final(mem)@[old(self).table.utable@[k].phys]@ == old(mem)@[old(self).table.utable@[k].phys]@,
            r is Ok <==> (old(alloc).initialized() && old(alloc).total() - old(alloc).used() >= 1
                + clone_frames_upto(
                old(self).grants.inner@,
                old(self).grants.inner@.len() as int,
            )),
            match r {
                Ok(new_space) => {
                    &&& new_space.wf()
                    &&& forall|t: int|
                        0 <= t < new_space.grants.inner@.len() ==> exists|j: int|
                            0 <= j < old(self).grants.inner@.len() && (
                            #[trigger] new_space.grants.inner@[t]).region == (#[trigger] old(self).grants.inner@[j]).region && old(self).grants.inner@[j].desc_opt
                                is None
                    &&& forall|j: int|
                        0 <= j < old(self).grants.inner@.len() && (#[trigger] old(self).grants.inner@[j]).desc_opt is None ==> exists|t: int|
                            0 <= t < new_space.grants.inner@.len() && (
                            #[trigger] new_space.grants.inner@[t]).region == old(self).grants.inner@[j].region && new_space.grants.inner@[t].flags == old(self).grants.inner@[j].flags && new_space.grants.inner@[t].owned == old(self).grants.inner@[j].owned && new_space.grants.inner@[t].mapped
                                && new_space.grants.inner@[t].desc_opt is None
                    &&& forall|j: int|
                        0 <= j < old(self).grants.inner@.len() && (#[trigger] old(self).grants.inner@[j]).desc_opt is None ==> cloned_grant_ok(
                            old(self).table.utable@,
                            new_space.table.utable@,
                            *final(mem),
                            *final(alloc),
                            old(self).grants.inner@[j],
                        )
                },
                Err(e) => e == Error::Enomem,
            },
    {
        let ghost gs = old(self).grants.inner@;
        let ghost src_table = old(self).table.utable@;
        let n = self.grants.inner.len();

        proof {
            lemma_clone_frames_nonneg(gs, n as int);
            lemma_clone_src_facts(*old(self), *old(mem), *old(alloc));
        }
        let mut new_space = match AddrSpace::new(alloc) {
            Ok(space) => space,
            Err(e) => {
                proof {
                    lemma_clone_frames_mono(gs, 0, n as int);
                    lemma_src_preserved(src_table, *old(mem), *old(alloc), *old(mem), gs);
                }
                return Err(e);
            },
        };

        proof {
            lemma_clone_init(
                gs,
                src_table,
                new_space.table.utable@,
                new_space.grants.inner@,
                *mem,
                *alloc,
            );
        }
        let mut flusher = InactiveFlusher {  };
        let mut i: usize = 0;
        while i < n
            invariant
                0 <= i <= n,
                n == gs.len(),
                *self == *old(self),
                gs == old(self).grants.inner@,
                src_table == old(self).table.utable@,
                alloc.wf(),
                mem.wf(),
                old(mem).wf(),
                alloc.total() == old(alloc).total(),
                alloc.initialized() == old(alloc).initialized(),
                old(alloc).initialized(),
                alloc.used() == old(alloc).used() + 1 + clone_frames_upto(gs, i as int),
                forall|a: int| #[trigger] alloc.is_free(a) ==> old(alloc).is_free(a),
                forall|f: u64| #[trigger] old(mem)@.contains_key(f) ==> mem@.contains_key(f),
                forall|f: u64|
                    #[trigger] old(mem)@.contains_key(f) && !old(alloc).is_free(f as int)
                        ==> mem@[f] == old(mem)@[f],
                new_space.grants.wf(),
                clone_src_facts(gs, src_table, *old(mem), *old(alloc)),
                clone_inv(
                    gs,
                    i as int,
                    src_table,
                    new_space.table.utable@,
                    new_space.grants.inner@,
                    *mem,
                    *alloc,
                ),
            decreases n - i,
        {
            let g = self.grants.inner[i];
            proof {
                assert(g == gs[i as int]);
            }
            if g.desc_opt.is_none() {
                let page = Page { start: g.region.start.addr };
                proof {
                    lemma_clone_prep(
                        gs,
                        i as int,
                        src_table,
                        new_space.table.utable@,
                        new_space.grants.inner@,
                        *mem,
                        *alloc,
                        *old(mem),
                        *old(alloc),
                        *mem,
                        *alloc,
                    );
                }
                let ghost pre_table = new_space.table.utable@;
                let ghost pre_alloc = *alloc;
                let ghost pre_mem = *mem;
                let new_grant: Grant;
                if g.is_owned() {
                    match clone_owned_grant(
                        g,
                        &self.table.utable,
                        &mut new_space.table.utable,
                        alloc,
                        mem,
                    ) {
                        Ok(ng) => {
                            new_grant = ng;
                        },
                        Err(e) => {
                            proof {
                                assert(pre_alloc.total() - pre_alloc.used() < g.region.size as int
                                    / PAGE_SIZE as int);
                                lemma_clone_frames_mono(gs, i as int + 1, n as int);
                                lemma_src_preserved(
                                    src_table,
                                    *old(mem),
                                    *old(alloc),
                                    *mem,
                                    gs,
                                );
                            }
                            return Err(e);
                        },
                    }
                } else {
                    match Grant::reborrow(
                        &g,
                        page,
                        &mut self.table.utable,
                        &mut new_space.table.utable,
                        &mut flusher,
                    ) {
                        Ok(ng) => {
                            new_grant = ng;
                        },
                        Err(e) => {
                            proof {
                                lemma_src_preserved(
                                    src_table,
                                    *old(mem),
                                    *old(alloc),
                                    *mem,
                                    gs,
                                );
                            }
                            return Err(e);
                        },
                    }
                }
                proof {
                    if !g.owned {
                        lemma_reborrow_clone_ok(
                            src_table,
                            new_space.table.utable@,
                            *mem,
                            *alloc,
                            g,
                        );
                    }
                }
                let ghost pre_grants = new_space.grants;
                new_space.grants.insert(new_grant);
                proof {
                    lemma_clone_pack(
                        gs,
                        i as int,
                        src_table,
                        pre_table,
                        new_space.table.utable@,
                        pre_grants,
                        new_space.grants,
                        pre_mem,
                        *mem,
                        pre_alloc,
                        *alloc,
                        *old(mem),
                        *old(alloc),
                        new_grant,
                    );
                }
            } else {
                proof {
                    lemma_clone_skip(
                        gs,
                        i as int,
                        src_table,
                        new_space.table.utable@,
                        new_space.grants.inner@,
                        *mem,
                        *alloc,
                    );
                }
            }
            i += 1;
            proof {
                assert(clone_frames_upto(gs, i as int) == clone_frames_upto(gs, i as int - 1) + (
                if gs[i as int - 1].desc_opt is None && gs[i as int - 1].owned {
                    gs[i as int - 1].region.size as int / PAGE_SIZE as int
                } else {
                    0
                }));
            }
        }
        proof {
            let b = alloc.inner->Some_0;
            crate::frame_alloc::lemma_free_frames_nonneg(b.blocks@);
            assert(alloc.used() <= alloc.total());
            lemma_clone_finish(
                gs,
                src_table,
                new_space,
                *mem,
                *alloc,
                *old(mem),
                *old(alloc),
            );
            assert forall|k: u64| #[trigger] old(self).table.utable@.contains_key(k)
                implies mem@.contains_key(old(self).table.utable@[k].phys) && mem@[old(
                self,
            ).table.utable@[k].phys]@ == old(mem)@[old(self).table.utable@[k].phys]@ by {
                let sp = old(self).table.utable@[k].phys;
                assert(sp <= sp as int && (sp as int) < sp + PAGE_SIZE);
                assert(old(mem)@.contains_key(sp));
                assert(!old(alloc).is_free(sp as int));
            }
        }
        Ok(new_space)
    }
}

/// What cloning one non-file-backed grant means, page by page: every page
/// of the grant's region is present in the clone's table with the grant's
/// flags. A borrowed grant shares the source frame exactly; an owned grant
/// has a fresh frame, distinct from the source's and not free, whose page
/// in memory carries the same bytes as the source page.
#[verifier::opaque]
pub open spec fn cloned_grant_ok(
    src_table: Map<u64, crate::mapper::PageEntry>,
    new_table: Map<u64, crate::mapper::PageEntry>,
    mem: PhysMem,
    alloc: LockedAllocator,
    g: Grant,
) -> bool {
    forall|p: int|
        0 <= p < g.region.size as int / PAGE_SIZE as int ==> {
            let key = #[trigger] page_key(g.region.start.addr, p);
            &&& new_table.contains_key(key)
            &&& new_table[key].flags == g.flags
            &&& (!g.owned ==> new_table[key].phys == src_table[key].phys)
            &&& (g.owned ==> {
                &&& new_table[key].phys != src_table[key].phys
                &&& mem@.contains_key(new_table[key].phys)
                &&& mem@.contains_key(src_table[key].phys)
                &&& mem@[new_table[key].phys]@ == mem@[src_table[key].phys]@
                &&& !alloc.is_free(new_table[key].phys as int)
            })
        }
}

/// Clone one owned, non-file-backed grant into another table: allocate a
/// fresh zero-filled span at the same addresses, then copy the source
/// pages' bytes over it frame by frame through the physmap window.
#[verifier::rlimit(100)]
#[verifier::spinoff_prover]
fn clone_owned_grant(
    g: Grant,
    src_mapper: &Mapper,
    new_mapper: &mut Mapper,
    alloc: &mut LockedAllocator,
    mem: &mut PhysMem,
) -> (r: Result<Grant, Error>)
    requires
        g.owned,
        g.desc_opt is None,
        region_wf(g.region),
        forall|p: int|
            0 <= p < g.region.size as int / PAGE_SIZE as int ==> src_mapper@.contains_key(
                #[trigger] page_key(g.region.start.addr, p),
            ),
        span_unmapped(
            old(new_mapper)@,
            g.region.start.addr,
            (g.region.size / PAGE_SIZE) as u64,
        ),
        old(alloc).wf(),
        old(mem).wf(),
        forall|p: int|
            0 <= p < g.region.size as int / PAGE_SIZE as int ==> old(mem)@.contains_key(
                (#[trigger] src_mapper@[page_key(g.region.start.addr, p)]).phys,
            ),
        forall|p: int|
            0 <= p < g.region.size as int / PAGE_SIZE as int ==> !old(alloc).is_free(
                (#[trigger] src_mapper@[page_key(g.region.start.addr, p)]).phys as int,
            ),
    ensures
        final(new_mapper).root == old(new_mapper).root,
        final(alloc).wf(),
        final(mem).wf(),
        final(alloc).total() == old(alloc).total(),
        final(alloc).initialized() == old(alloc).initialized(),
        r is Ok <==> (old(alloc).initialized() && old(alloc).total() - old(alloc).used()
            >= g.region.size as int / PAGE_SIZE as int),
        forall|a: int| #[trigger] final(alloc).is_free(a) ==> old(alloc).is_free(a),
        forall|f: u64| #[trigger] old(mem)@.contains_key(f) ==> final(mem)@.contains_key(f),
        forall|f: u64|
            #[trigger] old(mem)@.contains_key(f) && !old(alloc).is_free(f as int) ==> final(mem)@[f] == old(mem)@[f],
        forall|k: u64|
            #![trigger final(new_mapper)@.contains_key(k)]
            #![trigger final(new_mapper)@[k]]
            !in_page_span(k, g.region.start.addr, (g.region.size / PAGE_SIZE) as u64) ==> final(new_mapper)@.contains_key(k) == old(new_mapper)@.contains_key(k) && (old(new_mapper)@.contains_key(k) ==> final(new_mapper)@[k] == old(new_mapper)@[k]),
        match r {
            Ok(ng) => {
                &&& ng.region == g.region
                &&& ng.flags == g.flags
                &&& ng.mapped
                &&& ng.owned
                &&& ng.desc_opt is None
                &&& final(alloc).used() == old(alloc).used() + g.region.size as int
                    / PAGE_SIZE as int
                &&& cloned_grant_ok(
                    src_mapper@,
                    final(new_mapper)@,
                    *final(mem),
                    *final(alloc),
                    g,
                )
            },
            Err(e) => {
                &&& e == Error::Enomem
                &&& final(new_mapper)@ == old(new_mapper)@
                &&& final(alloc).used() == old(alloc).used()
                &&& forall|a: int| #[trigger] final(alloc).is_free(a) <==> old(alloc).is_free(a)
            },
        },
{
    let page = Page { start: g.region.start.addr };
    let page_count = g.region.size / PAGE_SIZE;
    proof {
        let p = PAGE_SIZE as int;
        vstd::arithmetic::div_mod::lemma_fundamental_div_mod(g.region.size as int, p);
        assert(g.region.size as int == p * (page_count as int));
        assert(page_count * PAGE_SIZE == g.region.size) by (nonlinear_arith)
            requires
                g.region.size as int == PAGE_SIZE as int * (page_count as int),
        ;
    }
    let mut flusher = InactiveFlusher {  };
    let ng = match Grant::zeroed(
        page,
        page_count,
        g.flags(),
        new_mapper,
        alloc,
        mem,
        &mut flusher,
    ) {
        Ok(ng) => ng,
        Err(e) => {
            return Err(e);
        },
    };

    // Copy the source bytes page by page through the physmap window. Only
    // the fresh frames — whose bytes were free — are written; every other
    // frame keeps its bytes.
    let ghost base = g.region.start.addr;
    let ghost table_after = new_mapper@;
    let ghost mem_after = *mem;
    let mut q: u64 = 0;
    while q < page_count
        invariant
            0 <= q <= page_count,
            region_wf(g.region),
            base == g.region.start.addr,
            page.start == base,
            page_count == (g.region.size / PAGE_SIZE) as u64,
            page_count * PAGE_SIZE == g.region.size,
            mem.wf(),
            new_mapper@ == table_after,
            forall|p: int|
                0 <= p < page_count ==> src_mapper@.contains_key(#[trigger] page_key(base, p)),
            forall|p: int|
                0 <= p < page_count ==> old(mem)@.contains_key(
                    (#[trigger] src_mapper@[page_key(base, p)]).phys,
                ),
            forall|p: int|
                0 <= p < page_count ==> !old(alloc).is_free(
                    (#[trigger] src_mapper@[page_key(base, p)]).phys as int,
                ),
            forall|p: int|
                0 <= p < page_count ==> table_after.contains_key(#[trigger] page_key(base, p)),
            forall|p: int|
                0 <= p < page_count ==> old(alloc).is_free(
                    (#[trigger] table_after[page_key(base, p)]).phys as int,
                ),
            forall|p: int, p2: int|
                0 <= p < page_count && 0 <= p2 < page_count && p != p2 ==> (
                #[trigger] table_after[page_key(base, p)]).phys != (#[trigger] table_after[
                    page_key(base, p2)]).phys,
            forall|p: int|
                0 <= p < page_count ==> mem_after@.contains_key(
                    (#[trigger] table_after[page_key(base, p)]).phys,
                ),
            forall|f: u64| #[trigger] old(mem)@.contains_key(f) ==> mem_after@.contains_key(f),
            forall|f: u64| #[trigger] mem_after@.contains_key(f) <==> mem@.contains_key(f),
            forall|f: u64|
                #[trigger] mem_after@.contains_key(f) && !old(alloc).is_free(f as int) ==> mem@[f]
                    == mem_after@[f],
            forall|p2: int|
                0 <= p2 < q ==> mem@[(#[trigger] table_after[page_key(base, p2)]).phys]@ == mem@[
                    src_mapper@[page_key(base, p2)].phys]@,
        decreases page_count - q,
    {
        let vpage = page.next_by(q);
        proof {
            assert(vpage.start == page_key(base, q as int));
            assert(src_mapper@.contains_key(vpage.start));
            assert(new_mapper@.contains_key(vpage.start));
            assert(old(mem)@.contains_key(src_mapper@[vpage.start].phys));
            assert(mem_after@.contains_key(src_mapper@[vpage.start].phys));
            assert(mem@.contains_key(src_mapper@[vpage.start].phys));
            assert(mem_after@.contains_key(table_after[vpage.start].phys));
            assert(mem@.contains_key(table_after[vpage.start].phys));
        }
        let (src_frame, _sf) = src_mapper.translate(vpage.start_address()).unwrap();
        let (dst_frame, _df) = new_mapper.translate(vpage.start_address()).unwrap();
        let ghost pre_copy = *mem;
        mem.copy_frame(src_frame.data(), dst_frame.data());
        proof {
            // the destination frame is fresh: its bytes were free, while no
            // source frame's were
            assert(dst_frame.addr == table_after[page_key(base, q as int)].phys);
            assert(src_frame.addr == src_mapper@[page_key(base, q as int)].phys);
            assert(old(alloc).is_free(dst_frame.addr as int));
            assert(!old(alloc).is_free(src_frame.addr as int));
            assert(src_frame.addr != dst_frame.addr);
            assert forall|p2: int|
                0 <= p2 < q + 1 implies mem@[(#[trigger] table_after[page_key(
                base,
                p2,
            )]).phys]@ == mem@[src_mapper@[page_key(base, p2)].phys]@ by {
                let dphys = table_after[page_key(base, p2)].phys;
                let sphys = src_mapper@[page_key(base, p2)].phys;
                assert(!old(alloc).is_free(sphys as int));
                assert(sphys != dst_frame.addr);
                if p2 < q {
                    assert(dphys != dst_frame.addr);
                    assert(mem@[dphys] == pre_copy@[dphys]);
                    assert(mem@[sphys] == pre_copy@[sphys]);
                }
            }
        }
        q += 1;
    }
    proof {
        reveal(cloned_grant_ok);
        assert forall|p: int|
            0 <= p < g.region.size as int / PAGE_SIZE as int implies {
            let key = #[trigger] page_key(g.region.start.addr, p);
            &&& new_mapper@.contains_key(key)
            &&& new_mapper@[key].flags == g.flags
            &&& (!g.owned ==> new_mapper@[key].phys == src_mapper@[key].phys)
            &&& (g.owned ==> {
                &&& new_mapper@[key].phys != src_mapper@[key].phys
                &&& mem@.contains_key(new_mapper@[key].phys)
                &&& mem@.contains_key(src_mapper@[key].phys)
                &&& mem@[new_mapper@[key].phys]@ == mem@[src_mapper@[key].phys]@
                &&& !alloc.is_free(new_mapper@[key].phys as int)
            })
        } by {
            let key = page_key(g.region.start.addr, p);
            assert(old(alloc).is_free(table_after[key].phys as int));
            assert(!old(alloc).is_free(src_mapper@[key].phys as int));
            assert(mem_after@.contains_key(table_after[key].phys));
            assert(mem_after@.contains_key(src_mapper@[key].phys));
        }
    }
    Ok(ng)
}

/// Processing one more grant does not disturb the clones of the grants
/// before it: their pages lie below the new grant's span, their frames are
/// not free and so keep their bytes, and the free set only shrinks.
#[verifier::rlimit(100)]
#[verifier::spinoff_prover]
proof fn lemma_clone_step_preserves(
    src_table: Map<u64, crate::mapper::PageEntry>,
    pre_table: Map<u64, crate::mapper::PageEntry>,
    post_table: Map<u64, crate::mapper::PageEntry>,
    pre_mem: PhysMem,
    post_mem: PhysMem,
    pre_alloc: LockedAllocator,
    post_alloc: LockedAllocator,
    base_alloc: LockedAllocator,
    gs: Seq<Grant>,
    i: int,
)
    requires
        crate::grants::grants_vec_wf(gs),
        0 <= i < gs.len(),
        forall|j: int, p: int|
            0 <= j < gs.len() && 0 <= p < gs[j].region.size as int / PAGE_SIZE as int
                ==> src_table.contains_key(#[trigger] page_key(gs[j].region.start.addr, p)),
        forall|k: u64|
            #[trigger] src_table.contains_key(k) ==> !base_alloc.is_free(
                src_table[k].phys as int,
            ),
        forall|a: int| #[trigger] pre_alloc.is_free(a) ==> base_alloc.is_free(a),
        forall|j: int|
            0 <= j < i && (#[trigger] gs[j]).desc_opt is None ==> cloned_grant_ok(
                src_table,
                pre_table,
                pre_mem,
                pre_alloc,
                gs[j],
            ),
        forall|k: u64|
            #![trigger post_table.contains_key(k)]
            #![trigger post_table[k]]
            !in_page_span(
                k,
                gs[i].region.start.addr,
                (gs[i].region.size / PAGE_SIZE) as u64,
            ) ==> post_table.contains_key(k) == pre_table.contains_key(k)
                && (pre_table.contains_key(k) ==> post_table[k] == pre_table[k]),
        forall|f: u64| #[trigger] pre_mem@.contains_key(f) ==> post_mem@.contains_key(f),
        forall|f: u64|
            #[trigger] pre_mem@.contains_key(f) && !pre_alloc.is_free(f as int) ==> post_mem@[f]
                == pre_mem@[f],
        forall|a: int| #[trigger] post_alloc.is_free(a) ==> pre_alloc.is_free(a),
    ensures
        forall|j: int|
            0 <= j < i && (#[trigger] gs[j]).desc_opt is None ==> cloned_grant_ok(
                src_table,
                post_table,
                post_mem,
                post_alloc,
                gs[j],
            ),
{
    reveal(cloned_grant_ok);
    assert forall|j: int| 0 <= j < i && (#[trigger] gs[j]).desc_opt is None implies cloned_grant_ok(
        src_table,
        post_table,
        post_mem,
        post_alloc,
        gs[j],
    ) by {
        assert(cloned_grant_ok(src_table, pre_table, pre_mem, pre_alloc, gs[j]));
        assert forall|p: int|
            0 <= p < gs[j].region.size as int / PAGE_SIZE as int implies {
            let key = #[trigger] page_key(gs[j].region.start.addr, p);
            &&& post_table.contains_key(key)
            &&& post_table[key].flags == gs[j].flags
            &&& (!gs[j].owned ==> post_table[key].phys == src_table[key].phys)
            &&& (gs[j].owned ==> {
                &&& post_table[key].phys != src_table[key].phys
                &&& post_mem@.contains_key(post_table[key].phys)
                &&& post_mem@.contains_key(src_table[key].phys)
                &&& post_mem@[post_table[key].phys]@ == post_mem@[src_table[key].phys]@
                &&& !post_alloc.is_free(post_table[key].phys as int)
            })
        } by {
            let key = page_key(gs[j].region.start.addr, p);
            // the key lies inside grant j's region, which ends before
            // grant i's begins
            let pj = PAGE_SIZE as int;
            vstd::arithmetic::div_mod::lemma_fundamental_div_mod(gs[j].region.size as int, pj);
            assert(crate::grants::region_wf(gs[j].region));
            assert((gs[j].region.size as int / pj) * pj == gs[j].region.size as int)
                by (nonlinear_arith)
                requires
                    gs[j].region.size as int == pj * (gs[j].region.size as int / pj),
            ;
            assert(gs[j].region.start_int() <= key < gs[j].region.end_int());
            assert(gs[j].region.end_int() <= gs[i].region.start_int());
            assert(!in_page_span(
                key,
                gs[i].region.start.addr,
                (gs[i].region.size / PAGE_SIZE) as u64,
            ));
            assert(post_table.contains_key(key) && post_table[key] == pre_table[key]);
            assert(src_table.contains_key(key));
            if gs[j].owned {
                let nf = pre_table[key].phys;
                let sf = src_table[key].phys;
                assert(!pre_alloc.is_free(nf as int));
                assert(!base_alloc.is_free(sf as int));
                assert(!pre_alloc.is_free(sf as int));
                assert(pre_mem@.contains_key(nf));
                assert(pre_mem@.contains_key(sf));
                assert(post_mem@[nf] == pre_mem@[nf]);
                assert(post_mem@[sf] == pre_mem@[sf]);
                assert(!post_alloc.is_free(nf as int));
            }
        }
    }
}

/// The frames a clone needs never go negative.
proof fn lemma_clone_frames_nonneg(gs: Seq<Grant>, n: int)
    requires
        n <= gs.len(),
    ensures
        clone_frames_upto(gs, n) >= 0,
    decreases n,
{
    if n > 0 {
        lemma_clone_frames_nonneg(gs, n - 1);
    }
}

/// The frames a clone needs only grow with more grants.
proof fn lemma_clone_frames_mono(gs: Seq<Grant>, a: int, b: int)
    requires
        0 <= a <= b <= gs.len(),
    ensures
        clone_frames_upto(gs, a) <= clone_frames_upto(gs, b),
    decreases b - a,
{
    if a < b {
        lemma_clone_frames_mono(gs, a, b - 1);
    }
}

/// After inserting the clone of source grant `i`, the correspondence
/// invariants of `try_clone` hold again.
#[verifier::rlimit(60)]
proof fn lemma_after_insert(
    pre: UserGrants,
    post: UserGrants,
    new_grant: Grant,
    gs: Seq<Grant>,
    i: int,
)
    requires
        0 <= i < gs.len(),
        gs[i].desc_opt is None,
        new_grant.region == gs[i].region,
        new_grant.flags == gs[i].flags,
        new_grant.owned == gs[i].owned,
        new_grant.mapped,
        new_grant.desc_opt is None,
        crate::grants::insert_rel(pre, post, new_grant),
        forall|t: int|
            0 <= t < pre.inner@.len() ==> exists|j: int|
                0 <= j < i && (#[trigger] pre.inner@[t]).region == (#[trigger] gs[j]).region && gs[
                    j].desc_opt is None && pre.inner@[t].flags == gs[j].flags
                    && pre.inner@[t].owned == gs[j].owned && pre.inner@[t].mapped
                    && pre.inner@[t].desc_opt is None,
        forall|j: int|
            0 <= j < i && (#[trigger] gs[j]).desc_opt is None ==> exists|t: int|
                0 <= t < pre.inner@.len() && (#[trigger] pre.inner@[t]).region == gs[j].region
                    && pre.inner@[t].flags == gs[j].flags && pre.inner@[t].owned == gs[j].owned
                    && pre.inner@[t].mapped && pre.inner@[t].desc_opt is None,
    ensures
        forall|t: int|
            0 <= t < post.inner@.len() ==> exists|j: int|
                0 <= j < i + 1 && (#[trigger] post.inner@[t]).region == (#[trigger] gs[j]).region
                    && gs[j].desc_opt is None && post.inner@[t].flags == gs[j].flags
                    && post.inner@[t].owned == gs[j].owned && post.inner@[t].mapped
                    && post.inner@[t].desc_opt is None,
        forall|j: int|
            0 <= j < i + 1 && (#[trigger] gs[j]).desc_opt is None ==> exists|t: int|
                0 <= t < post.inner@.len() && (#[trigger] post.inner@[t]).region == gs[j].region
                    && post.inner@[t].flags == gs[j].flags && post.inner@[t].owned == gs[j].owned
                    && post.inner@[t].mapped && post.inner@[t].desc_opt is None,
{
    let idx = choose|idx: int|
        0 <= idx <= pre.inner@.len() && (forall|k: int|
            0 <= k < idx ==> (#[trigger] pre.inner@[k]).region.start_int()
                < new_grant.region.start_int()) && (forall|k: int|
            idx <= k < pre.inner@.len() ==> (#[trigger] pre.inner@[k]).region.start_int()
                > new_grant.region.start_int()) && post.inner@ == pre.inner@.insert(idx, new_grant);
    assert forall|t: int| 0 <= t < post.inner@.len() implies exists|j: int|
        0 <= j < i + 1 && (#[trigger] post.inner@[t]).region == (#[trigger] gs[j]).region && gs[
            j].desc_opt is None && post.inner@[t].flags == gs[j].flags && post.inner@[t].owned
        == gs[j].owned && post.inner@[t].mapped && post.inner@[t].desc_opt is None by {
        if t == idx {
            assert(post.inner@[t] == new_grant);
            assert(post.inner@[t].region == gs[i].region && gs[i].desc_opt is None
                && post.inner@[t].flags == gs[i].flags && post.inner@[t].owned == gs[i].owned
                && post.inner@[t].mapped && post.inner@[t].desc_opt is None);
        } else {
            let to = if t < idx {
                t
            } else {
                t - 1
            };
            assert(post.inner@[t] == pre.inner@[to]);
            let j = choose|j: int|
                0 <= j < i && (#[trigger] pre.inner@[to]).region == (#[trigger] gs[j]).region && gs[
                    j].desc_opt is None && pre.inner@[to].flags == gs[j].flags
                    && pre.inner@[to].owned == gs[j].owned && pre.inner@[to].mapped
                    && pre.inner@[to].desc_opt is None;
            assert(post.inner@[t].region == gs[j].region && gs[j].desc_opt is None
                && post.inner@[t].flags == gs[j].flags && post.inner@[t].owned == gs[j].owned
                && post.inner@[t].mapped && post.inner@[t].desc_opt is None);
        }
    }
    assert forall|j: int| 0 <= j < i + 1 && (#[trigger] gs[j]).desc_opt is None implies exists|
        t: int,
    |
        0 <= t < post.inner@.len() && (#[trigger] post.inner@[t]).region == gs[j].region
            && post.inner@[t].flags == gs[j].flags && post.inner@[t].owned == gs[j].owned
            && post.inner@[t].mapped && post.inner@[t].desc_opt is None by {
        if j == i {
            assert(post.inner@[idx] == new_grant);
            assert(0 <= idx < post.inner@.len() && post.inner@[idx].region == gs[j].region
                && post.inner@[idx].flags == gs[j].flags && post.inner@[idx].owned == gs[j].owned
                && post.inner@[idx].mapped && post.inner@[idx].desc_opt is None);
        } else {
            let t = choose|t: int|
                0 <= t < pre.inner@.len() && (#[trigger] pre.inner@[t]).region == gs[j].region
                    && pre.inner@[t].flags == gs[j].flags && pre.inner@[t].owned == gs[j].owned
                    && pre.inner@[t].mapped && pre.inner@[t].desc_opt is None;
            let tn = if t < idx {
                t
            } else {
                t + 1
            };
            assert(post.inner@[tn] == pre.inner@[t]);
            assert(0 <= tn < post.inner@.len() && post.inner@[tn].region == gs[j].region
                && post.inner@[tn].flags == gs[j].flags && post.inner@[tn].owned == gs[j].owned
                && post.inner@[tn].mapped && post.inner@[tn].desc_opt is None);
        }
    }
}

/// Before grant `i` is cloned: none of its pages is in the new table —
/// the table holds only pages of the earlier, disjoint grants — while all
/// of them are mapped in the source; and the page count divides out
/// exactly.
#[verifier::rlimit(100)]
#[verifier::spinoff_prover]
proof fn lemma_clone_spans(
    gs: Seq<Grant>,
    i: int,
    new_table: Map<u64, crate::mapper::PageEntry>,
    src_table: Map<u64, crate::mapper::PageEntry>,
)
    requires
        crate::grants::grants_vec_wf(gs),
        0 <= i < gs.len(),
        forall|j: int, p: int|
            0 <= j < gs.len() && 0 <= p < gs[j].region.size as int / PAGE_SIZE as int
                ==> src_table.contains_key(#[trigger] page_key(gs[j].region.start.addr, p)),
        forall|k: u64|
            #[trigger] new_table.contains_key(k) ==> exists|j: int|
                0 <= j < i && (#[trigger] gs[j]).desc_opt is None && in_page_span(
                    k,
                    gs[j].region.start.addr,
                    (gs[j].region.size / PAGE_SIZE) as u64,
                ),
    ensures
        span_unmapped(new_table, gs[i].region.start.addr, (gs[i].region.size / PAGE_SIZE) as u64),
        forall|p: int|
            0 <= p < gs[i].region.size as int / PAGE_SIZE as int ==> src_table.contains_key(
                #[trigger] page_key(gs[i].region.start.addr, p),
            ),
        ((gs[i].region.size / PAGE_SIZE) as u64) * PAGE_SIZE == gs[i].region.size,
{
    let p = PAGE_SIZE as int;
    let count = (gs[i].region.size / PAGE_SIZE) as u64;
    assert(crate::grants::region_wf(gs[i].region));
    vstd::arithmetic::div_mod::lemma_fundamental_div_mod(gs[i].region.size as int, p);
    assert(gs[i].region.size as int == p * (count as int));
    assert(count * PAGE_SIZE == gs[i].region.size) by (nonlinear_arith)
        requires
            gs[i].region.size as int == PAGE_SIZE as int * (count as int),
    ;
    assert forall|q: int| 0 <= q < count implies !new_table.contains_key(
        #[trigger] page_key(gs[i].region.start.addr, q),
    ) by {
        let key = page_key(gs[i].region.start.addr, q);
        if new_table.contains_key(key) {
            let j = choose|j: int|
                0 <= j < i && (#[trigger] gs[j]).desc_opt is None && in_page_span(
                    key,
                    gs[j].region.start.addr,
                    (gs[j].region.size / PAGE_SIZE) as u64,
                );
            vstd::arithmetic::div_mod::lemma_fundamental_div_mod(gs[j].region.size as int, p);
            assert(crate::grants::region_wf(gs[j].region));
            assert((gs[j].region.size as int / p) * p == gs[j].region.size as int)
                by (nonlinear_arith)
                requires
                    gs[j].region.size as int == p * (gs[j].region.size as int / p),
            ;
            assert(gs[j].region.start_int() <= key < gs[j].region.end_int());
            assert(gs[i].region.start_int() <= key < gs[i].region.end_int());
            assert(gs[j].region.end_int() <= gs[i].region.start_int());
            assert(false);
        }
    }
}

/// A reborrowed grant is a faithful clone: each of its pages shares the
/// source frame and carries the grant's flags.
#[verifier::rlimit(60)]
#[verifier::spinoff_prover]
proof fn lemma_reborrow_clone_ok(
    src_table: Map<u64, crate::mapper::PageEntry>,
    new_table: Map<u64, crate::mapper::PageEntry>,
    mem: PhysMem,
    alloc: LockedAllocator,
    g: Grant,
)
    requires
        !g.owned,
        forall|p: int|
            0 <= p < g.region.size as int / PAGE_SIZE as int ==> new_table.contains_key(
                #[trigger] page_key(g.region.start.addr, p),
            ) && new_table[page_key(g.region.start.addr, p)] == (crate::mapper::PageEntry {
                phys: src_table[page_key(g.region.start.addr, p)].phys,
                flags: g.flags,
            }),
    ensures
        cloned_grant_ok(src_table, new_table, mem, alloc, g),
{
    reveal(cloned_grant_ok);
}

/// After mapping grant `i`'s span, the new table still holds only pages of
/// the grants processed so far.
#[verifier::rlimit(60)]
#[verifier::spinoff_prover]
proof fn lemma_containment_step(
    gs: Seq<Grant>,
    i: int,
    pre_table: Map<u64, crate::mapper::PageEntry>,
    post_table: Map<u64, crate::mapper::PageEntry>,
)
    requires
        0 <= i < gs.len(),
        gs[i].desc_opt is None,
        forall|k: u64|
            #[trigger] pre_table.contains_key(k) ==> exists|j: int|
                0 <= j < i && (#[trigger] gs[j]).desc_opt is None && in_page_span(
                    k,
                    gs[j].region.start.addr,
                    (gs[j].region.size / PAGE_SIZE) as u64,
                ),
        forall|k: u64|
            #![trigger post_table.contains_key(k)]
            #![trigger post_table[k]]
            !in_page_span(
                k,
                gs[i].region.start.addr,
                (gs[i].region.size / PAGE_SIZE) as u64,
            ) ==> post_table.contains_key(k) == pre_table.contains_key(k)
                && (pre_table.contains_key(k) ==> post_table[k] == pre_table[k]),
    ensures
        forall|k: u64|
            #[trigger] post_table.contains_key(k) ==> exists|j: int|
                0 <= j < i + 1 && (#[trigger] gs[j]).desc_opt is None && in_page_span(
                    k,
                    gs[j].region.start.addr,
                    (gs[j].region.size / PAGE_SIZE) as u64,
                ),
{
    assert forall|k: u64| #[trigger] post_table.contains_key(k) implies exists|j: int|
        0 <= j < i + 1 && (#[trigger] gs[j]).desc_opt is None && in_page_span(
            k,
            gs[j].region.start.addr,
            (gs[j].region.size / PAGE_SIZE) as u64,
        ) by {
        if in_page_span(k, gs[i].region.start.addr, (gs[i].region.size / PAGE_SIZE) as u64) {
            assert(0 <= i < i + 1 && gs[i].desc_opt is None && in_page_span(
                k,
                gs[i].region.start.addr,
                (gs[i].region.size / PAGE_SIZE) as u64,
            ));
        } else {
            assert(pre_table.contains_key(k));
        }
    }
}

/// The clone of grant `i` conflicts with none of the grants already in the
/// new space: their regions are regions of earlier source grants, which all
/// end before grant `i` begins.
#[verifier::rlimit(60)]
#[verifier::spinoff_prover]
proof fn lemma_new_grant_disjoint(gs: Seq<Grant>, i: int, region: Region, inner: Seq<Grant>)
    requires
        crate::grants::grants_vec_wf(gs),
        0 <= i < gs.len(),
        region == gs[i].region,
        forall|t: int|
            0 <= t < inner.len() ==> exists|j: int|
                0 <= j < i && (#[trigger] inner[t]).region == (#[trigger] gs[j]).region && gs[
                    j].desc_opt is None && inner[t].flags == gs[j].flags && inner[t].owned == gs[
                    j].owned && inner[t].mapped && inner[t].desc_opt is None,
    ensures
        forall|t: int|
            0 <= t < inner.len() ==> region.spec_disjoint((#[trigger] inner[t]).region),
{
    assert forall|t: int| 0 <= t < inner.len() implies region.spec_disjoint(
        (#[trigger] inner[t]).region,
    ) by {
        let j = choose|j: int|
            0 <= j < i && (#[trigger] inner[t]).region == (#[trigger] gs[j]).region && gs[
                j].desc_opt is None && inner[t].flags == gs[j].flags && inner[t].owned == gs[
                j].owned && inner[t].mapped && inner[t].desc_opt is None;
        assert(gs[j].region.end_int() <= gs[i].region.start_int());
    }
}

/// The loop invariant of `try_clone`, bundled: the new table holds only
/// pages of the grants before `i`; the new grants correspond one-for-one
/// to the non-file-backed source grants before `i`; and each of those is a
/// faithful clone.
#[verifier::opaque]
pub open spec fn clone_inv(
    gs: Seq<Grant>,
    i: int,
    src_table: Map<u64, crate::mapper::PageEntry>,
    table: Map<u64, crate::mapper::PageEntry>,
    inner: Seq<Grant>,
    mem: PhysMem,
    alloc: LockedAllocator,
) -> bool {
    &&& (forall|k: u64|
        #[trigger] table.contains_key(k) ==> exists|j: int|
            0 <= j < i && (#[trigger] gs[j]).desc_opt is None && in_page_span(
                k,
                gs[j].region.start.addr,
                (gs[j].region.size / PAGE_SIZE) as u64,
            ))
    &&& (forall|t: int|
        0 <= t < inner.len() ==> exists|j: int|
            0 <= j < i && (#[trigger] inner[t]).region == (#[trigger] gs[j]).region && gs[
                j].desc_opt is None && inner[t].flags == gs[j].flags && inner[t].owned == gs[
                j].owned && inner[t].mapped && inner[t].desc_opt is None)
    &&& (forall|j: int|
        0 <= j < i && (#[trigger] gs[j]).desc_opt is None ==> exists|t: int|
            0 <= t < inner.len() && (#[trigger] inner[t]).region == gs[j].region && inner[t].flags
                == gs[j].flags && inner[t].owned == gs[j].owned && inner[t].mapped
                && inner[t].desc_opt is None)
    &&& (forall|j: int|
        0 <= j < i && (#[trigger] gs[j]).desc_opt is None ==> cloned_grant_ok(
            src_table,
            table,
            mem,
            alloc,
            gs[j],
        ))
}

/// What `try_clone` knows of its source throughout, bundled: the grants
/// are well-formed and sorted, every grant page is mapped, and the mapped
/// frames are recorded in the initial memory and nowhere free.
#[verifier::opaque]
pub open spec fn clone_src_facts(
    gs: Seq<Grant>,
    src_table: Map<u64, crate::mapper::PageEntry>,
    base_mem: PhysMem,
    base_alloc: LockedAllocator,
) -> bool {
    &&& crate::grants::grants_vec_wf(gs)
    &&& (forall|j: int, p: int|
        0 <= j < gs.len() && 0 <= p < gs[j].region.size as int / PAGE_SIZE as int
            ==> src_table.contains_key(#[trigger] page_key(gs[j].region.start.addr, p)))
    &&& (forall|k: u64|
        #[trigger] src_table.contains_key(k) ==> base_mem@.contains_key(src_table[k].phys))
    &&& (forall|k: u64|
        #[trigger] src_table.contains_key(k) ==> !base_alloc.is_free(src_table[k].phys as int))
}

/// Establish the bundled source facts from a well-formed address space
/// whose frames are recorded and allocated.
#[verifier::rlimit(60)]
#[verifier::spinoff_prover]
proof fn lemma_clone_src_facts(space: AddrSpace, base_mem: PhysMem, base_alloc: LockedAllocator)
    requires
        space.wf(),
        forall|k: u64, a: int|
            #![trigger space.table.utable@[k], base_alloc.is_free(a)]
            space.table.utable@.contains_key(k) && space.table.utable@[k].phys <= a
                < space.table.utable@[k].phys + PAGE_SIZE ==> !base_alloc.is_free(a),
        forall|k: u64|
            #[trigger] space.table.utable@.contains_key(k) ==> base_mem@.contains_key(
                space.table.utable@[k].phys,
            ),
    ensures
        clone_src_facts(space.grants.inner@, space.table.utable@, base_mem, base_alloc),
{
    reveal(clone_src_facts);
    let gs = space.grants.inner@;
    let src_table = space.table.utable@;
    assert forall|j: int, p: int|
        0 <= j < gs.len() && 0 <= p < gs[j].region.size as int / PAGE_SIZE as int
        implies src_table.contains_key(#[trigger] page_key(gs[j].region.start.addr, p)) by {
        assert(space.grants.inner@[j] == gs[j]);
    }
    assert forall|k: u64| #[trigger] src_table.contains_key(k) implies !base_alloc.is_free(
        src_table[k].phys as int,
    ) by {
        let sp = src_table[k].phys;
        assert(sp <= sp as int && (sp as int) < sp + PAGE_SIZE);
    }
}

/// The bundled invariant at the start: nothing is cloned, the new table
/// and grant list are empty.
#[verifier::rlimit(60)]
#[verifier::spinoff_prover]
proof fn lemma_clone_init(
    gs: Seq<Grant>,
    src_table: Map<u64, crate::mapper::PageEntry>,
    table: Map<u64, crate::mapper::PageEntry>,
    inner: Seq<Grant>,
    mem: PhysMem,
    alloc: LockedAllocator,
)
    requires
        forall|k: u64| !(#[trigger] table.contains_key(k)),
        inner.len() == 0,
    ensures
        clone_inv(gs, 0, src_table, table, inner, mem, alloc),
{
    reveal(clone_inv);
}

/// Unpack what one clone step needs: the span to map is free in the new
/// table, the source side of it is mapped to recorded, allocated frames,
/// and the new grant's region conflicts with nothing inserted so far.
#[verifier::rlimit(100)]
#[verifier::spinoff_prover]
proof fn lemma_clone_prep(
    gs: Seq<Grant>,
    i: int,
    src_table: Map<u64, crate::mapper::PageEntry>,
    table: Map<u64, crate::mapper::PageEntry>,
    inner: Seq<Grant>,
    mem: PhysMem,
    alloc: LockedAllocator,
    base_mem: PhysMem,
    base_alloc: LockedAllocator,
    cur_mem: PhysMem,
    cur_alloc: LockedAllocator,
)
    requires
        0 <= i < gs.len(),
        clone_inv(gs, i, src_table, table, inner, mem, alloc),
        clone_src_facts(gs, src_table, base_mem, base_alloc),
        forall|f: u64| #[trigger] base_mem@.contains_key(f) ==> cur_mem@.contains_key(f),
        forall|a: int| #[trigger] cur_alloc.is_free(a) ==> base_alloc.is_free(a),
    ensures
        crate::grants::region_wf(gs[i].region),
        span_unmapped(table, gs[i].region.start.addr, (gs[i].region.size / PAGE_SIZE) as u64),
        ((gs[i].region.size / PAGE_SIZE) as u64) * PAGE_SIZE == gs[i].region.size,
        forall|p: int|
            0 <= p < gs[i].region.size as int / PAGE_SIZE as int ==> src_table.contains_key(
                #[trigger] page_key(gs[i].region.start.addr, p),
            ),
        forall|p: int|
            0 <= p < gs[i].region.size as int / PAGE_SIZE as int ==> cur_mem@.contains_key(
                (#[trigger] src_table[page_key(gs[i].region.start.addr, p)]).phys,
            ),
        forall|p: int|
            0 <= p < gs[i].region.size as int / PAGE_SIZE as int ==> !cur_alloc.is_free(
                (#[trigger] src_table[page_key(gs[i].region.start.addr, p)]).phys as int,
            ),
        forall|t: int|
            0 <= t < inner.len() ==> gs[i].region.spec_disjoint((#[trigger] inner[t]).region),
{
    reveal(clone_inv);
    reveal(clone_src_facts);
    lemma_clone_spans(gs, i, table, src_table);
    lemma_new_grant_disjoint(gs, i, gs[i].region, inner);
    assert forall|p: int|
        0 <= p < gs[i].region.size as int / PAGE_SIZE as int implies cur_mem@.contains_key(
        (#[trigger] src_table[page_key(gs[i].region.start.addr, p)]).phys,
    ) && !cur_alloc.is_free(src_table[page_key(gs[i].region.start.addr, p)].phys as int) by {
        let key = page_key(gs[i].region.start.addr, p);
        assert(src_table.contains_key(key));
        assert(base_mem@.contains_key(src_table[key].phys));
        assert(!base_alloc.is_free(src_table[key].phys as int));
    }
}

/// Re-pack the bundled invariant after one grant has been cloned and
/// inserted.
#[verifier::rlimit(100)]
#[verifier::spinoff_prover]
proof fn lemma_clone_pack(
    gs: Seq<Grant>,
    i: int,
    src_table: Map<u64, crate::mapper::PageEntry>,
    pre_table: Map<u64, crate::mapper::PageEntry>,
    post_table: Map<u64, crate::mapper::PageEntry>,
    pre_grants: UserGrants,
    post_grants: UserGrants,
    pre_mem: PhysMem,
    post_mem: PhysMem,
    pre_alloc: LockedAllocator,
    post_alloc: LockedAllocator,
    base_mem: PhysMem,
    base_alloc: LockedAllocator,
    new_grant: Grant,
)
    requires
        0 <= i < gs.len(),
        gs[i].desc_opt is None,
        clone_inv(gs, i, src_table, pre_table, pre_grants.inner@, pre_mem, pre_alloc),
        clone_src_facts(gs, src_table, base_mem, base_alloc),
        forall|a: int| #[trigger] pre_alloc.is_free(a) ==> base_alloc.is_free(a),
        new_grant.region == gs[i].region,
        new_grant.flags == gs[i].flags,
        new_grant.owned == gs[i].owned,
        new_grant.mapped,
        new_grant.desc_opt is None,
        crate::grants::insert_rel(pre_grants, post_grants, new_grant),
        cloned_grant_ok(src_table, post_table, post_mem, post_alloc, gs[i]),
        forall|k: u64|
            #![trigger post_table.contains_key(k)]
            #![trigger post_table[k]]
            !in_page_span(
                k,
                gs[i].region.start.addr,
                (gs[i].region.size / PAGE_SIZE) as u64,
            ) ==> post_table.contains_key(k) == pre_table.contains_key(k)
                && (pre_table.contains_key(k) ==> post_table[k] == pre_table[k]),
        forall|f: u64| #[trigger] pre_mem@.contains_key(f) ==> post_mem@.contains_key(f),
        forall|f: u64|
            #[trigger] pre_mem@.contains_key(f) && !pre_alloc.is_free(f as int) ==> post_mem@[f]
                == pre_mem@[f],
        forall|a: int| #[trigger] post_alloc.is_free(a) ==> pre_alloc.is_free(a),
    ensures
        clone_inv(gs, i + 1, src_table, post_table, post_grants.inner@, post_mem, post_alloc),
{
    reveal(clone_inv);
    reveal(clone_src_facts);
    lemma_clone_step_preserves(
        src_table,
        pre_table,
        post_table,
        pre_mem,
        post_mem,
        pre_alloc,
        post_alloc,
        base_alloc,
        gs,
        i,
    );
    lemma_containment_step(gs, i, pre_table, post_table);
    lemma_after_insert(pre_grants, post_grants, new_grant, gs, i);
}

/// Unpack the bundled invariant once every grant has been processed: the
/// clone's correspondence and per-grant clone facts, and the consistency
/// of the new space.
#[verifier::rlimit(100)]
#[verifier::spinoff_prover]
proof fn lemma_clone_finish(
    gs: Seq<Grant>,
    src_table: Map<u64, crate::mapper::PageEntry>,
    new_space: AddrSpace,
    mem: PhysMem,
    alloc: LockedAllocator,
    base_mem: PhysMem,
    base_alloc: LockedAllocator,
)
    requires
        clone_inv(
            gs,
            gs.len() as int,
            src_table,
            new_space.table.utable@,
            new_space.grants.inner@,
            mem,
            alloc,
        ),
        clone_src_facts(gs, src_table, base_mem, base_alloc),
        new_space.grants.wf(),
    ensures
        new_space.wf(),
        forall|t: int|
            0 <= t < new_space.grants.inner@.len() ==> exists|j: int|
                0 <= j < gs.len() && (#[trigger] new_space.grants.inner@[t]).region == (
                #[trigger] gs[j]).region && gs[j].desc_opt is None,
        forall|j: int|
            0 <= j < gs.len() && (#[trigger] gs[j]).desc_opt is None ==> exists|t: int|
                0 <= t < new_space.grants.inner@.len() && (
                #[trigger] new_space.grants.inner@[t]).region == gs[j].region
                    && new_space.grants.inner@[t].flags == gs[j].flags
                    && new_space.grants.inner@[t].owned == gs[j].owned
                    && new_space.grants.inner@[t].mapped && new_space.grants.inner@[t].desc_opt
                    is None,
        forall|j: int|
            0 <= j < gs.len() && (#[trigger] gs[j]).desc_opt is None ==> cloned_grant_ok(
                src_table,
                new_space.table.utable@,
                mem,
                alloc,
                gs[j],
            ),
{
    reveal(clone_inv);
    reveal(clone_src_facts);
    let n = gs.len() as int;
    let inner = new_space.grants.inner@;
    let table = new_space.table.utable@;
    assert forall|t: int, j2: int|
        #![trigger inner[t], page_key(inner[t].region.start.addr, j2)]
        0 <= t < inner.len() && 0 <= j2 < inner[t].region.size as int / PAGE_SIZE as int
        implies table.contains_key(page_key(inner[t].region.start.addr, j2)) by {
        let j = choose|j: int|
            0 <= j < n && (#[trigger] inner[t]).region == (#[trigger] gs[j]).region && gs[
                j].desc_opt is None && inner[t].flags == gs[j].flags && inner[t].owned == gs[
                j].owned && inner[t].mapped && inner[t].desc_opt is None;
        assert(cloned_grant_ok(src_table, table, mem, alloc, gs[j]));
        reveal(cloned_grant_ok);
        assert(table.contains_key(page_key(gs[j].region.start.addr, j2)));
    }
    assert forall|k: u64| #[trigger] table.contains_key(k) implies exists|t: int|
        0 <= t < inner.len() && in_page_span(
            k,
            (#[trigger] inner[t]).region.start.addr,
            (inner[t].region.size / PAGE_SIZE) as u64,
        ) by {
        let j = choose|j: int|
            0 <= j < n && (#[trigger] gs[j]).desc_opt is None && in_page_span(
                k,
                gs[j].region.start.addr,
                (gs[j].region.size / PAGE_SIZE) as u64,
            );
        let t = choose|t: int|
            0 <= t < inner.len() && (#[trigger] inner[t]).region == gs[j].region && inner[t].flags
                == gs[j].flags && inner[t].owned == gs[j].owned && inner[t].mapped
                && inner[t].desc_opt is None;
        assert(in_page_span(
            k,
            inner[t].region.start.addr,
            (inner[t].region.size / PAGE_SIZE) as u64,
        ));
    }
    assert forall|t: int| 0 <= t < inner.len() implies (#[trigger] inner[t]).mapped by {}
}

/// A skipped (file-backed) grant extends the bundled invariant for free.
#[verifier::rlimit(60)]
#[verifier::spinoff_prover]
proof fn lemma_clone_skip(
    gs: Seq<Grant>,
    i: int,
    src_table: Map<u64, crate::mapper::PageEntry>,
    table: Map<u64, crate::mapper::PageEntry>,
    inner: Seq<Grant>,
    mem: PhysMem,
    alloc: LockedAllocator,
)
    requires
        0 <= i < gs.len(),
        gs[i].desc_opt is Some,
        clone_inv(gs, i, src_table, table, inner, mem, alloc),
    ensures
        clone_inv(gs, i + 1, src_table, table, inner, mem, alloc),
{
    reveal(clone_inv);
    assert forall|k: u64| #[trigger] table.contains_key(k) implies exists|j: int|
        0 <= j < i + 1 && (#[trigger] gs[j]).desc_opt is None && in_page_span(
            k,
            gs[j].region.start.addr,
            (gs[j].region.size / PAGE_SIZE) as u64,
        ) by {
        let j = choose|j: int|
            0 <= j < i && (#[trigger] gs[j]).desc_opt is None && in_page_span(
                k,
                gs[j].region.start.addr,
                (gs[j].region.size / PAGE_SIZE) as u64,
            );
        assert(0 <= j < i + 1 && gs[j].desc_opt is None && in_page_span(
            k,
            gs[j].region.start.addr,
            (gs[j].region.size / PAGE_SIZE) as u64,
        ));
    }
    assert forall|t: int| 0 <= t < inner.len() implies exists|j: int|
        0 <= j < i + 1 && (#[trigger] inner[t]).region == (#[trigger] gs[j]).region && gs[
            j].desc_opt is None && inner[t].flags == gs[j].flags && inner[t].owned == gs[j].owned
            && inner[t].mapped && inner[t].desc_opt is None by {
        let j = choose|j: int|
            0 <= j < i && (#[trigger] inner[t]).region == (#[trigger] gs[j]).region && gs[
                j].desc_opt is None && inner[t].flags == gs[j].flags && inner[t].owned == gs[
                j].owned && inner[t].mapped && inner[t].desc_opt is None;
        assert(0 <= j < i + 1 && inner[t].region == gs[j].region && gs[j].desc_opt is None
            && inner[t].flags == gs[j].flags && inner[t].owned == gs[j].owned && inner[t].mapped
            && inner[t].desc_opt is None);
    }
}

/// The source frames keep their recorded bytes: they were never free, and
/// nothing writes a frame that is not free.
#[verifier::rlimit(60)]
#[verifier::spinoff_prover]
proof fn lemma_src_preserved(
    src_table: Map<u64, crate::mapper::PageEntry>,
    base_mem: PhysMem,
    base_alloc: LockedAllocator,
    cur_mem: PhysMem,
    gs: Seq<Grant>,
)
    requires
        clone_src_facts(gs, src_table, base_mem, base_alloc),
        forall|f: u64| #[trigger] base_mem@.contains_key(f) ==> cur_mem@.contains_key(f),
        forall|f: u64|
            #[trigger] base_mem@.contains_key(f) && !base_alloc.is_free(f as int)
                ==> cur_mem@[f] == base_mem@[f],
    ensures
        forall|k: u64|
            #[trigger] src_table.contains_key(k) ==> cur_mem@.contains_key(src_table[k].phys)
                && cur_mem@[src_table[k].phys]@ == base_mem@[src_table[k].phys]@,
{
    reveal(clone_src_facts);
    assert forall|k: u64| #[trigger] src_table.contains_key(k) implies cur_mem@.contains_key(
        src_table[k].phys,
    ) && cur_mem@[src_table[k].phys]@ == base_mem@[src_table[k].phys]@ by {
        let sp = src_table[k].phys;
        assert(base_mem@.contains_key(sp));
        assert(!base_alloc.is_free(sp as int));
        assert(cur_mem@[sp] == base_mem@[sp]);
    }
}

} // verus!
