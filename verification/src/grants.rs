//! The grant container of one user address space: an ordered set of grants
//! plus a parallel map of free holes, kept consistent with each other by
//! every mutation.

use vstd::prelude::*;

use crate::Error;
use crate::PAGE_SIZE;
use crate::USER_END_OFFSET;
use crate::addr::VirtualAddress;
use crate::flags::MapFlags;
use crate::grant::Grant;
use crate::region::Region;

verus! {

/// One free hole: a maximal contiguous page-aligned virtual range of the
/// user half not covered by any grant.
#[derive(Clone, Copy, Debug, PartialEq, Eq, Structural)]
pub struct Hole {
    /// First address of the hole.
    pub start: u64,
    /// Size of the hole in bytes; never zero.
    pub size: u64,
}

/// One past the last address of a hole.
pub open spec fn hole_end(h: Hole) -> int {
    h.start + h.size
}

/// A hole is non-empty, page-aligned, and lies inside the user half.
pub open spec fn hole_wf(h: Hole) -> bool {
    &&& h.size > 0
    &&& h.start as int % PAGE_SIZE as int == 0
    &&& h.size as int % PAGE_SIZE as int == 0
    &&& hole_end(h) <= USER_END_OFFSET
}

/// A grant region is non-empty, page-aligned, and lies inside the user half.
pub open spec fn region_wf(r: Region) -> bool {
    &&& r.size > 0
    &&& r.start.addr as int % PAGE_SIZE as int == 0
    &&& r.size as int % PAGE_SIZE as int == 0
    &&& r.end_int() <= USER_END_OFFSET
}

/// Whether the address `a` lies inside the region.
pub open spec fn region_contains(r: Region, a: int) -> bool {
    r.start_int() <= a < r.end_int()
}

/// The hole list is well-formed: every hole is well-formed, and the holes
/// are sorted with a strict gap between any two — no two holes overlap or
/// even touch.
pub open spec fn holes_vec_wf(hs: Seq<Hole>) -> bool {
    &&& forall|i: int| 0 <= i < hs.len() ==> hole_wf(#[trigger] hs[i])
    &&& forall|i: int, j: int|
        0 <= i < j < hs.len() ==> hole_end(#[trigger] hs[i]) < (#[trigger] hs[j]).start
}

/// Whether the address `a` lies inside some hole of the list.
pub open spec fn seq_in_holes(hs: Seq<Hole>, a: int) -> bool {
    exists|i: int| 0 <= i < hs.len() && (#[trigger] hs[i]).start <= a < hole_end(hs[i])
}

/// The grant list is well-formed: every region is well-formed, and the
/// grants are sorted by start with disjoint regions.
pub open spec fn grants_vec_wf(gs: Seq<Grant>) -> bool {
    &&& forall|i: int| 0 <= i < gs.len() ==> region_wf((#[trigger] gs[i]).region)
    &&& forall|i: int, j: int|
        0 <= i < j < gs.len() ==> (#[trigger] gs[i]).region.end_int() <= (
        #[trigger] gs[j]).region.start_int()
}

/// Whether the address `a` lies inside some grant's region.
pub open spec fn seq_in_grants(gs: Seq<Grant>, a: int) -> bool {
    exists|i: int| 0 <= i < gs.len() && region_contains((#[trigger] gs[i]).region, a)
}

/// The ordered set of grants of one address space, with the parallel
/// free-hole map, and the pending-funmap table that the scheme layer keeps.
#[derive(Debug)]
pub struct UserGrants {
    /// The grants, sorted by region start.
    pub inner: Vec<Grant>,
    /// The free holes, sorted by start, coalesced.
    pub holes: Vec<Hole>,
    /// Regions whose unmapping has been requested but is deferred to a
    /// scheme; the memory core only stores this table.
    pub funmap: Vec<(Region, VirtualAddress)>,
}

impl UserGrants {
    /// No two grants overlap.
    pub open spec fn grants_nonoverlapping(self) -> bool {
        forall|i: int, j: int|
            0 <= i < self.inner@.len() && 0 <= j < self.inner@.len() && i != j ==> (
            #[trigger] self.inner@[i]).region.spec_disjoint((#[trigger] self.inner@[j]).region)
    }

    /// The holes are exactly the complement of the grants within
    /// `[0, USER_END_OFFSET)`: together they partition the user half, and
    /// no address is both in a hole and in a grant.
    pub open spec fn holes_partition(self) -> bool {
        forall|a: int|
            0 <= a < USER_END_OFFSET ==> ((#[trigger] seq_in_holes(self.holes@, a))
                <==> !seq_in_grants(self.inner@, a))
    }

    /// No two holes touch: between any two holes lies at least one grant
    /// address.
    pub open spec fn holes_nonadjacent(self) -> bool {
        forall|i: int, j: int|
            0 <= i < j < self.holes@.len() ==> hole_end(#[trigger] self.holes@[i]) < (
            #[trigger] self.holes@[j]).start
    }

    /// The container invariant, preserved by every public mutation.
    pub open spec fn wf(self) -> bool {
        &&& grants_vec_wf(self.inner@)
        &&& holes_vec_wf(self.holes@)
        &&& self.holes_partition()
    }

    /// The grants, in address order.
    pub open spec fn grants_seq(self) -> Seq<Grant> {
        self.inner@
    }

    /// The holes, in address order.
    pub open spec fn holes_seq(self) -> Seq<Hole> {
        self.holes@
    }

    /// Whether the address `a` lies in a hole.
    pub open spec fn in_holes(self, a: int) -> bool {
        seq_in_holes(self.holes@, a)
    }

    /// Whether the address `a` lies in a grant.
    pub open spec fn in_grants(self, a: int) -> bool {
        seq_in_grants(self.inner@, a)
    }

    /// An empty container: no grants, and one hole spanning the whole user
    /// half.
    pub fn new() -> (r: Self)
        ensures
            r.wf(),
            r.inner@ =~= Seq::<Grant>::empty(),
            r.holes@ =~= seq![Hole { start: 0, size: USER_END_OFFSET }],
            r.funmap@ =~= Seq::<(Region, VirtualAddress)>::empty(),
    {
        let mut holes: Vec<Hole> = Vec::new();
        holes.push(Hole { start: 0, size: USER_END_OFFSET });
        let r = Self { inner: Vec::new(), holes, funmap: Vec::new() };
        proof {
            assert forall|a: int| 0 <= a < USER_END_OFFSET implies seq_in_holes(r.holes@, a)
                && !seq_in_grants(r.inner@, a) by {
                assert(r.holes@[0].start <= a < hole_end(r.holes@[0]));
            }
        }
        r
    }

    /// The grants, for iteration in address order.
    pub fn iter(&self) -> (r: &Vec<Grant>)
        ensures
            r@ == self.inner@,
    {
        &self.inner
    }

    /// Whether the container holds no grant.
    pub fn is_empty(&self) -> (r: bool)
        ensures
            r == (self.inner@.len() == 0),
    {
        self.inner.is_empty()
    }

    /// Give up the container and take its grants, in address order.
    pub fn into_iter(self) -> (r: Vec<Grant>)
        ensures
            r@ == self.inner@,
    {
        self.inner
    }

    /// The hole map, for inspection in address order.
    pub fn holes(&self) -> (r: &Vec<Hole>)
        ensures
            r@ == self.holes@,
    {
        &self.holes
    }
}

impl UserGrants {
    /// Update the hole map to exclude `region`, which must currently lie
    /// wholly within the holes.
    #[verifier::loop_isolation(false)]
    fn reserve(&mut self, region: &Region)
        requires
            holes_vec_wf(old(self).holes@),
            region_wf(*region),
            forall|a: int| region_contains(*region, a) ==> seq_in_holes(old(self).holes@, a),
        ensures
            final(self).inner@ == old(self).inner@,
            final(self).funmap@ == old(self).funmap@,
            holes_vec_wf(final(self).holes@),
            forall|a: int|
                #[trigger] seq_in_holes(final(self).holes@, a) <==> (seq_in_holes(
                    old(self).holes@,
                    a,
                ) && !region_contains(*region, a)),
    {
        let rs = region.start.data();
        let re = rs + region.size;
        let ghost old_holes = self.holes@;

        // Find the hole that contains the region's start.
        let mut i: usize = 0;
        while i < self.holes.len() && self.holes[i].start + self.holes[i].size <= rs
            invariant
                0 <= i <= self.holes@.len(),
                forall|k: int| 0 <= k < i ==> hole_end(old_holes[k]) <= rs,
            decreases self.holes@.len() - i,
        {
            i += 1;
        }

        proof {
            // The region starts in some hole; by the loop bound that hole is
            // at or after i, and by sortedness it must be hole i itself.
            assert(region_contains(*region, rs as int));
            assert(seq_in_holes(old_holes, rs as int));
            let idx = choose|idx: int|
                0 <= idx < old_holes.len() && (#[trigger] old_holes[idx]).start <= rs < hole_end(
                    old_holes[idx],
                );
            assert(idx >= i);
            assert(i < old_holes.len());
            if idx != i {
                assert(hole_end(old_holes[i as int]) < old_holes[idx].start);
                assert(false);
            }
            // The whole region fits inside hole i: otherwise the first
            // address past the hole would lie in the region, hence in some
            // hole, which sortedness rules out.
            let h0 = old_holes[i as int];
            if re > hole_end(h0) {
                let m = hole_end(h0);
                assert(region_contains(*region, m));
                assert(seq_in_holes(old_holes, m));
                let j = choose|j: int|
                    0 <= j < old_holes.len() && (#[trigger] old_holes[j]).start <= m < hole_end(
                        old_holes[j],
                    );
                if j < i {
                    assert(hole_end(old_holes[j]) < h0.start);
                } else if j > i {
                    assert(hole_end(h0) < old_holes[j].start);
                }
                assert(false);
            }
        }

        let h = self.holes[i];
        let left = rs - h.start;
        let right = (h.start + h.size) - re;
        self.holes.remove(i);
        if right > 0 {
            self.holes.insert(i, Hole { start: re, size: right });
        }
        if left > 0 {
            self.holes.insert(i, Hole { start: h.start, size: left });
        }

        proof {
            let ghost mid = if left > 0 && right > 0 {
                seq![Hole { start: h.start, size: left }, Hole { start: re, size: right }]
            } else if left > 0 {
                seq![Hole { start: h.start, size: left }]
            } else if right > 0 {
                seq![Hole { start: re, size: right }]
            } else {
                Seq::<Hole>::empty()
            };
            assert(self.holes@ =~= old_holes.take(i as int) + mid + old_holes.skip(i as int + 1));
            lemma_aligned(rs as int, h.start as int);
            lemma_aligned(h.start as int + h.size, re as int);
            lemma_aligned(rs as int, region.size as int);
            assert forall|k: int| 0 <= k < mid.len() implies hole_wf(#[trigger] mid[k]) by {
                assert(hole_wf(old_holes[i as int]));
            }
            assert forall|a: int| #[trigger] seq_in_holes(mid, a) implies (h.start <= a < rs || re
                <= a < hole_end(old_holes[i as int])) by {}
            assert forall|a: int| (h.start <= a < rs || re <= a < hole_end(old_holes[i as int]))
                implies #[trigger] seq_in_holes(mid, a) by {
                if h.start <= a < rs {
                    assert(mid[0].start <= a < hole_end(mid[0]));
                } else {
                    let k = mid.len() as int - 1;
                    assert(mid[k].start <= a < hole_end(mid[k]));
                }
            }
            lemma_holes_splice_wf(old_holes, i as int, i as int + 1, mid, self.holes@);
            lemma_carve_points(
                old_holes,
                i as int,
                mid,
                self.holes@,
                rs as int,
                re as int,
            );
        }
    }
}

/// How `insert` changes the container: the grant enters the sorted grant
/// list at its position, the holes lose exactly the grant's region, and the
/// funmap table is untouched.
pub open spec fn insert_rel(pre: UserGrants, post: UserGrants, grant: Grant) -> bool {
    &&& post.funmap@ == pre.funmap@
    &&& exists|idx: int|
        0 <= idx <= pre.inner@.len() && (forall|k: int|
            0 <= k < idx ==> (#[trigger] pre.inner@[k]).region.start_int()
                < grant.region.start_int()) && (forall|k: int|
            idx <= k < pre.inner@.len() ==> (#[trigger] pre.inner@[k]).region.start_int()
                > grant.region.start_int()) && post.inner@ == pre.inner@.insert(idx, grant)
    &&& forall|a: int|
        #[trigger] seq_in_holes(post.holes@, a) <==> (seq_in_holes(pre.holes@, a)
            && !region_contains(grant.region, a))
}

/// How `take` changes the container: when a grant keyed by the region's
/// start exists it leaves the grant list, its region returns to the holes,
/// and it is handed back; otherwise nothing changes.
pub open spec fn take_rel(
    pre: UserGrants,
    post: UserGrants,
    region: Region,
    r: Option<Grant>,
) -> bool {
    match r {
        Some(g) => {
            &&& post.funmap@ == pre.funmap@
            &&& exists|idx: int|
                0 <= idx < pre.inner@.len() && #[trigger] pre.inner@[idx] == g && post.inner@
                    == pre.inner@.remove(idx)
            &&& g.region.start == region.start
            &&& forall|a: int|
                #[trigger] seq_in_holes(post.holes@, a) <==> (seq_in_holes(pre.holes@, a)
                    || region_contains(g.region, a))
        },
        None => {
            &&& post == pre
            &&& forall|i: int|
                0 <= i < pre.inner@.len() ==> (#[trigger] pre.inner@[i]).region.start_int()
                    != region.start_int()
        },
    }
}

impl UserGrants {
    /// Add a grant. It must not conflict with any existing grant, and its
    /// region must be well-formed: page-aligned, non-empty, inside the user
    /// half.
    #[verifier::loop_isolation(false)]
    pub fn insert(&mut self, grant: Grant)
        requires
            old(self).wf(),
            region_wf(grant.region),
            forall|i: int|
                0 <= i < old(self).inner@.len() ==> grant.region.spec_disjoint(
                    (#[trigger] old(self).inner@[i]).region,
                ),
        ensures
            final(self).wf(),
            insert_rel(*old(self), *final(self), grant),
    {
        let ghost pre = *self;
        proof {
            // Every address of the region is outside every grant, so by the
            // partition invariant it lies in a hole.
            assert forall|a: int| region_contains(grant.region, a) implies seq_in_holes(
                self.holes@,
                a,
            ) by {
                assert(0 <= a < USER_END_OFFSET);
                if seq_in_grants(self.inner@, a) {
                    let i = choose|i: int|
                        0 <= i < self.inner@.len() && region_contains(
                            (#[trigger] self.inner@[i]).region,
                            a,
                        );
                    assert(grant.region.spec_disjoint(self.inner@[i].region));
                    assert(false);
                }
            }
        }
        self.reserve(&grant.region);

        // Find the sorted position: the first grant starting above the new
        // one.
        let mut i: usize = 0;
        while i < self.inner.len() && self.inner[i].region.start.addr < grant.region.start.addr
            invariant
                0 <= i <= self.inner@.len(),
                forall|k: int|
                    0 <= k < i ==> (#[trigger] self.inner@[k]).region.start_int()
                        < grant.region.start_int(),
            decreases self.inner@.len() - i,
        {
            i += 1;
        }

        proof {
            // Grants at or after the position start strictly above: an equal
            // start would contradict disjointness of two non-empty regions.
            assert forall|k: int| i <= k < self.inner@.len() implies (
            #[trigger] self.inner@[k]).region.start_int() > grant.region.start_int() by {
                if k == i {
                    assert(self.inner@[k].region.start_int() >= grant.region.start_int());
                    if self.inner@[k].region.start_int() == grant.region.start_int() {
                        assert(grant.region.spec_disjoint(self.inner@[k].region));
                        assert(false);
                    }
                } else {
                    assert(self.inner@[i as int].region.end_int()
                        <= self.inner@[k].region.start_int());
                    assert(self.inner@[i as int].region.start_int()
                        >= grant.region.start_int());
                    if self.inner@[i as int].region.start_int() == grant.region.start_int() {
                        assert(grant.region.spec_disjoint(self.inner@[i as int].region));
                        assert(false);
                    }
                }
            }
        }
        let ghost mid_grants = self.inner@;
        self.inner.insert(i, grant);

        proof {
            let n = self.inner@;
            // Sortedness is kept: grants below end at or before the new
            // start; the new grant ends at or before those above.
            assert forall|x: int, y: int| 0 <= x < y < n.len() implies (
            #[trigger] n[x]).region.end_int() <= (#[trigger] n[y]).region.start_int() by {
                if x < i && y == i {
                    assert(n[x] == mid_grants[x]);
                    assert(mid_grants[x].region.start_int() < grant.region.start_int());
                    assert(grant.region.spec_disjoint(mid_grants[x].region));
                } else if x == i && y > i {
                    assert(n[y] == mid_grants[y - 1]);
                    assert(mid_grants[y - 1].region.start_int() > grant.region.start_int());
                    assert(grant.region.spec_disjoint(mid_grants[y - 1].region));
                } else if x < i && y > i {
                    assert(n[x] == mid_grants[x] && n[y] == mid_grants[y - 1]);
                } else {
                    assert(n[x] == mid_grants[x] && n[y] == mid_grants[y - 1]
                        || n[x] == mid_grants[x] && n[y] == mid_grants[y]
                        || n[x] == mid_grants[x - 1] && n[y] == mid_grants[y - 1]);
                }
            }
            // The partition invariant is restored: the new grant covers
            // exactly the addresses the holes lost.
            assert forall|a: int| 0 <= a < USER_END_OFFSET implies ((#[trigger] seq_in_holes(
                self.holes@,
                a,
            )) <==> !seq_in_grants(self.inner@, a)) by {
                assert(seq_in_grants(mid_grants, a) == seq_in_grants(pre.inner@, a));
                if region_contains(grant.region, a) {
                    assert(region_contains(n[i as int].region, a));
                    assert(seq_in_grants(n, a));
                } else {
                    if seq_in_grants(n, a) {
                        let j = choose|j: int|
                            0 <= j < n.len() && region_contains((#[trigger] n[j]).region, a);
                        assert(j != i);
                        if j < i {
                            assert(n[j] == mid_grants[j]);
                        } else {
                            assert(n[j] == mid_grants[j - 1]);
                        }
                        assert(seq_in_grants(mid_grants, a));
                    }
                    if seq_in_grants(mid_grants, a) {
                        let j = choose|j: int|
                            0 <= j < mid_grants.len() && region_contains(
                                (#[trigger] mid_grants[j]).region,
                                a,
                            );
                        if j < i {
                            assert(n[j] == mid_grants[j]);
                            assert(region_contains(n[j].region, a));
                        } else {
                            assert(n[j + 1] == mid_grants[j]);
                            assert(region_contains(n[j + 1].region, a));
                        }
                        assert(seq_in_grants(n, a));
                    }
                }
            }
            assert(insert_rel(pre, *self, grant));
        }
    }

    /// Remove the grant keyed by the region's start, give its region back
    /// to the holes, and return it; `None` when no grant has that start.
    #[verifier::loop_isolation(false)]
    pub fn take(&mut self, region: &Region) -> (r: Option<Grant>)
        requires
            old(self).wf(),
        ensures
            final(self).wf(),
            take_rel(*old(self), *final(self), *region, r),
    {
        let ghost pre = *self;
        let mut i: usize = 0;
        while i < self.inner.len() && self.inner[i].region.start.addr != region.start.addr
            invariant
                0 <= i <= self.inner@.len(),
                forall|k: int|
                    0 <= k < i ==> (#[trigger] self.inner@[k]).region.start_int()
                        != region.start_int(),
            decreases self.inner@.len() - i,
        {
            i += 1;
        }
        if i == self.inner.len() {
            return None;
        }
        let grant = self.inner[i];
        self.inner.remove(i);
        proof {
            // The taken grant's region is covered by no hole (it was a
            // grant) and by no other grant (grants are disjoint).
            assert forall|a: int| region_contains(grant.region, a) implies !seq_in_holes(
                self.holes@,
                a,
            ) by {
                assert(region_contains(pre.inner@[i as int].region, a));
                assert(seq_in_grants(pre.inner@, a));
                assert(0 <= a < USER_END_OFFSET);
            }
        }
        Self::unreserve(&mut self.holes, grant.region());
        proof {
            let n = self.inner@;
            assert(n == pre.inner@.remove(i as int));
            // Removing one grant removes exactly its region from the grant
            // cover: the other grants are disjoint from it.
            assert forall|a: int| 0 <= a < USER_END_OFFSET implies ((#[trigger] seq_in_holes(
                self.holes@,
                a,
            )) <==> !seq_in_grants(n, a)) by {
                if region_contains(grant.region, a) {
                    if seq_in_grants(n, a) {
                        let j = choose|j: int|
                            0 <= j < n.len() && region_contains((#[trigger] n[j]).region, a);
                        let jo = if j < i {
                            j
                        } else {
                            j + 1
                        };
                        assert(n[j] == pre.inner@[jo]);
                        assert(jo != i);
                        if jo < i {
                            assert(pre.inner@[jo].region.end_int()
                                <= pre.inner@[i as int].region.start_int());
                        } else {
                            assert(pre.inner@[i as int].region.end_int()
                                <= pre.inner@[jo].region.start_int());
                        }
                        assert(false);
                    }
                } else {
                    if seq_in_grants(n, a) {
                        let j = choose|j: int|
                            0 <= j < n.len() && region_contains((#[trigger] n[j]).region, a);
                        let jo = if j < i {
                            j
                        } else {
                            j + 1
                        };
                        assert(n[j] == pre.inner@[jo]);
                        assert(seq_in_grants(pre.inner@, a));
                    }
                    if seq_in_grants(pre.inner@, a) {
                        let j = choose|j: int|
                            0 <= j < pre.inner@.len() && region_contains(
                                (#[trigger] pre.inner@[j]).region,
                                a,
                            );
                        assert(j != i);
                        let jn = if j < i {
                            j
                        } else {
                            j - 1
                        };
                        assert(n[jn] == pre.inner@[j]);
                        assert(seq_in_grants(n, a));
                    }
                }
            }
            assert(take_rel(pre, *self, *region, Some(grant)));
        }
        Some(grant)
    }

    /// Remove the grant keyed by the region's start, returning whether one
    /// was there.
    pub fn remove(&mut self, region: &Region) -> (r: bool)
        requires
            old(self).wf(),
        ensures
            final(self).wf(),
            r ==> exists|g: Grant| take_rel(*old(self), *final(self), *region, Some(g)),
            !r ==> take_rel(*old(self), *final(self), *region, None::<Grant>),
    {
        self.take(region).is_some()
    }

    /// Returns the grant, if any, which occupies the specified address.
    #[verifier::loop_isolation(false)]
    pub fn contains(&self, address: VirtualAddress) -> (r: Option<Grant>)
        requires
            self.wf(),
        ensures
            match r {
                Some(g) => exists|i: int|
                    0 <= i < self.inner@.len() && #[trigger] self.inner@[i] == g && region_contains(
                        g.region,
                        address.addr as int,
                    ),
                None => !seq_in_grants(self.inner@, address.addr as int),
            },
    {
        let mut i: usize = 0;
        while i < self.inner.len()
            invariant
                0 <= i <= self.inner@.len(),
                forall|k: int|
                    0 <= k < i ==> !region_contains(
                        (#[trigger] self.inner@[k]).region,
                        address.addr as int,
                    ),
            decreases self.inner@.len() - i,
        {
            let g = self.inner[i];
            if g.region.start.addr <= address.addr && address.addr - g.region.start.addr
                < g.region.size {
                return Some(g);
            }
            i += 1;
        }
        None
    }

    /// Returns every grant that occupies some part of the requested region,
    /// in address order.
    #[verifier::loop_isolation(false)]
    #[verifier::rlimit(100)]
    #[verifier::spinoff_prover]
    pub fn conflicts(&self, requested: Region) -> (r: Vec<Grant>)
        requires
            self.wf(),
            requested.end_int() <= u64::MAX,
        ensures
            forall|k: int|
                0 <= k < r@.len() ==> exists|i: int|
                    0 <= i < self.inner@.len() && #[trigger] r@[k] == self.inner@[i]
                        && !r@[k].region.spec_disjoint(requested),
            forall|i: int|
                0 <= i < self.inner@.len() && !(#[trigger] self.inner@[i]).region.spec_disjoint(
                    requested,
                ) ==> exists|k: int| 0 <= k < r@.len() && r@[k] == self.inner@[i],
            (r@.len() == 0) <==> (forall|i: int|
                0 <= i < self.inner@.len() ==> (#[trigger] self.inner@[i]).region.spec_disjoint(
                    requested,
                )),
            forall|k1: int, k2: int|
                0 <= k1 < k2 < r@.len() ==> (#[trigger] r@[k1]).region.end_int() <= (
                #[trigger] r@[k2]).region.start_int(),
    {
        let mut out: Vec<Grant> = Vec::new();
        let mut i: usize = 0;
        while i < self.inner.len()
            invariant
                0 <= i <= self.inner@.len(),
                forall|k: int|
                    0 <= k < out@.len() ==> exists|j: int|
                        0 <= j < i && #[trigger] out@[k] == self.inner@[j]
                            && !out@[k].region.spec_disjoint(requested),
                forall|k1: int, k2: int|
                    0 <= k1 < k2 < out@.len() ==> (#[trigger] out@[k1]).region.end_int() <= (
                    #[trigger] out@[k2]).region.start_int(),
                forall|j: int|
                    0 <= j < i && !(#[trigger] self.inner@[j]).region.spec_disjoint(requested)
                        ==> exists|k: int| 0 <= k < out@.len() && out@[k] == self.inner@[j],
                out@.len() > 0 ==> exists|j: int|
                    0 <= j < self.inner@.len() && !(
                    #[trigger] self.inner@[j]).region.spec_disjoint(requested),
            decreases self.inner@.len() - i,
        {
            let g = self.inner[i];
            let g_end = g.region.start.addr + g.region.size;
            let req_end = requested.start.addr + requested.size;
            if !(g_end <= requested.start.addr || req_end <= g.region.start.addr) {
                let ghost old_out = out@;
                out.push(g);
                proof {
                    assert(out@[out@.len() - 1] == self.inner@[i as int]);
                    assert forall|k1: int, k2: int|
                        0 <= k1 < k2 < out@.len() implies (#[trigger] out@[k1]).region.end_int()
                        <= (#[trigger] out@[k2]).region.start_int() by {
                        if k2 == out@.len() - 1 {
                            let j = choose|j: int|
                                0 <= j < i && #[trigger] old_out[k1] == self.inner@[j]
                                    && !old_out[k1].region.spec_disjoint(requested);
                            assert(out@[k1] == self.inner@[j]);
                            assert(self.inner@[j].region.end_int()
                                <= self.inner@[i as int].region.start_int());
                        }
                    }
                    assert forall|j: int|
                        0 <= j < i + 1 && !(#[trigger] self.inner@[j]).region.spec_disjoint(
                            requested,
                        ) implies exists|k: int| 0 <= k < out@.len() && out@[k]
                        == self.inner@[j] by {
                        if j < i {
                            let k = choose|k: int|
                                0 <= k < old_out.len() && #[trigger] old_out[k] == self.inner@[j];
                            assert(out@[k] == self.inner@[j]);
                        } else {
                            assert(out@[out@.len() - 1] == self.inner@[j]);
                        }
                    }
                }
            }
            i += 1;
        }
        out
    }
}

/// The size a hole can serve: the hole at address zero keeps its first page
/// back, to reserve the null page.
pub open spec fn hole_usable_size(h: Hole) -> int {
    if h.start == 0 {
        if h.size >= PAGE_SIZE {
            h.size - PAGE_SIZE
        } else {
            0
        }
    } else {
        h.size as int
    }
}

/// What `find_free` returns: the first hole that can serve `size` bytes,
/// with the null page stepped over.
pub open spec fn find_free_spec(hs: Seq<Hole>, size: int) -> Option<Region>
    decreases hs.len(),
{
    if hs.len() == 0 {
        None
    } else if size <= hole_usable_size(hs[0]) {
        let s = if hs[0].start >= PAGE_SIZE {
            hs[0].start as int
        } else {
            PAGE_SIZE as int
        };
        Some(Region { start: VirtualAddress { addr: s as u64 }, size: size as u64 })
    } else {
        find_free_spec(hs.drop_first(), size)
    }
}

impl UserGrants {
    /// Return the first free region of the given size, or `None` when no
    /// hole can serve it. The null page is never part of the result.
    #[verifier::loop_isolation(false)]
    pub fn find_free(&self, size: u64) -> (r: Option<Region>)
        requires
            self.wf(),
        ensures
            r == find_free_spec(self.holes@, size as int),
            r matches Some(reg) ==> {
                &&& reg.size == size
                &&& reg.start.addr as int % PAGE_SIZE as int == 0
                &&& reg.start.addr >= PAGE_SIZE
                &&& reg.end_int() <= USER_END_OFFSET
                &&& forall|i: int|
                    0 <= i < self.inner@.len() ==> reg.spec_disjoint(
                        (#[trigger] self.inner@[i]).region,
                    )
            },
    {
        proof {
            assert(self.holes@.skip(0) =~= self.holes@);
        }
        let mut i: usize = 0;
        while i < self.holes.len()
            invariant
                0 <= i <= self.holes@.len(),
                find_free_spec(self.holes@.skip(i as int), size as int) == find_free_spec(
                    self.holes@,
                    size as int,
                ),
            decreases self.holes@.len() - i,
        {
            let h = self.holes[i];
            let usable = if h.start == 0 {
                if h.size >= PAGE_SIZE {
                    h.size - PAGE_SIZE
                } else {
                    0
                }
            } else {
                h.size
            };
            proof {
                assert(self.holes@.skip(i as int)[0] == h);
            }
            if size <= usable {
                let s = if h.start >= PAGE_SIZE {
                    h.start
                } else {
                    PAGE_SIZE
                };
                let reg = Region::new(VirtualAddress::new(s), size);
                proof {
                    assert(hole_wf(h));
                    // The hole at zero is at least one page long, so the
                    // result starts at or inside the hole either way.
                    if h.start < PAGE_SIZE {
                        vstd::arithmetic::div_mod::lemma_small_mod(
                            h.start as nat,
                            PAGE_SIZE as nat,
                        );
                        assert(h.start == 0);
                    }
                    assert(reg.start.addr as int % PAGE_SIZE as int == 0);
                    assert(reg.end_int() <= hole_end(h));
                    // Any grant overlapping the result would put one of its
                    // addresses inside this hole, against the partition
                    // invariant; a grant just below the first page would
                    // have to contain the null page, which the hole covers.
                    assert forall|k: int| 0 <= k < self.inner@.len() implies reg.spec_disjoint(
                        (#[trigger] self.inner@[k]).region,
                    ) by {
                        let g = self.inner@[k].region;
                        if !reg.spec_disjoint(g) {
                            let m = if reg.start_int() >= g.start_int() {
                                reg.start_int()
                            } else {
                                g.start_int()
                            };
                            if reg.size > 0 {
                                assert(region_contains(g, m));
                                assert(seq_in_grants(self.inner@, m));
                                assert(h.start <= m < hole_end(h));
                                assert(seq_in_holes(self.holes@, m));
                                assert(false);
                            } else {
                                // An empty result can only be denied
                                // disjointness by a grant strictly
                                // containing its start address.
                                assert(g.start_int() < reg.start_int() < g.end_int());
                                if reg.start_int() < hole_end(h) {
                                    assert(seq_in_holes(self.holes@, reg.start_int()));
                                    assert(region_contains(g, reg.start_int()));
                                    assert(seq_in_grants(self.inner@, reg.start_int()));
                                    assert(false);
                                } else {
                                    // reg starts exactly at the hole's end:
                                    // the grant would start below it, inside
                                    // the hole or at the null page.
                                    assert(h.start == 0 && reg.start.addr == PAGE_SIZE);
                                    assert(region_wf(g));
                                    if g.start.addr < PAGE_SIZE {
                                        vstd::arithmetic::div_mod::lemma_small_mod(
                                            g.start.addr as nat,
                                            PAGE_SIZE as nat,
                                        );
                                        assert(g.start.addr == 0);
                                        assert(region_contains(g, 0));
                                        assert(seq_in_grants(self.inner@, 0));
                                        assert(h.start <= 0 < hole_end(h));
                                        assert(seq_in_holes(self.holes@, 0));
                                        assert(false);
                                    } else {
                                        assert(g.start_int() >= reg.start_int());
                                        assert(false);
                                    }
                                }
                            }
                        }
                    }
                }
                return Some(reg);
            }
            proof {
                assert(self.holes@.skip(i as int).drop_first() =~= self.holes@.skip(i as int + 1));
            }
            i += 1;
        }
        proof {
            assert(self.holes@.skip(i as int).len() == 0);
        }
        None
    }

    /// Return a free region, respecting the caller's hinted address and
    /// flags. A null address means no preference. An address above the user
    /// end or off a page boundary is invalid; a hinted address whose range
    /// overlaps an existing grant fails under the fixed flags and otherwise
    /// falls back to a kernel-chosen region.
    #[verifier::loop_isolation(false)]
    pub fn find_free_at(&mut self, address: VirtualAddress, size: u64, flags: MapFlags) -> (r:
        Result<Region, Error>)
        requires
            old(self).wf(),
        ensures
            *final(self) == *old(self),
            r == old(self).find_free_at_spec(address, size, flags),
    {
        if address.data() == 0 {
            return match self.find_free(size) {
                Some(reg) => Ok(reg),
                None => Err(Error::Enomem),
            };
        }

        let requested = Region::new(address, size);

        if address.addr > USER_END_OFFSET || size > USER_END_OFFSET - address.addr
            || address.addr % PAGE_SIZE != 0 {
            return Err(Error::Einval);
        }

        // Does the requested interval overlap any existing grant?
        let mut overlap = false;
        let mut i: usize = 0;
        while i < self.inner.len()
            invariant
                0 <= i <= self.inner@.len(),
                requested.end_int() <= USER_END_OFFSET,
                overlap <==> exists|j: int|
                    0 <= j < i && !(#[trigger] self.inner@[j]).region.spec_disjoint(requested),
            decreases self.inner@.len() - i,
        {
            let g = self.inner[i];
            let g_end = g.region.start.addr + g.region.size;
            let req_end = requested.start.addr + requested.size;
            if !(g_end <= requested.start.addr || req_end <= g.region.start.addr) {
                overlap = true;
                proof {
                    assert(!self.inner@[i as int].region.spec_disjoint(requested));
                }
            }
            i += 1;
        }

        if overlap {
            if flags.map_fixed_noreplace {
                Err(Error::Eexist)
            } else if flags.map_fixed {
                Err(Error::Eopnotsupp)
            } else {
                match self.find_free(size) {
                    Some(reg) => Ok(reg),
                    None => Err(Error::Enomem),
                }
            }
        } else {
            Ok(requested)
        }
    }

    /// What `find_free_at` decides, case by case.
    pub open spec fn find_free_at_spec(
        self,
        address: VirtualAddress,
        size: u64,
        flags: MapFlags,
    ) -> Result<Region, Error> {
        if address.addr == 0 {
            match find_free_spec(self.holes@, size as int) {
                Some(reg) => Ok(reg),
                None => Err(Error::Enomem),
            }
        } else if address.addr + size > USER_END_OFFSET || address.addr as int % PAGE_SIZE as int
            != 0 {
            Err(Error::Einval)
        } else if exists|j: int|
            0 <= j < self.inner@.len() && !(#[trigger] self.inner@[j]).region.spec_disjoint(
                Region { start: address, size },
            ) {
            if flags.map_fixed_noreplace {
                Err(Error::Eexist)
            } else if flags.map_fixed {
                Err(Error::Eopnotsupp)
            } else {
                match find_free_spec(self.holes@, size as int) {
                    Some(reg) => Ok(reg),
                    None => Err(Error::Enomem),
                }
            }
        } else {
            Ok(Region { start: address, size })
        }
    }
}

/// A well-formed container keeps the three structural invariants: no two
/// grants overlap; the holes and the grant regions partition the user half;
/// and no two holes are adjacent.
pub proof fn lemma_wf_invariants(ug: UserGrants)
    requires
        ug.wf(),
    ensures
        ug.grants_nonoverlapping(),
        ug.holes_partition(),
        ug.holes_nonadjacent(),
{
    assert forall|i: int, j: int|
        0 <= i < ug.inner@.len() && 0 <= j < ug.inner@.len() && i != j implies (
    #[trigger] ug.inner@[i]).region.spec_disjoint((#[trigger] ug.inner@[j]).region) by {
        if i < j {
            assert(ug.inner@[i].region.end_int() <= ug.inner@[j].region.start_int());
        } else {
            assert(ug.inner@[j].region.end_int() <= ug.inner@[i].region.start_int());
        }
    }
}

/// Two well-formed hole lists covering the same addresses are the same
/// list: the sorted, coalesced form is canonical.
pub proof fn lemma_holes_canonical(h1: Seq<Hole>, h2: Seq<Hole>)
    requires
        holes_vec_wf(h1),
        holes_vec_wf(h2),
        forall|a: int| #[trigger] seq_in_holes(h1, a) <==> seq_in_holes(h2, a),
    ensures
        h1 == h2,
    decreases h1.len(),
{
    if h1.len() == 0 {
        if h2.len() > 0 {
            assert(h2[0].start <= h2[0].start < hole_end(h2[0]));
            assert(seq_in_holes(h2, h2[0].start as int));
            assert(!seq_in_holes(h1, h2[0].start as int));
            assert(false);
        }
        assert(h1 =~= h2);
    } else {
        if h2.len() == 0 {
            assert(h1[0].start <= h1[0].start < hole_end(h1[0]));
            assert(seq_in_holes(h1, h1[0].start as int));
            assert(!seq_in_holes(h2, h1[0].start as int));
            assert(false);
        }
        // The first holes start together: each first start is covered by the
        // other list, and a covering hole there can only be the first one.
        let a1 = h1[0].start as int;
        let a2 = h2[0].start as int;
        assert(seq_in_holes(h1, a1));
        assert(seq_in_holes(h2, a2));
        if a1 < a2 {
            assert(seq_in_holes(h2, a1));
            let j = choose|j: int| 0 <= j < h2.len() && (#[trigger] h2[j]).start <= a1 < hole_end(
                h2[j],
            );
            if j > 0 {
                assert(hole_end(h2[0]) < h2[j].start);
            }
            assert(false);
        }
        if a2 < a1 {
            assert(seq_in_holes(h1, a2));
            let j = choose|j: int| 0 <= j < h1.len() && (#[trigger] h1[j]).start <= a2 < hole_end(
                h1[j],
            );
            if j > 0 {
                assert(hole_end(h1[0]) < h1[j].start);
            }
            assert(false);
        }
        // They end together: were one longer, the other list would have to
        // cover the shorter one's end with a later hole, but later holes
        // start past a gap.
        let e1 = hole_end(h1[0]);
        let e2 = hole_end(h2[0]);
        if e1 < e2 {
            assert(h2[0].start <= e1 < hole_end(h2[0]));
            assert(seq_in_holes(h2, e1));
            assert(seq_in_holes(h1, e1));
            let j = choose|j: int| 0 <= j < h1.len() && (#[trigger] h1[j]).start <= e1 < hole_end(
                h1[j],
            );
            if j > 0 {
                assert(hole_end(h1[0]) < h1[j].start);
            }
            assert(false);
        }
        if e2 < e1 {
            assert(h1[0].start <= e2 < hole_end(h1[0]));
            assert(seq_in_holes(h1, e2));
            assert(seq_in_holes(h2, e2));
            let j = choose|j: int| 0 <= j < h2.len() && (#[trigger] h2[j]).start <= e2 < hole_end(
                h2[j],
            );
            if j > 0 {
                assert(hole_end(h2[0]) < h2[j].start);
            }
            assert(false);
        }
        assert(h1[0] == h2[0]);
        // The tails cover the addresses above the first hole, and only
        // those; recurse.
        let t1 = h1.drop_first();
        let t2 = h2.drop_first();
        assert(holes_vec_wf(t1)) by {
            assert(forall|i: int| 0 <= i < t1.len() ==> t1[i] == h1[i + 1]);
        }
        assert(holes_vec_wf(t2)) by {
            assert(forall|i: int| 0 <= i < t2.len() ==> t2[i] == h2[i + 1]);
        }
        assert forall|a: int| #[trigger] seq_in_holes(t1, a) <==> seq_in_holes(t2, a) by {
            lemma_tail_points(h1, a);
            lemma_tail_points(h2, a);
        }
        lemma_holes_canonical(t1, t2);
        assert forall|i: int| 0 <= i < h1.len() implies h1[i] == h2[i] by {
            if i > 0 {
                assert(h1[i] == t1[i - 1]);
                assert(h2[i] == t2[i - 1]);
            }
        }
        assert(h1.len() == t1.len() + 1 && h2.len() == t2.len() + 1);
        assert(h1 =~= h2);
    }
}

/// An address is in the tail of a well-formed hole list exactly when it is
/// in the list and past the first hole's end.
proof fn lemma_tail_points(hs: Seq<Hole>, a: int)
    requires
        holes_vec_wf(hs),
        hs.len() > 0,
    ensures
        seq_in_holes(hs.drop_first(), a) <==> (seq_in_holes(hs, a) && a >= hole_end(hs[0])),
{
    let t = hs.drop_first();
    if seq_in_holes(t, a) {
        let j = choose|j: int| 0 <= j < t.len() && (#[trigger] t[j]).start <= a < hole_end(t[j]);
        assert(t[j] == hs[j + 1]);
        assert(seq_in_holes(hs, a));
        assert(hole_end(hs[0]) < hs[j + 1].start);
    }
    if seq_in_holes(hs, a) && a >= hole_end(hs[0]) {
        let j = choose|j: int| 0 <= j < hs.len() && (#[trigger] hs[j]).start <= a < hole_end(
            hs[j],
        );
        assert(j != 0);
        assert(t[j - 1] == hs[j]);
        assert(t[j - 1].start <= a < hole_end(t[j - 1]));
        assert(seq_in_holes(t, a));
    }
}

/// Inserting a grant and then taking it back by its region restores the
/// container exactly: the same grants in the same order, the same holes,
/// and the same funmap table.
pub proof fn lemma_insert_take_restores(
    pre: UserGrants,
    mid: UserGrants,
    post: UserGrants,
    grant: Grant,
    taken: Option<Grant>,
)
    requires
        pre.wf(),
        mid.wf(),
        post.wf(),
        region_wf(grant.region),
        insert_rel(pre, mid, grant),
        take_rel(mid, post, grant.region, taken),
    ensures
        taken == Some(grant),
        post.inner@ == pre.inner@,
        post.holes@ == pre.holes@,
        post.funmap@ == pre.funmap@,
{
    let idx = choose|idx: int|
        0 <= idx <= pre.inner@.len() && (forall|k: int|
            0 <= k < idx ==> (#[trigger] pre.inner@[k]).region.start_int()
                < grant.region.start_int()) && (forall|k: int|
            idx <= k < pre.inner@.len() ==> (#[trigger] pre.inner@[k]).region.start_int()
                > grant.region.start_int()) && mid.inner@ == pre.inner@.insert(idx, grant);
    assert(mid.inner@[idx] == grant);
    match taken {
        None => {
            assert(mid.inner@[idx].region.start_int() == grant.region.start_int());
            assert(false);
        },
        Some(g) => {
            let jdx = choose|jdx: int|
                0 <= jdx < mid.inner@.len() && #[trigger] mid.inner@[jdx] == g && post.inner@
                    == mid.inner@.remove(jdx);
            // Starts are unique in a sorted list of non-empty disjoint
            // regions, so the taken grant is the inserted one.
            if jdx != idx {
                if jdx < idx {
                    assert(mid.inner@[jdx].region.end_int() <= mid.inner@[idx].region.start_int());
                } else {
                    assert(mid.inner@[idx].region.end_int() <= mid.inner@[jdx].region.start_int());
                }
                assert(mid.inner@[jdx].region.start_int() == grant.region.start_int());
                assert(region_wf(mid.inner@[jdx].region));
                assert(false);
            }
            assert(g == grant);
            assert(post.inner@ =~= pre.inner@);
            assert forall|a: int| #[trigger] seq_in_holes(post.holes@, a) <==> seq_in_holes(
                pre.holes@,
                a,
            ) by {
                if region_contains(grant.region, a) {
                    assert(region_contains(*(&grant.region), a));
                    assert(seq_in_holes(mid.holes@, a) == false);
                    assert(seq_in_holes(post.holes@, a));
                    assert(seq_in_holes(pre.holes@, a) || !seq_in_holes(pre.holes@, a));
                    // The inserted region lay wholly in the pre holes: it
                    // was disjoint from every pre grant, and the partition
                    // says uncovered addresses are holes.
                    assert(0 <= a < USER_END_OFFSET);
                    if !seq_in_holes(pre.holes@, a) {
                        assert(seq_in_grants(pre.inner@, a));
                        let j = choose|j: int|
                            0 <= j < pre.inner@.len() && region_contains(
                                (#[trigger] pre.inner@[j]).region,
                                a,
                            );
                        let jm = if j < idx {
                            j
                        } else {
                            j + 1
                        };
                        assert(mid.inner@[jm] == pre.inner@[j]);
                        assert(seq_in_grants(mid.inner@, a));
                        assert(seq_in_holes(mid.holes@, a));
                        assert(false);
                    }
                }
            }
            lemma_holes_canonical(post.holes@, pre.holes@);
        },
    }
}

/// Sums and differences of page-aligned numbers are page-aligned.
pub proof fn lemma_aligned(a: int, b: int)
    requires
        a % PAGE_SIZE as int == 0,
        b % PAGE_SIZE as int == 0,
    ensures
        (a + b) % PAGE_SIZE as int == 0,
        (a - b) % PAGE_SIZE as int == 0,
{
    let p = PAGE_SIZE as int;
    vstd::arithmetic::div_mod::lemma_add_mod_noop(a, b, p);
    vstd::arithmetic::div_mod::lemma_sub_mod_noop(a, b, p);
}

/// Replacing the holes `[p, q)` of a well-formed hole list by new holes that
/// fit strictly between the remaining neighbours yields a well-formed list.
proof fn lemma_holes_splice_wf(old: Seq<Hole>, p: int, q: int, mid: Seq<Hole>, new: Seq<Hole>)
    requires
        holes_vec_wf(old),
        0 <= p <= q <= old.len(),
        new == old.take(p) + mid + old.skip(q),
        forall|k: int| 0 <= k < mid.len() ==> hole_wf(#[trigger] mid[k]),
        forall|k1: int, k2: int|
            0 <= k1 < k2 < mid.len() ==> hole_end(#[trigger] mid[k1]) < (#[trigger] mid[k2]).start,
        p > 0 ==> forall|k: int| 0 <= k < mid.len() ==> hole_end(old[p - 1]) < (
        #[trigger] mid[k]).start,
        q < old.len() ==> forall|k: int|
            0 <= k < mid.len() ==> hole_end(#[trigger] mid[k]) < old[q].start,
    ensures
        holes_vec_wf(new),
{
    let n = new.len();
    assert(n == p + mid.len() + (old.len() - q));
    assert forall|i: int| 0 <= i < n implies hole_wf(#[trigger] new[i]) by {
        if i < p {
            assert(new[i] == old[i]);
        } else if i < p + mid.len() {
            assert(new[i] == mid[i - p]);
        } else {
            assert(new[i] == old[i - p - mid.len() + q]);
        }
    }
    assert forall|i: int, j: int| 0 <= i < j < n implies hole_end(#[trigger] new[i]) < (
    #[trigger] new[j]).start by {
        let m = mid.len() as int;
        if i < p {
            assert(new[i] == old[i]);
            if j < p {
                assert(new[j] == old[j]);
            } else if j < p + m {
                // old[i] ends before old[p - 1] ends (or is it), which ends
                // before every new middle hole starts
                assert(new[j] == mid[j - p]);
                assert(hole_end(old[i]) <= hole_end(old[p - 1])) by {
                    if i < p - 1 {
                        assert(hole_end(old[i]) < old[p - 1].start);
                        assert(old[p - 1].start < hole_end(old[p - 1]));
                    }
                }
                assert(hole_end(old[p - 1]) < mid[j - p].start);
            } else {
                let jo = j - p - m + q;
                assert(new[j] == old[jo]);
                assert(i < jo);
            }
        } else if i < p + m {
            assert(new[i] == mid[i - p]);
            if j < p + m {
                assert(new[j] == mid[j - p]);
            } else {
                let jo = j - p - m + q;
                assert(new[j] == old[jo]);
                assert(hole_end(mid[i - p]) < old[q].start) by {
                    assert(q < old.len());
                }
                assert(old[q].start <= old[jo].start) by {
                    if q < jo {
                        assert(hole_end(old[q]) < old[jo].start);
                        assert(old[q].start < hole_end(old[q]));
                    }
                }
            }
        } else {
            let io = i - p - m + q;
            let jo = j - p - m + q;
            assert(new[i] == old[io] && new[j] == old[jo]);
            assert(io < jo);
        }
    }
}

/// No address lies in two distinct holes of a well-formed list.
proof fn lemma_holes_unique(hs: Seq<Hole>, i: int, j: int, a: int)
    requires
        holes_vec_wf(hs),
        0 <= i < hs.len(),
        0 <= j < hs.len(),
        i != j,
        hs[i].start <= a < hole_end(hs[i]),
    ensures
        !(hs[j].start <= a < hole_end(hs[j])),
{
    if i < j {
        assert(hole_end(hs[i]) < hs[j].start);
    } else {
        assert(hole_end(hs[j]) < hs[i].start);
    }
}

/// After carving `[lo, hi)` out of the single hole that contains it, the
/// covered addresses are the old ones minus `[lo, hi)`.
proof fn lemma_carve_points(old: Seq<Hole>, i: int, mid: Seq<Hole>, new: Seq<Hole>, lo: int, hi: int)
    requires
        holes_vec_wf(old),
        0 <= i < old.len(),
        new == old.take(i) + mid + old.skip(i + 1),
        old[i].start <= lo <= hi <= hole_end(old[i]),
        forall|a: int|
            #[trigger] seq_in_holes(mid, a) <==> (old[i].start <= a < lo || hi <= a < hole_end(
                old[i],
            )),
    ensures
        forall|a: int|
            #[trigger] seq_in_holes(new, a) <==> (seq_in_holes(old, a) && !(lo <= a < hi)),
{
    let m = mid.len() as int;
    assert forall|a: int| #[trigger] seq_in_holes(new, a) implies (seq_in_holes(old, a) && !(lo <= a
        < hi)) by {
        let j = choose|j: int| 0 <= j < new.len() && (#[trigger] new[j]).start <= a < hole_end(
            new[j],
        );
        if j < i {
            assert(new[j] == old[j]);
            assert(seq_in_holes(old, a));
            lemma_holes_unique(old, j, i, a);
        } else if j < i + m {
            assert(new[j] == mid[j - i]);
            assert(seq_in_holes(mid, a));
            assert(old[i].start <= a < hole_end(old[i]));
            assert(seq_in_holes(old, a));
        } else {
            let jo = j - m + 1;
            assert(new[j] == old[jo]);
            assert(seq_in_holes(old, a));
            lemma_holes_unique(old, jo, i, a);
        }
    }
    assert forall|a: int| seq_in_holes(old, a) && !(lo <= a < hi) implies #[trigger] seq_in_holes(
        new,
        a,
    ) by {
        let k = choose|k: int| 0 <= k < old.len() && (#[trigger] old[k]).start <= a < hole_end(
            old[k],
        );
        if k < i {
            assert(new[k] == old[k]);
            assert(new[k].start <= a < hole_end(new[k]));
        } else if k == i {
            assert(seq_in_holes(mid, a));
            let km = choose|km: int| 0 <= km < mid.len() && (#[trigger] mid[km]).start <= a
                < hole_end(mid[km]);
            assert(new[i + km] == mid[km]);
            assert(new[i + km].start <= a < hole_end(new[i + km]));
        } else {
            let jn = k + m - 1;
            assert(new[jn] == old[k]);
            assert(new[jn].start <= a < hole_end(new[jn]));
        }
    }
}

/// After giving `[lo, hi)` back to the holes — replacing the neighbouring
/// holes `[p, q)` by holes that cover them plus `[lo, hi)` — the covered
/// addresses are the old ones plus `[lo, hi)`.
proof fn lemma_fill_points(
    old: Seq<Hole>,
    p: int,
    q: int,
    mid: Seq<Hole>,
    new: Seq<Hole>,
    lo: int,
    hi: int,
)
    requires
        0 <= p <= q <= old.len(),
        new == old.take(p) + mid + old.skip(q),
        forall|a: int|
            #[trigger] seq_in_holes(mid, a) <==> (lo <= a < hi || seq_in_holes(
                old.subrange(p, q),
                a,
            )),
    ensures
        forall|a: int|
            #[trigger] seq_in_holes(new, a) <==> (seq_in_holes(old, a) || lo <= a < hi),
{
    let m = mid.len() as int;
    assert forall|a: int| #[trigger] seq_in_holes(new, a) implies (seq_in_holes(old, a) || lo <= a
        < hi) by {
        let j = choose|j: int| 0 <= j < new.len() && (#[trigger] new[j]).start <= a < hole_end(
            new[j],
        );
        if j < p {
            assert(new[j] == old[j]);
            assert(seq_in_holes(old, a));
        } else if j < p + m {
            assert(new[j] == mid[j - p]);
            assert(seq_in_holes(mid, a));
            if !(lo <= a < hi) {
                assert(seq_in_holes(old.subrange(p, q), a));
                let k = choose|k: int|
                    0 <= k < q - p && (#[trigger] old.subrange(p, q)[k]).start <= a < hole_end(
                        old.subrange(p, q)[k],
                    );
                assert(old[p + k].start <= a < hole_end(old[p + k]));
                assert(seq_in_holes(old, a));
            }
        } else {
            let jo = j - p - m + q;
            assert(new[j] == old[jo]);
            assert(seq_in_holes(old, a));
        }
    }
    assert forall|a: int| seq_in_holes(old, a) || lo <= a < hi implies #[trigger] seq_in_holes(
        new,
        a,
    ) by {
        if lo <= a < hi {
            assert(seq_in_holes(mid, a));
            let km = choose|km: int| 0 <= km < mid.len() && (#[trigger] mid[km]).start <= a
                < hole_end(mid[km]);
            assert(new[p + km] == mid[km]);
            assert(new[p + km].start <= a < hole_end(new[p + km]));
        } else {
            let k = choose|k: int| 0 <= k < old.len() && (#[trigger] old[k]).start <= a < hole_end(
                old[k],
            );
            if k < p {
                assert(new[k] == old[k]);
                assert(new[k].start <= a < hole_end(new[k]));
            } else if k < q {
                assert(old.subrange(p, q)[k - p] == old[k]);
                assert(seq_in_holes(old.subrange(p, q), a));
                assert(seq_in_holes(mid, a));
                let km = choose|km: int| 0 <= km < mid.len() && (#[trigger] mid[km]).start <= a
                    < hole_end(mid[km]);
                assert(new[p + km] == mid[km]);
                assert(new[p + km].start <= a < hole_end(new[p + km]));
            } else {
                let jn = k + p + m - q;
                assert(new[jn] == old[k]);
                assert(new[jn].start <= a < hole_end(new[jn]));
            }
        }
    }
}

impl UserGrants {
    /// Give `region` back to the hole map, coalescing it with the hole that
    /// ends exactly where it starts and the hole that starts exactly where
    /// it ends, if they exist. The region must currently lie outside every
    /// hole.
    #[verifier::loop_isolation(false)]
    #[verifier::rlimit(60)]
    fn unreserve(holes: &mut Vec<Hole>, region: &Region)
        requires
            holes_vec_wf(old(holes)@),
            region_wf(*region),
            forall|a: int| region_contains(*region, a) ==> !seq_in_holes(old(holes)@, a),
        ensures
            holes_vec_wf(final(holes)@),
            forall|a: int|
                #[trigger] seq_in_holes(final(holes)@, a) <==> (seq_in_holes(old(holes)@, a)
                    || region_contains(*region, a)),
    {
        let rs = region.start.data();
        let re = rs + region.size;
        let ghost old_holes = holes@;

        // Find the first hole at or above the region's start.
        let mut pos: usize = 0;
        while pos < holes.len() && holes[pos].start < rs
            invariant
                0 <= pos <= holes@.len(),
                forall|k: int| 0 <= k < pos ==> old_holes[k].start < rs,
            decreases holes@.len() - pos,
        {
            pos += 1;
        }

        proof {
            // No hole contains any address of the region, so the hole below
            // ends at or before the region, and the hole above starts at or
            // after its end.
            if pos > 0 {
                assert(old_holes[pos as int - 1].start < rs);
                if hole_end(old_holes[pos as int - 1]) > rs {
                    assert(old_holes[pos as int - 1].start <= rs < hole_end(
                        old_holes[pos as int - 1],
                    ));
                    assert(seq_in_holes(old_holes, rs as int));
                    assert(region_contains(*region, rs as int));
                    assert(false);
                }
            }
            if pos < old_holes.len() {
                let hp = old_holes[pos as int];
                if hp.start < re {
                    assert(hp.start <= hp.start < hole_end(hp));
                    assert(seq_in_holes(old_holes, hp.start as int));
                    assert(region_contains(*region, hp.start as int));
                    assert(false);
                }
            }
        }

        let prev_merge = pos > 0 && {
            let h = holes[pos - 1];
            h.start + h.size == rs
        };
        let next_merge = pos < holes.len() && holes[pos].start == re;

        let ghost (p, q): (int, int) = if prev_merge && next_merge {
            (pos as int - 1, pos as int + 1)
        } else if prev_merge {
            (pos as int - 1, pos as int)
        } else if next_merge {
            (pos as int, pos as int + 1)
        } else {
            (pos as int, pos as int)
        };

        if prev_merge && next_merge {
            let hprev = holes[pos - 1];
            let hnext = holes[pos];
            holes[pos - 1] = Hole { start: hprev.start, size: hprev.size + region.size + hnext.size };
            holes.remove(pos);
        } else if prev_merge {
            let hprev = holes[pos - 1];
            holes[pos - 1] = Hole { start: hprev.start, size: hprev.size + region.size };
        } else if next_merge {
            let hnext = holes[pos];
            holes[pos] = Hole { start: rs, size: region.size + hnext.size };
        } else {
            holes.insert(pos, Hole { start: rs, size: region.size });
        }

        proof {
            let mid = holes@.subrange(p, p + 1);
            assert(holes@ =~= old_holes.take(p) + mid + old_holes.skip(q));
            lemma_aligned(rs as int, region.size as int);
            if p < pos as int {
                lemma_aligned(
                    old_holes[p].start as int,
                    old_holes[p].size as int,
                );
                lemma_aligned(old_holes[p].size as int, region.size as int);
            }
            if q > pos as int {
                lemma_aligned(region.size as int, old_holes[q - 1].size as int);
                lemma_aligned(
                    old_holes[p].size as int + region.size as int,
                    old_holes[q - 1].size as int,
                );
            }
            assert(hole_wf(mid[0]));
            assert forall|a: int| #[trigger] seq_in_holes(mid, a) implies (region_contains(
                *region,
                a,
            ) || seq_in_holes(old_holes.subrange(p, q), a)) by {
                assert(mid[0].start <= a < hole_end(mid[0]));
                if a < rs {
                    assert(old_holes.subrange(p, q)[0].start <= a < hole_end(
                        old_holes.subrange(p, q)[0],
                    ));
                } else if a >= re {
                    assert(old_holes.subrange(p, q)[q - p - 1].start <= a < hole_end(
                        old_holes.subrange(p, q)[q - p - 1],
                    ));
                }
            }
            assert forall|a: int| (region_contains(*region, a) || seq_in_holes(
                old_holes.subrange(p, q),
                a,
            )) implies #[trigger] seq_in_holes(mid, a) by {
                if region_contains(*region, a) {
                    assert(mid[0].start <= a < hole_end(mid[0]));
                } else {
                    let k = choose|k: int|
                        0 <= k < q - p && (#[trigger] old_holes.subrange(p, q)[k]).start <= a
                            < hole_end(old_holes.subrange(p, q)[k]);
                    assert(old_holes[p + k].start <= a < hole_end(old_holes[p + k]));
                    assert(mid[0].start <= a < hole_end(mid[0]));
                }
            }
            lemma_holes_splice_wf(old_holes, p, q, mid, holes@);
            lemma_fill_points(old_holes, p, q, mid, holes@, rs as int, re as int);
        }
    }
}

} // verus!
