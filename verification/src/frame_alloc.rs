//! Physical frame allocation: the memory-area table filled at boot, the
//! linear bump allocator of the early boot phase, and the buddy allocator
//! that serves the running system.

use vstd::prelude::*;

use crate::PAGE_SIZE;
use crate::PHYSMAP_SIZE;
use crate::addr::PhysicalAddress;

verus! {

/// One contiguous area of free physical memory, page-aligned.
#[derive(Clone, Copy, Debug, PartialEq, Eq, Structural)]
pub struct MemoryArea {
    /// Page-aligned base address of the area.
    pub base: PhysicalAddress,
    /// Size of the area in bytes, a multiple of the page size.
    pub size: u64,
}

/// How many frames a frame allocator has handed out, and how many it
/// governs in all.
#[derive(Clone, Copy, Debug, PartialEq, Eq, Structural)]
pub struct FrameUsage {
    /// Frames currently in use, the early-boot ones included.
    pub used: u64,
    /// All frames of the memory areas.
    pub total: u64,
}

/// An area is page-aligned on both ends, non-empty, and lies inside the
/// physmap window.
pub open spec fn area_wf(a: MemoryArea) -> bool {
    &&& a.size > 0
    &&& a.base.addr as int % PAGE_SIZE as int == 0
    &&& a.size as int % PAGE_SIZE as int == 0
    &&& a.base.addr + a.size <= PHYSMAP_SIZE
}

/// The area table is well-formed: every area is, and no two overlap.
pub open spec fn areas_wf(areas: Seq<MemoryArea>) -> bool {
    &&& forall|i: int| 0 <= i < areas.len() ==> area_wf(#[trigger] areas[i])
    &&& forall|i: int, j: int|
        0 <= i < areas.len() && 0 <= j < areas.len() && i != j ==> (#[trigger] areas[i]).base.addr
            + areas[i].size <= (#[trigger] areas[j]).base.addr || areas[j].base.addr
            + areas[j].size <= areas[i].base.addr
}

/// The bytes of the whole area table.
pub open spec fn areas_total_bytes(areas: Seq<MemoryArea>) -> int
    decreases areas.len(),
{
    if areas.len() == 0 {
        0
    } else {
        areas[0].size + areas_total_bytes(areas.drop_first())
    }
}

/// The byte total of an area table is never negative.
pub proof fn lemma_total_bytes_nonneg(areas: Seq<MemoryArea>)
    ensures
        areas_total_bytes(areas) >= 0,
    decreases areas.len(),
{
    if areas.len() > 0 {
        lemma_total_bytes_nonneg(areas.drop_first());
    }
}

/// What one step of the bump allocator does, on the concatenation of the
/// areas: serve `bytes` from the current area if they fit, otherwise skip
/// to the next area. Returns the physical address served and the new offset
/// into the concatenation.
pub open spec fn bump_spec(areas: Seq<MemoryArea>, offset: int, bytes: int) -> Option<(int, int)>
    decreases areas.len(),
{
    if areas.len() == 0 {
        None
    } else if offset + bytes <= areas[0].size {
        Some((areas[0].base.addr + offset, offset + bytes))
    } else {
        let skipped = if offset >= areas[0].size {
            offset - areas[0].size
        } else {
            0
        };
        match bump_spec(areas.drop_first(), skipped, bytes) {
            Some((addr, new_offset)) => Some((addr, new_offset + areas[0].size)),
            None => None,
        }
    }
}

/// A linear cursor over the concatenated area table, used only during boot:
/// it hands out frames in order and never takes one back.
#[derive(Clone, Debug)]
pub struct BumpAllocator {
    /// The area table the cursor walks.
    pub areas: Vec<MemoryArea>,
    /// Bytes consumed of the concatenated areas, skipped area tails
    /// included.
    pub offset: u64,
}

/// Recursive worker for `BumpAllocator::allocate`, mirroring `bump_spec`
/// one area at a time.
#[verifier::loop_isolation(false)]
fn bump_step(areas: &Vec<MemoryArea>, i: usize, offset: u64, bytes: u64) -> (r: Option<(u64, u64)>)
    requires
        areas_wf(areas@),
        0 <= i <= areas@.len(),
        offset + bytes <= u64::MAX,
        bytes <= PHYSMAP_SIZE,
        areas_total_bytes(areas@.skip(i as int)) <= PHYSMAP_SIZE,
    ensures
        match r {
            Some((addr, new_offset)) => Some((addr as int, new_offset as int)) == bump_spec(
                areas@.skip(i as int),
                offset as int,
                bytes as int,
            ) && new_offset + bytes <= u64::MAX && new_offset <= areas_total_bytes(
                areas@.skip(i as int),
            ),
            None => bump_spec(areas@.skip(i as int), offset as int, bytes as int) is None,
        },
    decreases areas@.len() - i,
{
    if i == areas.len() {
        return None;
    }
    let a = areas[i];
    proof {
        assert(areas@.skip(i as int)[0] == a);
        assert(areas@.skip(i as int).drop_first() =~= areas@.skip(i as int + 1));
    }
    if bytes <= a.size && offset <= a.size - bytes {
        proof {
            lemma_total_bytes_nonneg(areas@.skip(i as int + 1));
            assert(areas_total_bytes(areas@.skip(i as int)) == a.size + areas_total_bytes(
                areas@.skip(i as int + 1),
            ));
        }
        Some((a.base.addr + offset, offset + bytes))
    } else {
        let skipped = if offset >= a.size {
            offset - a.size
        } else {
            0
        };
        proof {
            assert(areas_total_bytes(areas@.skip(i as int)) == a.size + areas_total_bytes(
                areas@.skip(i as int + 1),
            ));
        }
        match bump_step(areas, i + 1, skipped, bytes) {
            Some((addr, new_offset)) => Some((addr, new_offset + a.size)),
            None => None,
        }
    }
}

impl BumpAllocator {
    /// A fresh cursor over the given area table, starting at the given
    /// offset into the concatenation.
    pub fn new(areas: Vec<MemoryArea>, offset: u64) -> (r: Self)
        ensures
            r.areas == areas,
            r.offset == offset,
    {
        Self { areas, offset }
    }

    /// Serve `count` contiguous frames from the current area, advancing to
    /// the next area when the current one cannot hold them. `None` when no
    /// area can.
    pub fn allocate(&mut self, count: u64) -> (r: Option<PhysicalAddress>)
        requires
            areas_wf(old(self).areas@),
            areas_total_bytes(old(self).areas@) <= PHYSMAP_SIZE,
            old(self).offset + count * PAGE_SIZE <= u64::MAX,
            0 < count,
            count * PAGE_SIZE <= PHYSMAP_SIZE,
        ensures
            final(self).areas == old(self).areas,
            match r {
                Some(addr) => {
                    &&& Some((addr.addr as int, final(self).offset as int)) == bump_spec(
                        old(self).areas@,
                        old(self).offset as int,
                        count * PAGE_SIZE,
                    )
                    &&& final(self).offset <= areas_total_bytes(old(self).areas@)
                },
                None => {
                    &&& bump_spec(old(self).areas@, old(self).offset as int, count * PAGE_SIZE)
                        is None
                    &&& final(self).offset == old(self).offset
                },
            },
    {
        proof {
            assert(self.areas@.skip(0) =~= self.areas@);
        }
        let bytes = count * PAGE_SIZE;
        match bump_step(&self.areas, 0, self.offset, bytes) {
            Some((addr, new_offset)) => {
                self.offset = new_offset;
                Some(PhysicalAddress::new(addr))
            },
            None => None,
        }
    }

    /// Serve a single frame.
    pub fn allocate_one(&mut self) -> (r: Option<PhysicalAddress>)
        requires
            areas_wf(old(self).areas@),
            areas_total_bytes(old(self).areas@) <= PHYSMAP_SIZE,
            old(self).offset + PAGE_SIZE <= u64::MAX,
        ensures
            final(self).areas == old(self).areas,
            match r {
                Some(addr) => Some((addr.addr as int, final(self).offset as int)) == bump_spec(
                    old(self).areas@,
                    old(self).offset as int,
                    PAGE_SIZE as int,
                ) && final(self).offset <= areas_total_bytes(old(self).areas@),
                None => bump_spec(old(self).areas@, old(self).offset as int, PAGE_SIZE as int)
                    is None && final(self).offset == old(self).offset,
            },
    {
        self.allocate(1)
    }

    /// Total bytes consumed so far; the buddy allocator takes over from
    /// here and treats everything below as permanently allocated.
    pub fn offset(&self) -> (r: u64)
        ensures
            r == self.offset,
    {
        self.offset
    }

    /// The area table the cursor walks.
    pub fn areas(&self) -> (r: &Vec<MemoryArea>)
        ensures
            r@ == self.areas@,
    {
        &self.areas
    }
}

/// One free block of the buddy allocator: a power-of-two number of
/// contiguous frames, aligned to its own size.
#[derive(Clone, Copy, Debug, PartialEq, Eq, Structural)]
pub struct FreeBlock {
    /// Base address of the block.
    pub addr: u64,
    /// Size of the block in bytes: the page size times a power of two.
    pub size: u64,
}

/// Whether `s` is a legal block size: the page size times a power of two.
pub open spec fn block_size_ok(s: int) -> bool
    decreases s,
{
    if s == PAGE_SIZE as int {
        true
    } else if s < 2 * PAGE_SIZE as int {
        false
    } else {
        s % 2 == 0 && block_size_ok(s / 2)
    }
}

/// A legal block size is a positive multiple of the page size.
pub proof fn lemma_block_size_props(s: int)
    requires
        block_size_ok(s),
    ensures
        s >= PAGE_SIZE,
        s % PAGE_SIZE as int == 0,
    decreases s,
{
    if s != PAGE_SIZE as int {
        lemma_block_size_props(s / 2);
        assert(s == s / 2 + s / 2);
        vstd::arithmetic::div_mod::lemma_add_mod_noop(s / 2, s / 2, PAGE_SIZE as int);
    }
}

/// Doubling a legal block size keeps it legal.
pub proof fn lemma_block_size_double(s: int)
    requires
        block_size_ok(s),
    ensures
        block_size_ok(2 * s),
{
    lemma_block_size_props(s);
}

/// A block is legal: its size is, it is aligned to its size, and it lies
/// inside the physmap window.
pub open spec fn free_block_wf(b: FreeBlock) -> bool {
    &&& block_size_ok(b.size as int)
    &&& b.addr as int % b.size as int == 0
    &&& b.addr + b.size <= PHYSMAP_SIZE
}

/// The free list is legal: every block is, and no two blocks overlap.
pub open spec fn blocks_wf(bs: Seq<FreeBlock>) -> bool {
    &&& forall|i: int| 0 <= i < bs.len() ==> free_block_wf(#[trigger] bs[i])
    &&& forall|i: int, j: int|
        0 <= i < bs.len() && 0 <= j < bs.len() && i != j ==> (#[trigger] bs[i]).addr + bs[i].size
            <= (#[trigger] bs[j]).addr || bs[j].addr + bs[j].size <= bs[i].addr
}

/// Whether the byte address `a` lies in some free block.
pub open spec fn in_free(bs: Seq<FreeBlock>, a: int) -> bool {
    exists|i: int| 0 <= i < bs.len() && (#[trigger] bs[i]).addr <= a < bs[i].addr + bs[i].size
}

/// The frames held by the free list.
pub open spec fn free_frames(bs: Seq<FreeBlock>) -> int
    decreases bs.len(),
{
    if bs.len() == 0 {
        0
    } else {
        bs[0].size as int / PAGE_SIZE as int + free_frames(bs.drop_first())
    }
}

/// Appending a block adds its frames to the free count.
proof fn lemma_free_frames_push(bs: Seq<FreeBlock>, b: FreeBlock)
    ensures
        free_frames(bs.push(b)) == free_frames(bs) + b.size as int / PAGE_SIZE as int,
    decreases bs.len(),
{
    if bs.len() == 0 {
        assert(bs.push(b)[0] == b);
        assert(bs.push(b).drop_first() =~= Seq::<FreeBlock>::empty());
        assert(free_frames(Seq::<FreeBlock>::empty()) == 0);
        assert(free_frames(bs.push(b)) == b.size as int / PAGE_SIZE as int + free_frames(
            Seq::<FreeBlock>::empty(),
        ));
    } else {
        assert(bs.push(b)[0] == bs[0]);
        assert(bs.push(b).drop_first() =~= bs.drop_first().push(b));
        lemma_free_frames_push(bs.drop_first(), b);
        assert(free_frames(bs.push(b)) == bs[0].size as int / PAGE_SIZE as int + free_frames(
            bs.drop_first().push(b),
        ));
    }
}

/// Removing a block subtracts its frames from the free count.
proof fn lemma_free_frames_remove(bs: Seq<FreeBlock>, i: int)
    requires
        0 <= i < bs.len(),
    ensures
        free_frames(bs.remove(i)) == free_frames(bs) - bs[i].size as int / PAGE_SIZE as int,
    decreases bs.len(),
{
    if i == 0 {
        assert(bs.remove(0) =~= bs.drop_first());
    } else {
        assert(bs.remove(i).drop_first() =~= bs.drop_first().remove(i - 1));
        lemma_free_frames_remove(bs.drop_first(), i - 1);
    }
}

/// Membership after appending a block.
proof fn lemma_in_free_push(bs: Seq<FreeBlock>, b: FreeBlock, a: int)
    ensures
        in_free(bs.push(b), a) <==> (in_free(bs, a) || b.addr <= a < b.addr + b.size),
{
    let n = bs.push(b);
    if in_free(n, a) {
        let i = choose|i: int| 0 <= i < n.len() && (#[trigger] n[i]).addr <= a < n[i].addr
            + n[i].size;
        if i < bs.len() {
            assert(n[i] == bs[i]);
            assert(in_free(bs, a));
        } else {
            assert(n[i] == b);
        }
    }
    if in_free(bs, a) {
        let i = choose|i: int| 0 <= i < bs.len() && (#[trigger] bs[i]).addr <= a < bs[i].addr
            + bs[i].size;
        assert(n[i] == bs[i]);
        assert(n[i].addr <= a < n[i].addr + n[i].size);
    }
    if b.addr <= a < b.addr + b.size {
        assert(n[bs.len() as int] == b);
        assert(n[bs.len() as int].addr <= a < n[bs.len() as int].addr + n[bs.len() as int].size);
    }
}

/// Membership after removing a block of a non-overlapping list.
proof fn lemma_in_free_remove(bs: Seq<FreeBlock>, i: int, a: int)
    requires
        blocks_wf(bs),
        0 <= i < bs.len(),
    ensures
        in_free(bs.remove(i), a) <==> (in_free(bs, a) && !(bs[i].addr <= a < bs[i].addr
            + bs[i].size)),
{
    let n = bs.remove(i);
    if in_free(n, a) {
        let j = choose|j: int| 0 <= j < n.len() && (#[trigger] n[j]).addr <= a < n[j].addr
            + n[j].size;
        let jo = if j < i {
            j
        } else {
            j + 1
        };
        assert(n[j] == bs[jo]);
        assert(in_free(bs, a));
        assert(jo != i);
    }
    if in_free(bs, a) && !(bs[i].addr <= a < bs[i].addr + bs[i].size) {
        let j = choose|j: int| 0 <= j < bs.len() && (#[trigger] bs[j]).addr <= a < bs[j].addr
            + bs[j].size;
        assert(j != i);
        let jn = if j < i {
            j
        } else {
            j - 1
        };
        assert(n[jn] == bs[j]);
        assert(n[jn].addr <= a < n[jn].addr + n[jn].size);
    }
}

/// The block size in bytes that serves a request of `count` frames: the
/// page size times the smallest power of two at least `count`.
pub open spec fn order_bytes(count: int) -> int
    decreases count,
{
    if count <= 1 {
        PAGE_SIZE as int
    } else {
        2 * order_bytes((count + 1) / 2)
    }
}

/// The serving block size is a legal block size with room for the request.
pub proof fn lemma_order_bytes_props(count: int)
    requires
        count >= 1,
    ensures
        block_size_ok(order_bytes(count)),
        order_bytes(count) / PAGE_SIZE as int >= count,
        order_bytes(count) % PAGE_SIZE as int == 0,
        order_bytes(count) >= PAGE_SIZE,
    decreases count,
{
    if count > 1 {
        lemma_order_bytes_props((count + 1) / 2);
        lemma_block_size_double(order_bytes((count + 1) / 2));
        lemma_block_size_props(order_bytes(count));
    } else {
        lemma_block_size_props(order_bytes(count));
    }
}

/// For requests above one frame, the serving block size is a multiple of
/// two pages.
proof fn lemma_order_bytes_even(count: int)
    requires
        count >= 2,
    ensures
        order_bytes(count) % (2 * PAGE_SIZE as int) == 0,
{
    lemma_order_bytes_props((count + 1) / 2);
    let o = order_bytes((count + 1) / 2);
    let p = PAGE_SIZE as int;
    let k = o / p;
    vstd::arithmetic::div_mod::lemma_fundamental_div_mod(o, p);
    assert(o == k * p);
    assert(2 * o == k * (2 * p)) by (nonlinear_arith)
        requires
            o == k * p,
    ;
    vstd::arithmetic::div_mod::lemma_mod_multiples_basic(k, 2 * p);
}

/// The serving block never more than doubles the request.
pub proof fn lemma_order_bytes_bound(count: int)
    requires
        count >= 1,
    ensures
        order_bytes(count) < 2 * count * PAGE_SIZE as int,
    decreases count,
{
    let p = PAGE_SIZE as int;
    if count == 1 {
    } else {
        let c2 = (count + 1) / 2;
        lemma_order_bytes_bound(c2);
        lemma_order_bytes_props(c2);
        let o = order_bytes(count);
        assert(o == 2 * order_bytes(c2));
        if count % 2 == 0 {
            assert(o < 2 * count * p);
        } else {
            // odd count: the bound leaves only equality open, and equality
            // would make the half-size block an odd number of pages, which
            // a doubled block cannot be.
            assert(o < 2 * count * p + 2 * p);
            if o >= 2 * count * p {
                assert(order_bytes(c2) >= count * p);
                assert(order_bytes(c2) < (count + 1) * p);
                // order_bytes(c2) is a multiple of p strictly between
                // count*p and (count+1)*p can only be count*p itself
                let q = order_bytes(c2) / p;
                vstd::arithmetic::div_mod::lemma_fundamental_div_mod(order_bytes(c2), p);
                assert(order_bytes(c2) == q * p);
                assert(q == count) by (nonlinear_arith)
                    requires
                        order_bytes(c2) == q * p,
                        order_bytes(c2) >= count * p,
                        order_bytes(c2) < (count + 1) * p,
                        p > 0,
                ;
                // count is odd and at least 3, so c2 is at least 2 and
                // order_bytes(c2) is a multiple of 2p: count*p cannot be.
                assert(c2 >= 2);
                lemma_order_bytes_even(c2);
                assert(count * p % (2 * p) == 0);
                let h = count * p / (2 * p);
                vstd::arithmetic::div_mod::lemma_fundamental_div_mod(count * p, 2 * p);
                assert(count * p == h * (2 * p));
                assert(count == 2 * h) by (nonlinear_arith)
                    requires
                        count * p == h * (2 * p),
                        p > 0,
                ;
                assert(false);
            }
        }
    }
}

/// Compute the serving block size for `count` frames.
fn order_bytes_exec(count: u64) -> (r: u64)
    requires
        1 <= count <= PHYSMAP_SIZE / PAGE_SIZE,
    ensures
        r == order_bytes(count as int),
        r <= 2 * PHYSMAP_SIZE,
    decreases count,
{
    proof {
        lemma_order_bytes_bound(count as int);
    }
    if count <= 1 {
        PAGE_SIZE
    } else {
        2 * order_bytes_exec((count + 1) / 2)
    }
}

/// Powers of two are totally ordered by doubling: of two legal block
/// sizes, the smaller divides the larger's half.
proof fn lemma_block_size_ordering(x: int, y: int)
    requires
        block_size_ok(x),
        block_size_ok(y),
        x < y,
    ensures
        2 * x <= y,
    decreases y,
{
    lemma_block_size_props(x);
    lemma_block_size_props(y);
    assert(y > PAGE_SIZE);
    let h = y / 2;
    assert(block_size_ok(h));
    if x < h {
        lemma_block_size_ordering(x, h);
    } else if x > h {
        lemma_block_size_ordering(h, x);
        assert(y <= x);
        assert(false);
    }
}

/// A legal free list stays legal when a block is removed.
proof fn lemma_blocks_wf_remove(bs: Seq<FreeBlock>, i: int)
    requires
        blocks_wf(bs),
        0 <= i < bs.len(),
    ensures
        blocks_wf(bs.remove(i)),
{
    let n = bs.remove(i);
    assert forall|j: int| 0 <= j < n.len() implies free_block_wf(#[trigger] n[j]) by {
        if j < i {
            assert(n[j] == bs[j]);
        } else {
            assert(n[j] == bs[j + 1]);
        }
    }
    assert forall|j: int, k: int|
        0 <= j < n.len() && 0 <= k < n.len() && j != k implies (#[trigger] n[j]).addr + n[j].size
        <= (#[trigger] n[k]).addr || n[k].addr + n[k].size <= n[j].addr by {
        let jo = if j < i {
            j
        } else {
            j + 1
        };
        let ko = if k < i {
            k
        } else {
            k + 1
        };
        assert(n[j] == bs[jo] && n[k] == bs[ko]);
    }
}

/// A legal free list stays legal when a legal block disjoint from all of
/// it is appended.
proof fn lemma_blocks_wf_push(bs: Seq<FreeBlock>, b: FreeBlock)
    requires
        blocks_wf(bs),
        free_block_wf(b),
        forall|k: int|
            0 <= k < bs.len() ==> (#[trigger] bs[k]).addr + bs[k].size <= b.addr || b.addr + b.size
                <= bs[k].addr,
    ensures
        blocks_wf(bs.push(b)),
{
    let n = bs.push(b);
    assert forall|j: int| 0 <= j < n.len() implies free_block_wf(#[trigger] n[j]) by {
        if j < bs.len() {
            assert(n[j] == bs[j]);
        } else {
            assert(n[j] == b);
        }
    }
    assert forall|j: int, k: int|
        0 <= j < n.len() && 0 <= k < n.len() && j != k implies (#[trigger] n[j]).addr + n[j].size
        <= (#[trigger] n[k]).addr || n[k].addr + n[k].size <= n[j].addr by {
        if j < bs.len() && k < bs.len() {
            assert(n[j] == bs[j] && n[k] == bs[k]);
        } else if j < bs.len() {
            assert(n[j] == bs[j] && n[k] == b);
        } else {
            assert(n[j] == b && n[k] == bs[k]);
        }
    }
}

/// A legal free list holds no negative number of frames.
pub proof fn lemma_free_frames_nonneg(bs: Seq<FreeBlock>)
    requires
        forall|i: int| 0 <= i < bs.len() ==> free_block_wf(#[trigger] bs[i]),
    ensures
        free_frames(bs) >= 0,
    decreases bs.len(),
{
    if bs.len() > 0 {
        assert(free_block_wf(bs[0]));
        lemma_block_size_props(bs[0].size as int);
        assert(forall|i: int| 0 <= i < bs.drop_first().len() ==> bs.drop_first()[i] == bs[i + 1]);
        lemma_free_frames_nonneg(bs.drop_first());
    }
}

/// Alignment to a doubled size implies alignment to the size.
proof fn lemma_half_align(a: int, h: int)
    requires
        h > 0,
        a % (2 * h) == 0,
    ensures
        a % h == 0,
{
    let q = a / (2 * h);
    vstd::arithmetic::div_mod::lemma_fundamental_div_mod(a, 2 * h);
    assert(a == (2 * q) * h) by (nonlinear_arith)
        requires
            a == (2 * h) * q,
    ;
    vstd::arithmetic::div_mod::lemma_mod_multiples_basic(2 * q, h);
}

/// The bytes of the bump offset still unaccounted for after the first `i`
/// areas have absorbed what they can of it.
pub open spec fn bump_remaining(areas: Seq<MemoryArea>, offset: int, i: int) -> int
    decreases i,
{
    if i <= 0 {
        offset
    } else {
        let r = bump_remaining(areas, offset, i - 1);
        let c = if r <= areas[i - 1].size {
            r
        } else {
            areas[i - 1].size as int
        };
        r - c
    }
}

/// The bytes of area `j` that the bump cursor consumed: the whole area if
/// the offset reaches past it, the leftover offset if it ends inside.
pub open spec fn area_consumed(areas: Seq<MemoryArea>, offset: int, j: int) -> int {
    let r = bump_remaining(areas, offset, j);
    if r <= areas[j].size {
        r
    } else {
        areas[j].size as int
    }
}

/// The remaining offset is what exceeds the processed areas, floored at
/// zero; in particular an offset within the total is fully absorbed.
proof fn lemma_bump_remaining(areas: Seq<MemoryArea>, offset: int, i: int)
    requires
        0 <= i <= areas.len(),
        offset >= 0,
    ensures
        bump_remaining(areas, offset, i) == if offset - areas_total_bytes(areas.take(i)) >= 0 {
            offset - areas_total_bytes(areas.take(i))
        } else {
            0
        },
    decreases i,
{
    if i > 0 {
        lemma_bump_remaining(areas, offset, i - 1);
        assert(areas.take(i).drop_last() =~= areas.take(i - 1));
        lemma_total_bytes_last(areas.take(i));
    }
}

/// Splitting the total off at the last area.
proof fn lemma_total_bytes_last(areas: Seq<MemoryArea>)
    requires
        areas.len() > 0,
    ensures
        areas_total_bytes(areas) == areas_total_bytes(areas.drop_last()) + areas.last().size,
    decreases areas.len(),
{
    if areas.len() == 1 {
        assert(areas.drop_last() =~= Seq::<MemoryArea>::empty());
        assert(areas.drop_first() =~= Seq::<MemoryArea>::empty());
    } else {
        lemma_total_bytes_last(areas.drop_first());
        assert(areas.drop_first().drop_last() =~= areas.drop_last().drop_first());
        assert(areas.drop_first().last() == areas.last());
        assert(areas.drop_last()[0] == areas[0]);
    }
}

/// The total splits at any index into the take part and the skip part.
proof fn lemma_total_bytes_split(areas: Seq<MemoryArea>, i: int)
    requires
        0 <= i <= areas.len(),
    ensures
        areas_total_bytes(areas) == areas_total_bytes(areas.take(i)) + areas_total_bytes(
            areas.skip(i),
        ),
    decreases i,
{
    if i == 0 {
        assert(areas.take(0) =~= Seq::<MemoryArea>::empty());
        assert(areas.skip(0) =~= areas);
    } else {
        lemma_total_bytes_split(areas, i - 1);
        assert(areas.take(i).drop_last() =~= areas.take(i - 1));
        lemma_total_bytes_last(areas.take(i));
        assert(areas.skip(i - 1)[0] == areas[i - 1]);
        assert(areas.skip(i - 1).drop_first() =~= areas.skip(i));
    }
}

/// The byte total of a well-formed area table is page-aligned.
proof fn lemma_total_aligned(areas: Seq<MemoryArea>)
    requires
        forall|i: int| 0 <= i < areas.len() ==> area_wf(#[trigger] areas[i]),
    ensures
        areas_total_bytes(areas) as int % PAGE_SIZE as int == 0,
    decreases areas.len(),
{
    if areas.len() == 0 {
        vstd::arithmetic::div_mod::lemma_mod_multiples_basic(0, PAGE_SIZE as int);
    } else {
        assert(forall|i: int|
            0 <= i < areas.drop_first().len() ==> areas.drop_first()[i] == areas[i + 1]);
        lemma_total_aligned(areas.drop_first());
        vstd::arithmetic::div_mod::lemma_add_mod_noop(
            areas[0].size as int,
            areas_total_bytes(areas.drop_first()),
            PAGE_SIZE as int,
        );
    }
}

/// The minimum of two page-aligned numbers is page-aligned; so is their
/// difference.
proof fn lemma_aligned_min(a: int, b: int)
    requires
        a % PAGE_SIZE as int == 0,
        b % PAGE_SIZE as int == 0,
    ensures
        (a - b) % PAGE_SIZE as int == 0,
{
    vstd::arithmetic::div_mod::lemma_sub_mod_noop(a, b, PAGE_SIZE as int);
}

/// The sum of two page-aligned numbers is page-aligned.
proof fn lemma_page_aligned_add(a: int, b: int)
    requires
        a % PAGE_SIZE as int == 0,
        b % PAGE_SIZE as int == 0,
    ensures
        (a + b) % PAGE_SIZE as int == 0,
{
    vstd::arithmetic::div_mod::lemma_add_mod_noop(a, b, PAGE_SIZE as int);
}

/// The post-boot frame allocator: a standard buddy allocator over
/// power-of-two blocks, covering the frames the bump stage left free.
#[derive(Clone, Debug)]
pub struct BuddyAllocator {
    /// The free blocks, in no particular order, pairwise disjoint.
    pub blocks: Vec<FreeBlock>,
    /// Frames in use: everything the bump stage consumed plus every frame
    /// handed out and not yet freed.
    pub used: u64,
    /// All frames of the memory areas.
    pub total: u64,
}

impl BuddyAllocator {
    /// The allocator invariant: a legal free list whose frames, together
    /// with the used count, account for every frame.
    pub open spec fn wf(self) -> bool {
        &&& blocks_wf(self.blocks@)
        &&& self.used + free_frames(self.blocks@) == self.total
        &&& self.total <= PHYSMAP_SIZE as int / PAGE_SIZE as int
    }

    /// Whether the byte address `a` is currently free.
    pub open spec fn is_free(self, a: int) -> bool {
        in_free(self.blocks@, a)
    }

    /// The current usage.
    pub fn usage(&self) -> (r: FrameUsage)
        ensures
            r.used == self.used,
            r.total == self.total,
    {
        FrameUsage { used: self.used, total: self.total }
    }

    /// Build the post-boot allocator from the bump stage: everything the
    /// bump cursor consumed stays permanently used; the rest of each area
    /// is carved greedily into aligned power-of-two free blocks.
    #[verifier::loop_isolation(false)]
    #[verifier::rlimit(100)]
    #[verifier::spinoff_prover]
    pub fn new(bump: BumpAllocator) -> (r: Self)
        requires
            areas_wf(bump.areas@),
            areas_total_bytes(bump.areas@) <= PHYSMAP_SIZE,
            bump.offset as int % PAGE_SIZE as int == 0,
            bump.offset <= areas_total_bytes(bump.areas@),
        ensures
            r.wf(),
            r.total * PAGE_SIZE as int == areas_total_bytes(bump.areas@),
            r.used * PAGE_SIZE as int == bump.offset,
            forall|a: int|
                #[trigger] in_free(r.blocks@, a) ==> exists|j: int|
                    0 <= j < bump.areas@.len() && (#[trigger] bump.areas@[j]).base.addr
                        + area_consumed(bump.areas@, bump.offset as int, j) <= a < bump.areas@[
                        j].base.addr + bump.areas@[j].size,
    {
        let offset = bump.offset;
        let (blocks, total_bytes) = Self::carve_free_blocks(&bump.areas, offset);
        let used = offset / PAGE_SIZE;
        let total = total_bytes / PAGE_SIZE;
        proof {
            vstd::arithmetic::div_mod::lemma_fundamental_div_mod(offset as int, PAGE_SIZE as int);
            assert(total_bytes as int % PAGE_SIZE as int == 0) by {
                lemma_total_aligned(bump.areas@);
            }
            vstd::arithmetic::div_mod::lemma_fundamental_div_mod(
                total_bytes as int,
                PAGE_SIZE as int,
            );
            assert(used as int * PAGE_SIZE as int == offset) by (nonlinear_arith)
                requires
                    offset as int == PAGE_SIZE as int * (used as int) + offset as int
                        % PAGE_SIZE as int,
                    offset as int % PAGE_SIZE as int == 0,
            ;
            assert(total as int * PAGE_SIZE as int == total_bytes) by (nonlinear_arith)
                requires
                    total_bytes as int == PAGE_SIZE as int * (total as int) + total_bytes as int
                        % PAGE_SIZE as int,
                    total_bytes as int % PAGE_SIZE as int == 0,
            ;
            assert((used as int + free_frames(blocks@)) * PAGE_SIZE as int == total as int
                * PAGE_SIZE as int) by (nonlinear_arith)
                requires
                    used as int * PAGE_SIZE as int == offset as int,
                    free_frames(blocks@) * PAGE_SIZE as int == total_bytes - offset,
                    total as int * PAGE_SIZE as int == total_bytes,
            ;
            assert(used as int + free_frames(blocks@) == total as int) by (nonlinear_arith)
                requires
                    (used as int + free_frames(blocks@)) * PAGE_SIZE as int == total as int
                        * PAGE_SIZE as int,
            ;
        }
        BuddyAllocator { blocks, used, total }
    }

    /// Carve the free remainder of every area — everything past the bump
    /// cursor — into aligned power-of-two blocks, and add up the areas'
    /// bytes.
    #[verifier::rlimit(100)]
    #[verifier::spinoff_prover]
    fn carve_free_blocks(areas: &Vec<MemoryArea>, offset: u64) -> (r: (Vec<FreeBlock>, u64))
        requires
            areas_wf(areas@),
            areas_total_bytes(areas@) <= PHYSMAP_SIZE,
            offset as int % PAGE_SIZE as int == 0,
            offset <= areas_total_bytes(areas@),
        ensures
            blocks_wf(r.0@),
            r.1 == areas_total_bytes(areas@),
            r.1 <= PHYSMAP_SIZE,
            free_frames(r.0@) * PAGE_SIZE as int == r.1 - offset,
            forall|a: int|
                #[trigger] in_free(r.0@, a) ==> exists|j: int|
                    0 <= j < areas@.len() && (#[trigger] areas@[j]).base.addr + area_consumed(
                        areas@,
                        offset as int,
                        j,
                    ) <= a < areas@[j].base.addr + areas@[j].size,
    {
        let ghost aseq = areas@;
        let n = areas.len();
        let mut blocks: Vec<FreeBlock> = Vec::new();
        let mut remaining: u64 = offset;
        let mut total_bytes: u64 = 0;
        let mut i: usize = 0;

        while i < n
            invariant
                0 <= i <= n,
                n == aseq.len(),
                aseq == areas@,
                areas_wf(aseq),
                offset as int % PAGE_SIZE as int == 0,
                offset <= areas_total_bytes(aseq),
                areas_total_bytes(aseq) <= PHYSMAP_SIZE,
                blocks_wf(blocks@),
                remaining == bump_remaining(aseq, offset as int, i as int),
                remaining as int % PAGE_SIZE as int == 0,
                remaining <= offset,
                total_bytes == areas_total_bytes(aseq.take(i as int)),
                total_bytes <= PHYSMAP_SIZE,
                free_frames(blocks@) * PAGE_SIZE as int == total_bytes - (offset - remaining),
                offset - remaining <= total_bytes,
                forall|k: int, j: int|
                    0 <= k < blocks@.len() && i <= j < aseq.len() ==> (
                    #[trigger] blocks@[k]).addr + blocks@[k].size <= (#[trigger] aseq[j]).base.addr
                        || aseq[j].base.addr + aseq[j].size <= blocks@[k].addr,
                forall|k: int|
                    0 <= k < blocks@.len() ==> exists|j: int|
                        0 <= j < aseq.len() && (#[trigger] aseq[j]).base.addr + area_consumed(
                            aseq,
                            offset as int,
                            j,
                        ) <= (#[trigger] blocks@[k]).addr && blocks@[k].addr + blocks@[k].size
                            <= aseq[j].base.addr + aseq[j].size,
            decreases n - i,
        {
            let a = areas[i];
            proof {
                assert(area_wf(aseq[i as int]));
                lemma_total_bytes_split(aseq, i as int);
                lemma_total_bytes_nonneg(aseq.skip(i as int));
                assert(aseq.take(i as int + 1).drop_last() =~= aseq.take(i as int));
                lemma_total_bytes_last(aseq.take(i as int + 1));
                assert(aseq.skip(i as int)[0] == a);
                assert(aseq.skip(i as int).drop_first() =~= aseq.skip(i as int + 1));
                lemma_total_bytes_nonneg(aseq.skip(i as int + 1));
            }
            let consumed = if remaining <= a.size {
                remaining
            } else {
                a.size
            };
            proof {
                if remaining > a.size {
                    lemma_aligned_min(remaining as int, a.size as int);
                }
                assert(consumed == area_consumed(aseq, offset as int, i as int));
            }
            remaining = remaining - consumed;

            let start = a.base.addr + consumed;
            let end = a.base.addr + a.size;
            let mut cur = start;
            proof {
                lemma_page_aligned_add(a.base.addr as int, consumed as int);
            }

            while cur < end
                invariant
                    0 <= i < n,
                    n == aseq.len(),
                    aseq == areas@,
                    areas_wf(aseq),
                    a == aseq[i as int],
                    area_wf(a),
                    end == a.base.addr + a.size,
                    start == a.base.addr + consumed,
                    consumed == area_consumed(aseq, offset as int, i as int),
                    consumed <= a.size,
                    offset as int % PAGE_SIZE as int == 0,
                    total_bytes == areas_total_bytes(aseq.take(i as int)),
                    total_bytes <= PHYSMAP_SIZE,
                    remaining as int % PAGE_SIZE as int == 0,
                    consumed as int % PAGE_SIZE as int == 0,
                    start <= cur <= end,
                    cur as int % PAGE_SIZE as int == 0,
                    blocks_wf(blocks@),
                    free_frames(blocks@) * PAGE_SIZE as int == total_bytes - (offset as int
                        - (remaining + consumed)) + (cur - start),
                    forall|k: int, j: int|
                        0 <= k < blocks@.len() && i < j < aseq.len() ==> (
                        #[trigger] blocks@[k]).addr + blocks@[k].size <= (
                        #[trigger] aseq[j]).base.addr || aseq[j].base.addr + aseq[j].size
                            <= blocks@[k].addr,
                    forall|k: int|
                        0 <= k < blocks@.len() ==> (#[trigger] blocks@[k]).addr + blocks@[k].size
                            <= cur || end <= blocks@[k].addr,
                    forall|k: int|
                        0 <= k < blocks@.len() ==> exists|j: int|
                            0 <= j < aseq.len() && (#[trigger] aseq[j]).base.addr
                                + area_consumed(aseq, offset as int, j) <= (
                            #[trigger] blocks@[k]).addr && blocks@[k].addr + blocks@[k].size
                                <= aseq[j].base.addr + aseq[j].size,
                decreases end - cur,
            {
                // Largest aligned power-of-two block that fits here.
                let mut s: u64 = PAGE_SIZE;
                while cur % (2 * s) == 0 && 2 * s <= end - cur && 2 * s <= PHYSMAP_SIZE
                    invariant
                        block_size_ok(s as int),
                        cur as int % s as int == 0,
                        s <= end - cur,
                        s <= PHYSMAP_SIZE,
                        end <= PHYSMAP_SIZE,
                        cur <= end,
                    decreases PHYSMAP_SIZE - s,
                {
                    proof {
                        lemma_block_size_double(s as int);
                    }
                    s = 2 * s;
                }
                let blk = FreeBlock { addr: cur, size: s };
                proof {
                    assert(free_block_wf(blk));
                    lemma_blocks_wf_push(blocks@, blk);
                    lemma_free_frames_push(blocks@, blk);
                    lemma_block_size_props(s as int);
                    let q = s as int / PAGE_SIZE as int;
                    vstd::arithmetic::div_mod::lemma_fundamental_div_mod(
                        s as int,
                        PAGE_SIZE as int,
                    );
                    assert((free_frames(blocks@) + q) * PAGE_SIZE as int == free_frames(blocks@)
                        * PAGE_SIZE as int + q * PAGE_SIZE as int) by (nonlinear_arith);
                    assert forall|k: int| 0 <= k < blocks@.push(blk).len() implies exists|j: int|
                        0 <= j < aseq.len() && (#[trigger] aseq[j]).base.addr + area_consumed(
                            aseq,
                            offset as int,
                            j,
                        ) <= (#[trigger] blocks@.push(blk)[k]).addr && blocks@.push(blk)[k].addr
                            + blocks@.push(blk)[k].size <= aseq[j].base.addr
                            + aseq[j].size by {
                        if k < blocks@.len() {
                            assert(blocks@.push(blk)[k] == blocks@[k]);
                        } else {
                            assert(blocks@.push(blk)[k] == blk);
                            assert(aseq[i as int].base.addr + area_consumed(
                                aseq,
                                offset as int,
                                i as int,
                            ) <= blk.addr && blk.addr + blk.size <= aseq[i as int].base.addr
                                + aseq[i as int].size);
                        }
                    }
                }
                blocks.push(blk);
                cur = cur + s;
            }

            total_bytes = total_bytes + a.size;
            i += 1;
        }

        proof {
            assert(aseq.take(n as int) =~= aseq);
            lemma_bump_remaining(aseq, offset as int, n as int);
            assert(remaining == 0);
        }
        (blocks, total_bytes)
    }


    /// Serve `count` contiguous frames: take a free block of the serving
    /// size, splitting a larger one down as a buddy allocator does. `None`
    /// exactly when no free block can hold the request.
    #[verifier::loop_isolation(false)]
    #[verifier::rlimit(60)]
    #[verifier::spinoff_prover]
    pub fn allocate(&mut self, count: u64) -> (r: Option<PhysicalAddress>)
        requires
            old(self).wf(),
            0 < count <= PHYSMAP_SIZE / PAGE_SIZE,
        ensures
            final(self).wf(),
            final(self).total == old(self).total,
            match r {
                Some(addr) => {
                    let s = order_bytes(count as int);
                    &&& addr.addr as int % s == 0
                    &&& addr.addr + s <= PHYSMAP_SIZE
                    &&& final(self).used == old(self).used + s / PAGE_SIZE as int
                    &&& forall|a: int|
                        addr.addr <= a < addr.addr + s ==> in_free(old(self).blocks@, a)
                    &&& forall|a: int|
                        #[trigger] in_free(final(self).blocks@, a) <==> (in_free(
                            old(self).blocks@,
                            a,
                        ) && !(addr.addr <= a < addr.addr + s))
                },
                None => {
                    &&& *final(self) == *old(self)
                    &&& forall|i: int|
                        0 <= i < old(self).blocks@.len() ==> (
                        #[trigger] old(self).blocks@[i]).size < order_bytes(count as int)
                },
            },
    {
        let size = order_bytes_exec(count);
        proof {
            lemma_order_bytes_props(count as int);
        }

        // Find any block big enough.
        let mut idx: usize = 0;
        while idx < self.blocks.len() && self.blocks[idx].size < size
            invariant
                0 <= idx <= self.blocks@.len(),
                forall|k: int| 0 <= k < idx ==> (#[trigger] self.blocks@[k]).size < size,
            decreases self.blocks@.len() - idx,
        {
            idx += 1;
        }
        if idx == self.blocks.len() {
            return None;
        }

        let ghost old_blocks = self.blocks@;
        let b = self.blocks[idx];
        self.blocks.remove(idx);
        proof {
            lemma_blocks_wf_remove(old_blocks, idx as int);
            lemma_free_frames_remove(old_blocks, idx as int);
            assert forall|a: int| #[trigger] in_free(self.blocks@, a) <==> (in_free(old_blocks, a)
                && !(b.addr <= a < b.addr + b.size)) by {
                lemma_in_free_remove(old_blocks, idx as int, a);
            }
            lemma_block_size_props(b.size as int);
        }

        // Split the block down to the serving size, returning its upper
        // halves to the free list.
        let mut baddr = b.addr;
        let mut bsize = b.size;
        while bsize > size
            invariant
                block_size_ok(bsize as int),
                bsize >= size,
                baddr as int % bsize as int == 0,
                baddr + bsize <= PHYSMAP_SIZE,
                blocks_wf(self.blocks@),
                forall|k: int|
                    0 <= k < self.blocks@.len() ==> (#[trigger] self.blocks@[k]).addr
                        + self.blocks@[k].size <= baddr || baddr + bsize
                        <= self.blocks@[k].addr,
                forall|a: int|
                    baddr <= a < baddr + bsize ==> in_free(old_blocks, a) && !in_free(
                        self.blocks@,
                        a,
                    ),
                forall|a: int|
                    #[trigger] in_free(self.blocks@, a) || (baddr <= a < baddr + bsize) <==>
                    in_free(old_blocks, a),
                free_frames(self.blocks@) + bsize as int / PAGE_SIZE as int == free_frames(
                    old_blocks,
                ),
                self.used == old(self).used,
                self.total == old(self).total,
            decreases bsize,
        {
            let half = bsize / 2;
            proof {
                assert(block_size_ok(half as int));
                lemma_block_size_props(half as int);
                lemma_block_size_ordering(size as int, bsize as int);
                lemma_half_align(baddr as int, half as int);
                let k = baddr as int / half as int;
                vstd::arithmetic::div_mod::lemma_fundamental_div_mod(baddr as int, half as int);
                assert(baddr as int + half as int == (k + 1) * half as int) by (nonlinear_arith)
                    requires
                        baddr as int == half as int * k,
                ;
                vstd::arithmetic::div_mod::lemma_mod_multiples_basic(k + 1, half as int);
            }
            let upper = FreeBlock { addr: baddr + half, size: half };
            let ghost pre_push = self.blocks@;
            self.blocks.push(upper);
            proof {
                lemma_blocks_wf_push(pre_push, upper);
                lemma_free_frames_push(pre_push, upper);
                assert forall|a: int| #[trigger] in_free(self.blocks@, a) <==> (in_free(
                    pre_push,
                    a,
                ) || (upper.addr <= a < upper.addr + upper.size)) by {
                    lemma_in_free_push(pre_push, upper, a);
                }
                assert(half as int / PAGE_SIZE as int + half as int / PAGE_SIZE as int
                    == bsize as int / PAGE_SIZE as int) by {
                    vstd::arithmetic::div_mod::lemma_fundamental_div_mod(
                        half as int,
                        PAGE_SIZE as int,
                    );
                    let q = half as int / PAGE_SIZE as int;
                    assert(half as int == q * PAGE_SIZE);
                    assert(bsize as int == (2 * q) * PAGE_SIZE) by (nonlinear_arith)
                        requires
                            half as int == q * PAGE_SIZE as int,
                            bsize as int == 2 * half as int,
                    ;
                    vstd::arithmetic::div_mod::lemma_div_multiples_vanish(
                        2 * q,
                        PAGE_SIZE as int,
                    );
                    vstd::arithmetic::div_mod::lemma_div_multiples_vanish(q, PAGE_SIZE as int);
                }
            }
            bsize = half;
        }

        proof {
            assert(bsize == size) by {
                if bsize > size {
                    assert(false);
                }
            }
            lemma_free_frames_nonneg(self.blocks@);
            assert(free_frames(self.blocks@) + size as int / PAGE_SIZE as int == free_frames(
                old_blocks,
            ));
            assert(self.used + free_frames(old_blocks) == self.total);
            assert(self.used + size as int / PAGE_SIZE as int <= self.total);
        }
        self.used = self.used + size / PAGE_SIZE;
        Some(PhysicalAddress::new(baddr))
    }

    /// Serve a single frame.
    pub fn allocate_one(&mut self) -> (r: Option<PhysicalAddress>)
        requires
            old(self).wf(),
        ensures
            final(self).wf(),
            final(self).total == old(self).total,
            match r {
                Some(addr) => {
                    &&& addr.addr as int % PAGE_SIZE as int == 0
                    &&& addr.addr + PAGE_SIZE <= PHYSMAP_SIZE
                    &&& final(self).used == old(self).used + 1
                    &&& forall|a: int|
                        addr.addr <= a < addr.addr + PAGE_SIZE ==> in_free(old(self).blocks@, a)
                    &&& forall|a: int|
                        #[trigger] in_free(final(self).blocks@, a) <==> (in_free(
                            old(self).blocks@,
                            a,
                        ) && !(addr.addr <= a < addr.addr + PAGE_SIZE))
                },
                None => {
                    &&& *final(self) == *old(self)
                    &&& forall|i: int|
                        0 <= i < old(self).blocks@.len() ==> (
                        #[trigger] old(self).blocks@[i]).size < PAGE_SIZE
                },
            },
    {
        self.allocate(1)
    }

    /// Return `count` contiguous frames starting at `address`, which must
    /// have come out of `allocate` with the same count: aligned to the
    /// serving size and currently not free. Merges buddy blocks back
    /// together as far as possible.
    #[verifier::loop_isolation(false)]
    #[verifier::rlimit(60)]
    #[verifier::spinoff_prover]
    pub fn free(&mut self, address: PhysicalAddress, count: u64)
        requires
            old(self).wf(),
            0 < count <= PHYSMAP_SIZE / PAGE_SIZE,
            address.addr as int % order_bytes(count as int) == 0,
            address.addr + order_bytes(count as int) <= PHYSMAP_SIZE,
            forall|a: int|
                address.addr <= a < address.addr + order_bytes(count as int) ==> !in_free(
                    old(self).blocks@,
                    a,
                ),
            old(self).used >= order_bytes(count as int) / PAGE_SIZE as int,
        ensures
            final(self).wf(),
            final(self).total == old(self).total,
            final(self).used == old(self).used - order_bytes(count as int) / PAGE_SIZE as int,
            forall|a: int|
                #[trigger] in_free(final(self).blocks@, a) <==> (in_free(old(self).blocks@, a) || (
                address.addr <= a < address.addr + order_bytes(count as int))),
    {
        let size = order_bytes_exec(count);
        proof {
            lemma_order_bytes_props(count as int);
        }
        let ghost old_blocks = self.blocks@;
        let ghost lo = address.addr as int;
        let ghost hi = address.addr + order_bytes(count as int);

        let mut baddr = address.data();
        let mut bsize = size;

        proof {
            assert forall|k: int| 0 <= k < self.blocks@.len() implies (
            #[trigger] self.blocks@[k]).addr + self.blocks@[k].size <= baddr || baddr + bsize
                <= self.blocks@[k].addr by {
                let bk = self.blocks@[k];
                if !(bk.addr + bk.size <= baddr || baddr + bsize <= bk.addr) {
                    let m = if bk.addr >= baddr as int {
                        bk.addr as int
                    } else {
                        baddr as int
                    };
                    assert(bk.addr <= m < bk.addr + bk.size);
                    assert(in_free(old_blocks, m));
                    assert(baddr <= m < baddr + bsize);
                    assert(false);
                }
            }
        }

        loop
            invariant
                block_size_ok(bsize as int),
                baddr as int % bsize as int == 0,
                baddr + bsize <= PHYSMAP_SIZE,
                lo >= baddr,
                hi <= baddr + bsize,
                blocks_wf(self.blocks@),
                forall|k: int|
                    0 <= k < self.blocks@.len() ==> (#[trigger] self.blocks@[k]).addr
                        + self.blocks@[k].size <= baddr || baddr + bsize
                        <= self.blocks@[k].addr,
                forall|a: int|
                    #[trigger] in_free(self.blocks@, a) || (baddr <= a < baddr + bsize) <==>
                    in_free(old_blocks, a) || (lo <= a < hi),
                free_frames(self.blocks@) + bsize as int / PAGE_SIZE as int == free_frames(
                    old_blocks,
                ) + order_bytes(count as int) / PAGE_SIZE as int,
                self.used == old(self).used,
                self.total == old(self).total,
            decreases PHYSMAP_SIZE - bsize,
        {
            // Where the buddy of the current block would sit.
            let aligned_up = baddr % (2 * bsize) == 0;
            proof {
                if !aligned_up {
                    // the block is aligned to its size but not to twice it,
                    // so it sits in the upper half of its pair
                    let q = baddr as int / bsize as int;
                    vstd::arithmetic::div_mod::lemma_fundamental_div_mod(
                        baddr as int,
                        bsize as int,
                    );
                    assert(baddr as int == q * bsize) by (nonlinear_arith)
                        requires
                            baddr as int == bsize as int * q + baddr as int % bsize as int,
                            baddr as int % bsize as int == 0,
                    ;
                    if q == 0 {
                        assert(baddr as int == 0) by (nonlinear_arith)
                            requires
                                baddr as int == q * bsize as int,
                                q == 0,
                        ;
                        vstd::arithmetic::div_mod::lemma_mod_multiples_basic(
                            0,
                            2 * bsize as int,
                        );
                        assert(false);
                    }
                    assert(q >= 1) by (nonlinear_arith)
                        requires
                            baddr as int == q * bsize as int,
                            baddr as int > 0 || q != 0,
                            bsize as int > 0,
                            q != 0,
                            baddr as int >= 0,
                    ;
                    assert(baddr >= bsize) by (nonlinear_arith)
                        requires
                            baddr as int == q * bsize as int,
                            q >= 1,
                            bsize as int > 0,
                    ;
                }
            }
            let buddy_addr = if aligned_up {
                baddr + bsize
            } else {
                baddr - bsize
            };

            // Look for a free buddy of the same size.
            let mut j: usize = 0;
            let mut found = self.blocks.len();
            while j < self.blocks.len()
                invariant
                    0 <= j <= self.blocks@.len(),
                    found <= self.blocks@.len(),
                    found == self.blocks@.len() ==> forall|k: int|
                        0 <= k < j ==> !((#[trigger] self.blocks@[k]).addr == buddy_addr
                            && self.blocks@[k].size == bsize),
                    found < self.blocks@.len() ==> self.blocks@[found as int].addr == buddy_addr
                        && self.blocks@[found as int].size == bsize,
                decreases self.blocks@.len() - j,
            {
                let blk = self.blocks[j];
                if blk.addr == buddy_addr && blk.size == bsize {
                    found = j;
                    break ;
                }
                j += 1;
            }

            if found == self.blocks.len() || 2 * bsize > PHYSMAP_SIZE {
                break ;
            }

            // Merge with the buddy: the pair forms one block of twice the
            // size, aligned to it.
            let ghost pre = self.blocks@;
            let merged_addr = if aligned_up {
                baddr
            } else {
                buddy_addr
            };
            proof {
                lemma_blocks_wf_remove(pre, found as int);
                lemma_free_frames_remove(pre, found as int);
            }
            self.blocks.remove(found);
            proof {
                assert forall|a: int| #[trigger] in_free(self.blocks@, a) <==> (in_free(pre, a)
                    && !(buddy_addr <= a < buddy_addr + bsize)) by {
                    lemma_in_free_remove(pre, found as int, a);
                }
                // alignment of the merged block
                if aligned_up {
                } else {
                    let q = baddr as int / bsize as int;
                    vstd::arithmetic::div_mod::lemma_fundamental_div_mod(
                        baddr as int,
                        bsize as int,
                    );
                    assert(baddr as int == q * bsize);
                    // q is odd: were it even, baddr would be aligned to
                    // twice the size
                    if q % 2 == 0 {
                        let h = q / 2;
                        vstd::arithmetic::div_mod::lemma_fundamental_div_mod(q, 2);
                        assert(q == 2 * h);
                        assert(baddr as int == h * (2 * bsize as int)) by (nonlinear_arith)
                            requires
                                baddr as int == q * bsize as int,
                                q == 2 * h,
                        ;
                        vstd::arithmetic::div_mod::lemma_mod_multiples_basic(
                            h,
                            2 * bsize as int,
                        );
                        assert(false);
                    }
                    let h = (q - 1) / 2;
                    assert(q == 2 * h + 1);
                    assert(buddy_addr as int == h * (2 * bsize as int)) by (nonlinear_arith)
                        requires
                            baddr as int == q * bsize as int,
                            q == 2 * h + 1,
                            buddy_addr as int == baddr as int - bsize as int,
                    ;
                    vstd::arithmetic::div_mod::lemma_mod_multiples_basic(h, 2 * bsize as int);
                }
                lemma_block_size_double(bsize as int);
                lemma_block_size_props(bsize as int);
                assert((2 * bsize as int) / PAGE_SIZE as int == bsize as int / PAGE_SIZE as int
                    + bsize as int / PAGE_SIZE as int) by {
                    let q = bsize as int / PAGE_SIZE as int;
                    vstd::arithmetic::div_mod::lemma_fundamental_div_mod(
                        bsize as int,
                        PAGE_SIZE as int,
                    );
                    assert(bsize as int == q * PAGE_SIZE);
                    assert(2 * bsize as int == (2 * q) * PAGE_SIZE) by (nonlinear_arith)
                        requires
                            bsize as int == q * PAGE_SIZE as int,
                    ;
                    vstd::arithmetic::div_mod::lemma_div_multiples_vanish(
                        2 * q,
                        PAGE_SIZE as int,
                    );
                    vstd::arithmetic::div_mod::lemma_div_multiples_vanish(q, PAGE_SIZE as int);
                }
            }
            proof {
                // the pair is adjacent, so the merged block covers exactly
                // the union of the two, and the buddy block was free; the
                // membership equation carries over to the merged candidate
                assert forall|a: int|
                    #[trigger] in_free(self.blocks@, a) || (merged_addr <= a < merged_addr + 2
                        * bsize) <==> in_free(old_blocks, a) || (lo <= a < hi) by {
                    assert(in_free(self.blocks@, a) <==> (in_free(pre, a) && !(buddy_addr <= a
                        < buddy_addr + bsize)));
                    assert((in_free(pre, a) || (baddr <= a < baddr + bsize)) <==> (in_free(
                        old_blocks,
                        a,
                    ) || (lo <= a < hi)));
                    if buddy_addr <= a < buddy_addr + bsize {
                        assert(pre[found as int].addr <= a < pre[found as int].addr
                            + pre[found as int].size);
                        assert(in_free(pre, a));
                    }
                }
                // the remaining blocks avoid both halves
                assert forall|k: int| 0 <= k < self.blocks@.len() implies (
                #[trigger] self.blocks@[k]).addr + self.blocks@[k].size <= merged_addr
                    || merged_addr + 2 * bsize <= self.blocks@[k].addr by {
                    let ko = if k < found as int {
                        k
                    } else {
                        k + 1
                    };
                    assert(self.blocks@[k] == pre[ko]);
                    assert(ko != found as int);
                    assert(pre[ko].addr + pre[ko].size <= pre[found as int].addr || pre[
                        found as int].addr + pre[found as int].size <= pre[ko].addr);
                }
            }
            baddr = merged_addr;
            bsize = 2 * bsize;
        }

        // Put the (possibly merged) block on the free list.
        let ghost pre = self.blocks@;
        let blk = FreeBlock { addr: baddr, size: bsize };
        self.blocks.push(blk);
        proof {
            lemma_blocks_wf_push(pre, blk);
            lemma_free_frames_push(pre, blk);
            assert forall|a: int| #[trigger] in_free(self.blocks@, a) <==> (in_free(pre, a) || (
            blk.addr <= a < blk.addr + blk.size)) by {
                lemma_in_free_push(pre, blk, a);
            }
            lemma_free_frames_nonneg(pre);
            lemma_block_size_props(bsize as int);
        }
        self.used = self.used - size / PAGE_SIZE;
    }
}

/// The process-wide frame-allocator handle: empty until boot installs the
/// buddy allocator. The mutex that guards it in a running kernel belongs to
/// the concurrency layer around this core; the handle itself only answers
/// for one caller at a time.
#[derive(Clone, Debug)]
pub struct LockedAllocator {
    /// The installed allocator, or `None` before boot hands it over.
    pub inner: Option<BuddyAllocator>,
}

impl LockedAllocator {
    /// Whether an allocator has been installed.
    pub open spec fn initialized(self) -> bool {
        self.inner is Some
    }

    /// The handle invariant: the installed allocator, if any, is
    /// well-formed.
    pub open spec fn wf(self) -> bool {
        self.inner matches Some(b) ==> b.wf()
    }

    /// Frames in use, zero before installation.
    pub open spec fn used(self) -> int {
        match self.inner {
            Some(b) => b.used as int,
            None => 0,
        }
    }

    /// Frames governed in all, zero before installation.
    pub open spec fn total(self) -> int {
        match self.inner {
            Some(b) => b.total as int,
            None => 0,
        }
    }

    /// Whether the byte address `a` is currently free.
    pub open spec fn is_free(self, a: int) -> bool {
        match self.inner {
            Some(b) => in_free(b.blocks@, a),
            None => false,
        }
    }

    /// An empty handle.
    pub fn empty() -> (r: Self)
        ensures
            r.inner is None,
    {
        Self { inner: None }
    }

    /// Install the boot-constructed allocator.
    pub fn install(&mut self, allocator: BuddyAllocator)
        ensures
            final(self).inner == Some(allocator),
    {
        self.inner = Some(allocator);
    }

    /// Serve `count` contiguous frames, or `None` when the allocator is
    /// not installed or has no block large enough.
    pub fn allocate(&mut self, count: u64) -> (r: Option<PhysicalAddress>)
        requires
            old(self).wf(),
            0 < count <= PHYSMAP_SIZE / PAGE_SIZE,
        ensures
            final(self).wf(),
            final(self).total() == old(self).total(),
            final(self).initialized() == old(self).initialized(),
            match r {
                Some(addr) => {
                    let s = order_bytes(count as int);
                    &&& old(self).initialized()
                    &&& addr.addr as int % s == 0
                    &&& addr.addr + s <= PHYSMAP_SIZE
                    &&& final(self).used() == old(self).used() + s / PAGE_SIZE as int
                    &&& forall|a: int| addr.addr <= a < addr.addr + s ==> old(self).is_free(a)
                    &&& forall|a: int|
                        #[trigger] final(self).is_free(a) <==> (old(self).is_free(a) && !(
                        addr.addr <= a < addr.addr + s))
                },
                None => {
                    &&& *final(self) == *old(self)
                    &&& old(self).inner matches Some(b) ==> forall|i: int|
                        0 <= i < b.blocks@.len() ==> (#[trigger] b.blocks@[i]).size < order_bytes(
                            count as int,
                        )
                },
            },
    {
        match &mut self.inner {
            Some(allocator) => allocator.allocate(count),
            None => None,
        }
    }

    /// Serve a single frame.
    pub fn allocate_one(&mut self) -> (r: Option<PhysicalAddress>)
        requires
            old(self).wf(),
        ensures
            final(self).wf(),
            final(self).total() == old(self).total(),
            final(self).initialized() == old(self).initialized(),
            match r {
                Some(addr) => {
                    &&& old(self).initialized()
                    &&& addr.addr as int % PAGE_SIZE as int == 0
                    &&& addr.addr + PAGE_SIZE <= PHYSMAP_SIZE
                    &&& final(self).used() == old(self).used() + 1
                    &&& forall|a: int|
                        addr.addr <= a < addr.addr + PAGE_SIZE ==> old(self).is_free(a)
                    &&& forall|a: int|
                        #[trigger] final(self).is_free(a) <==> (old(self).is_free(a) && !(
                        addr.addr <= a < addr.addr + PAGE_SIZE))
                },
                None => {
                    &&& *final(self) == *old(self)
                    &&& old(self).inner matches Some(b) ==> forall|i: int|
                        0 <= i < b.blocks@.len() ==> (#[trigger] b.blocks@[i]).size < PAGE_SIZE
                },
            },
    {
        proof {
            if self.inner is Some {
                assert(order_bytes(1) == PAGE_SIZE);
            }
        }
        self.allocate(1)
    }

    /// Return `count` frames starting at `address`. They must have come out
    /// of `allocate` with the same count. Does nothing before installation.
    pub fn free(&mut self, address: PhysicalAddress, count: u64)
        requires
            old(self).wf(),
            0 < count <= PHYSMAP_SIZE / PAGE_SIZE,
            old(self).initialized() ==> {
                &&& address.addr as int % order_bytes(count as int) == 0
                &&& address.addr + order_bytes(count as int) <= PHYSMAP_SIZE
                &&& forall|a: int|
                    address.addr <= a < address.addr + order_bytes(count as int) ==> !old(
                        self,
                    ).is_free(a)
                &&& old(self).used() >= order_bytes(count as int) / PAGE_SIZE as int
            },
        ensures
            final(self).wf(),
            final(self).total() == old(self).total(),
            final(self).initialized() == old(self).initialized(),
            old(self).initialized() ==> {
                &&& final(self).used() == old(self).used() - order_bytes(count as int)
                    / PAGE_SIZE as int
                &&& forall|a: int|
                    #[trigger] final(self).is_free(a) <==> (old(self).is_free(a) || (address.addr
                        <= a < address.addr + order_bytes(count as int)))
            },
            !old(self).initialized() ==> *final(self) == *old(self),
    {
        proof {
            if self.inner is Some {
                let b = self.inner->Some_0;
                assert forall|a: int|
                    address.addr <= a < address.addr + order_bytes(count as int) implies !in_free(
                    b.blocks@,
                    a,
                ) by {
                    assert(!old(self).is_free(a));
                }
            }
        }
        match &mut self.inner {
            Some(allocator) => allocator.free(address, count),
            None => {},
        }
    }

    /// The usage of the installed allocator, or all zeroes before
    /// installation.
    pub fn usage(&self) -> (r: FrameUsage)
        ensures
            r.used == self.used(),
            r.total == self.total(),
    {
        match &self.inner {
            Some(allocator) => allocator.usage(),
            None => FrameUsage { used: 0, total: 0 },
        }
    }
}

} // verus!
