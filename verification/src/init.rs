//! Boot-time normalization of the firmware memory map: page-align each free
//! entry, carve out the reserved ranges, clamp to the physmap window, and
//! merge overlapping areas into the sorted area table the allocators run on.

use vstd::prelude::*;

use crate::PAGE_SIZE;
use crate::PHYSMAP_SIZE;
use crate::addr::PhysicalAddress;
use crate::addr::round_up_pages;
use crate::frame_alloc::MemoryArea;
use crate::frame_alloc::area_wf;
use crate::frame_alloc::areas_wf;
use crate::region::round_up_spec;

verus! {

/// The kind of one firmware memory-map entry.
#[derive(Clone, Copy, Debug, Eq, PartialEq, Structural)]
pub enum BootloaderMemoryKind {
    /// Not a real entry.
    Null,
    /// Free for the kernel to use.
    Free,
    /// Reclaimable once firmware data has been consumed.
    Reclaim,
    /// Never to be touched.
    Reserved,
}

/// One firmware memory-map entry.
#[derive(Clone, Copy, Debug, PartialEq, Eq, Structural)]
pub struct BootloaderMemoryEntry {
    /// Physical base address of the described range.
    pub base: u64,
    /// Size of the range in bytes.
    pub size: u64,
    /// What the range holds.
    pub kind: BootloaderMemoryKind,
}

/// Whether two address intervals `[a_start, a_end)` and `[r_start, r_end)`
/// share no address; an empty interval is disjoint from everything.
pub open spec fn range_disjoint(a_start: int, a_end: int, r_start: int, r_end: int) -> bool {
    a_end <= a_start || r_end <= r_start || a_end <= r_start || r_end <= a_start
}

/// Whether the area avoids one reserved range.
pub open spec fn area_avoids(a: MemoryArea, r_start: int, r_end: int) -> bool {
    range_disjoint(a.base.addr as int, a.base.addr + a.size, r_start, r_end)
}

/// Whether some area of the table covers the physical address `a`.
pub open spec fn covered(areas: Seq<MemoryArea>, a: int) -> bool {
    exists|j: int|
        0 <= j < areas.len() && (#[trigger] areas[j]).base.addr <= a < areas[j].base.addr
            + areas[j].size
}

/// What aligning, carving and clamping make of one firmware entry: the
/// interval the normalizer must keep, as a base and size. A zero size means
/// the entry contributes nothing — it was not free, malformed, too small to
/// align, swallowed by a reserved range, or outside the physmap window.
pub open spec fn carve_spec(
    entry: BootloaderMemoryEntry,
    real_end: int,
    kernel_base: int,
    kernel_end: int,
    stack_base: int,
    stack_end: int,
    env_base: int,
    env_end: int,
    acpi_base: int,
    acpi_end: int,
    initfs_base: int,
    initfs_end: int,
) -> (int, int) {
    if !(entry.kind is Free) {
        (0, 0)
    } else if entry.size > u64::MAX - entry.base {
        (0, 0)
    } else {
        let p = PAGE_SIZE as int;
        let base_offset = (p - entry.base as int % p) % p;
        if base_offset > entry.size {
            (0, 0)
        } else {
            let base = entry.base + base_offset;
            let size0 = entry.size - base_offset;
            let size = size0 - size0 % p;
            let nb = base;
            let nb = if base < real_end && base + size > 0 && nb < real_end {
                real_end
            } else {
                nb
            };
            let nb = if base < kernel_end && base + size > kernel_base && nb < kernel_end {
                kernel_end
            } else {
                nb
            };
            let nb = if base < stack_end && base + size > stack_base && nb < stack_end {
                stack_end
            } else {
                nb
            };
            let nb = if base < env_end && base + size > env_base && nb < env_end {
                env_end
            } else {
                nb
            };
            let nb = if base < acpi_end && base + size > acpi_base && nb < acpi_end {
                acpi_end
            } else {
                nb
            };
            let nb = if base < initfs_end && base + size > initfs_base && nb < initfs_end {
                initfs_end
            } else {
                nb
            };
            let (base2, size2) = if nb != base {
                (
                    nb,
                    if base + size >= nb {
                        base + size - nb
                    } else {
                        0
                    },
                )
            } else {
                (base, size)
            };
            if base2 >= PHYSMAP_SIZE as int {
                (base2, 0)
            } else if size2 > PHYSMAP_SIZE - base2 {
                (base2, PHYSMAP_SIZE - base2)
            } else {
                (base2, size2)
            }
        }
    }
}

/// The area table is sorted: each area ends at or before the next begins.
pub open spec fn areas_sorted(areas: Seq<MemoryArea>) -> bool {
    forall|i: int, j: int|
        0 <= i < j < areas.len() ==> (#[trigger] areas[i]).base.addr + areas[i].size <= (
        #[trigger] areas[j]).base.addr
}

/// Normalize the firmware memory map into the boot area table.
///
/// Every entry that is free is page-aligned inward, pushed above each of
/// the reserved ranges it touches (the legacy real-mode window, the kernel
/// image, the boot stack, the environment blob, the ACPI tables and the
/// initfs), clamped to the physmap window, merged with every area it
/// overlaps, and placed in address order. Malformed entries are skipped;
/// normalization never fails.
///
/// The result is a sorted table of pairwise-disjoint, page-aligned,
/// non-empty areas inside the physmap window, each disjoint from all six
/// reserved ranges — and it covers every address that carving leaves of
/// every free entry.
#[verifier::loop_isolation(false)]
#[verifier::spinoff_prover]
pub fn init(
    entries: &Vec<BootloaderMemoryEntry>,
    kernel_base: u64,
    kernel_size: u64,
    stack_base: u64,
    stack_size: u64,
    env_base: u64,
    env_size: u64,
    acpi_base: u64,
    acpi_size: u64,
    initfs_base: u64,
    initfs_size: u64,
) -> (areas: Vec<MemoryArea>)
    requires
        kernel_base as int % PAGE_SIZE as int == 0,
        stack_base as int % PAGE_SIZE as int == 0,
        env_base as int % PAGE_SIZE as int == 0,
        acpi_base as int % PAGE_SIZE as int == 0,
        initfs_base as int % PAGE_SIZE as int == 0,
        kernel_base + kernel_size + PAGE_SIZE <= u64::MAX,
        stack_base + stack_size + PAGE_SIZE <= u64::MAX,
        env_base + env_size + PAGE_SIZE <= u64::MAX,
        acpi_base + acpi_size + PAGE_SIZE <= u64::MAX,
        initfs_base + initfs_size + PAGE_SIZE <= u64::MAX,
    ensures
        areas@.len() <= entries@.len(),
        areas_wf(areas@),
        areas_sorted(areas@),
        forall|i: int|
            0 <= i < areas@.len() ==> {
                let a = #[trigger] areas@[i];
                &&& area_avoids(a, 0, 0x100000)
                &&& area_avoids(a, kernel_base as int, kernel_base + round_up_spec(
                    kernel_size as int,
                ))
                &&& area_avoids(a, stack_base as int, stack_base + round_up_spec(
                    stack_size as int,
                ))
                &&& area_avoids(a, env_base as int, env_base + round_up_spec(env_size as int))
                &&& area_avoids(a, acpi_base as int, acpi_base + round_up_spec(acpi_size as int))
                &&& area_avoids(a, initfs_base as int, initfs_base + round_up_spec(
                    initfs_size as int,
                ))
            },
        forall|i: int, a: int|
            #![trigger entries@[i], covered(areas@, a)]
            0 <= i < entries@.len() && {
                let c = carve_spec(
                    entries@[i],
                    0x100000,
                    kernel_base as int,
                    kernel_base + round_up_spec(kernel_size as int),
                    stack_base as int,
                    stack_base + round_up_spec(stack_size as int),
                    env_base as int,
                    env_base + round_up_spec(env_size as int),
                    acpi_base as int,
                    acpi_base + round_up_spec(acpi_size as int),
                    initfs_base as int,
                    initfs_base + round_up_spec(initfs_size as int),
                );
                c.0 <= a < c.0 + c.1
            } ==> covered(areas@, a),
{
    let real_base: u64 = 0;
    let real_size: u64 = 0x100000;
    let real_end = real_base + real_size;

    let kernel_size_aligned = round_up_pages(kernel_size);
    let kernel_end = kernel_base + kernel_size_aligned;
    let stack_size_aligned = round_up_pages(stack_size);
    let stack_end = stack_base + stack_size_aligned;
    let env_size_aligned = round_up_pages(env_size);
    let env_end = env_base + env_size_aligned;
    let acpi_size_aligned = round_up_pages(acpi_size);
    let acpi_end = acpi_base + acpi_size_aligned;
    let initfs_size_aligned = round_up_pages(initfs_size);
    let initfs_end = initfs_base + initfs_size_aligned;

    let mut areas: Vec<MemoryArea> = Vec::new();
    let mut entry_i: usize = 0;

    while entry_i < entries.len()
        invariant
            0 <= entry_i <= entries@.len(),
            areas@.len() <= entry_i,
            areas_sorted(areas@),
            forall|i: int| 0 <= i < areas@.len() ==> area_wf(#[trigger] areas@[i]),
            forall|i: int|
                0 <= i < areas@.len() ==> {
                    let a = #[trigger] areas@[i];
                    &&& area_avoids(a, real_base as int, real_end as int)
                    &&& area_avoids(a, kernel_base as int, kernel_end as int)
                    &&& area_avoids(a, stack_base as int, stack_end as int)
                    &&& area_avoids(a, env_base as int, env_end as int)
                    &&& area_avoids(a, acpi_base as int, acpi_end as int)
                    &&& area_avoids(a, initfs_base as int, initfs_end as int)
                },
            forall|i: int, a: int|
                #![trigger entries@[i], covered(areas@, a)]
                0 <= i < entry_i && {
                    let c = carve_spec(
                        entries@[i],
                        real_end as int,
                        kernel_base as int,
                        kernel_end as int,
                        stack_base as int,
                        stack_end as int,
                        env_base as int,
                        env_end as int,
                        acpi_base as int,
                        acpi_end as int,
                        initfs_base as int,
                        initfs_end as int,
                    );
                    c.0 <= a < c.0 + c.1
                } ==> covered(areas@, a),
        decreases entries@.len() - entry_i,
    {
        let entry = entries[entry_i];
        entry_i += 1;
        normalize_entry(
            &mut areas,
            entry,
            real_end,
            kernel_base,
            kernel_end,
            stack_base,
            stack_end,
            env_base,
            env_end,
            acpi_base,
            acpi_end,
            initfs_base,
            initfs_end,
        );
    }
    proof {
        assert forall|i: int, j: int|
            0 <= i < areas@.len() && 0 <= j < areas@.len() && i != j implies (
        #[trigger] areas@[i]).base.addr + areas@[i].size <= (#[trigger] areas@[j]).base.addr
            || areas@[j].base.addr + areas@[j].size <= areas@[i].base.addr by {
            if i < j {
                assert(areas@[i].base.addr + areas@[i].size <= areas@[j].base.addr);
            } else {
                assert(areas@[j].base.addr + areas@[j].size <= areas@[i].base.addr);
            }
        }
    }
    areas
}

/// Process one firmware entry against the area table: carve it down, merge
/// it with every area it overlaps, and place what is left in address
/// order. The addresses the table covered, plus the carved range, are
/// exactly covered afterwards.
#[verifier::loop_isolation(false)]
#[verifier::rlimit(100)]
#[verifier::spinoff_prover]
fn normalize_entry(
    areas: &mut Vec<MemoryArea>,
    entry: BootloaderMemoryEntry,
    real_end: u64,
    kernel_base: u64,
    kernel_end: u64,
    stack_base: u64,
    stack_end: u64,
    env_base: u64,
    env_end: u64,
    acpi_base: u64,
    acpi_end: u64,
    initfs_base: u64,
    initfs_end: u64,
)
    requires
        real_end == 0x100000,
        kernel_base <= kernel_end,
        stack_base <= stack_end,
        env_base <= env_end,
        acpi_base <= acpi_end,
        initfs_base <= initfs_end,
        kernel_end as int % PAGE_SIZE as int == 0,
        stack_end as int % PAGE_SIZE as int == 0,
        env_end as int % PAGE_SIZE as int == 0,
        acpi_end as int % PAGE_SIZE as int == 0,
        initfs_end as int % PAGE_SIZE as int == 0,
        areas_sorted(old(areas)@),
        forall|i: int| 0 <= i < old(areas)@.len() ==> area_wf(#[trigger] old(areas)@[i]),
        forall|i: int|
            0 <= i < old(areas)@.len() ==> {
                let a = #[trigger] old(areas)@[i];
                &&& area_avoids(a, 0, real_end as int)
                &&& area_avoids(a, kernel_base as int, kernel_end as int)
                &&& area_avoids(a, stack_base as int, stack_end as int)
                &&& area_avoids(a, env_base as int, env_end as int)
                &&& area_avoids(a, acpi_base as int, acpi_end as int)
                &&& area_avoids(a, initfs_base as int, initfs_end as int)
            },
    ensures
        final(areas)@.len() <= old(areas)@.len() + 1,
        areas_sorted(final(areas)@),
        forall|i: int| 0 <= i < final(areas)@.len() ==> area_wf(#[trigger] final(areas)@[i]),
        forall|i: int|
            0 <= i < final(areas)@.len() ==> {
                let a = #[trigger] final(areas)@[i];
                &&& area_avoids(a, 0, real_end as int)
                &&& area_avoids(a, kernel_base as int, kernel_end as int)
                &&& area_avoids(a, stack_base as int, stack_end as int)
                &&& area_avoids(a, env_base as int, env_end as int)
                &&& area_avoids(a, acpi_base as int, acpi_end as int)
                &&& area_avoids(a, initfs_base as int, initfs_end as int)
            },
        forall|a: int| covered(old(areas)@, a) ==> #[trigger] covered(final(areas)@, a),
        forall|a: int|
            {
                let c = carve_spec(
                    entry,
                    real_end as int,
                    kernel_base as int,
                    kernel_end as int,
                    stack_base as int,
                    stack_end as int,
                    env_base as int,
                    env_end as int,
                    acpi_base as int,
                    acpi_end as int,
                    initfs_base as int,
                    initfs_end as int,
                );
                c.0 <= a < c.0 + c.1
            } ==> #[trigger] covered(final(areas)@, a),
{
    let (base, size) = carve_entry(
        entry,
        real_end,
        kernel_base,
        kernel_end,
        stack_base,
        stack_end,
        env_base,
        env_end,
        acpi_base,
        acpi_end,
        initfs_base,
        initfs_end,
    );
    proof {
        lemma_carve_props(
            entry,
            real_end as int,
            kernel_base as int,
            kernel_end as int,
            stack_base as int,
            stack_end as int,
            env_base as int,
            env_end as int,
            acpi_base as int,
            acpi_end as int,
            initfs_base as int,
            initfs_end as int,
        );
    }
    if size == 0 {
        // Nothing left of the entry; the table stands.
        proof {
            assert forall|a: int| covered(old(areas)@, a) implies #[trigger] covered(
                final(areas)@,
                a,
            ) by {}
        }
        return ;
    }

    // Grow a hull from the carved range, absorbing every area it overlaps;
    // since absorbed areas overlap the hull, the hull is always exactly the
    // union of the carved range and the absorbed areas.
    let mut m_base = base;
    let mut m_end = base + size;
    let mut kept: Vec<MemoryArea> = Vec::new();
    let ghost old_areas = areas@;
    let mut k: usize = 0;
    while k < areas.len()
        invariant
            0 <= k <= areas@.len(),
            kept@.len() <= k,
            areas@ == old_areas,
            m_base < m_end,
            m_base as int % PAGE_SIZE as int == 0,
            (m_end - m_base) as int % PAGE_SIZE as int == 0,
            m_end <= PHYSMAP_SIZE,
            m_base <= base && base + size <= m_end,
            range_disjoint(m_base as int, m_end as int, 0, real_end as int),
            range_disjoint(m_base as int, m_end as int, kernel_base as int, kernel_end as int),
            range_disjoint(m_base as int, m_end as int, stack_base as int, stack_end as int),
            range_disjoint(m_base as int, m_end as int, env_base as int, env_end as int),
            range_disjoint(m_base as int, m_end as int, acpi_base as int, acpi_end as int),
            range_disjoint(m_base as int, m_end as int, initfs_base as int, initfs_end as int),
            forall|t: int|
                0 <= t < kept@.len() ==> exists|t2: int|
                    0 <= t2 < k && #[trigger] kept@[t] == old_areas[t2],
            forall|t1: int, t2: int|
                0 <= t1 < t2 < kept@.len() ==> (#[trigger] kept@[t1]).base.addr + kept@[t1].size
                    <= (#[trigger] kept@[t2]).base.addr,
            forall|t: int|
                0 <= t < kept@.len() ==> (#[trigger] kept@[t]).base.addr + kept@[t].size <= m_base
                    || m_end <= kept@[t].base.addr,
            forall|t: int, j: int|
                0 <= t < kept@.len() && k <= j < old_areas.len() ==> (
                #[trigger] kept@[t]).base.addr + kept@[t].size <= (
                #[trigger] old_areas[j]).base.addr || old_areas[j].base.addr + old_areas[j].size
                    <= kept@[t].base.addr,
            forall|a: int|
                #[trigger] covered(old_areas.take(k as int), a) ==> covered(kept@, a) || (m_base
                    <= a < m_end),
        decreases areas@.len() - k,
    {
        let other = areas[k];
        let other_base = other.base.data();
        let other_end = other_base + other.size;
        proof {
            assert(other == old_areas[k as int]);
            assert(area_wf(old_areas[k as int]));
            assert(old_areas.take(k as int + 1).drop_last() =~= old_areas.take(k as int));
        }
        if m_base < other_end && m_end > other_base {
            // Absorb: the hull and the area overlap, so their union is the
            // interval hull of the two; it inherits alignment, the window
            // bound and distance from every reserved range.
            let new_base = if m_base <= other_base {
                m_base
            } else {
                other_base
            };
            let new_end = if m_end >= other_end {
                m_end
            } else {
                other_end
            };
            proof {
                crate::grants::lemma_aligned(other_base as int, other.size as int);
                crate::grants::lemma_aligned(new_end as int, new_base as int);
                let hs = new_base as int;
                let he = new_end as int;
                let b1 = m_base as int;
                let e1 = m_end as int;
                let b2 = other_base as int;
                let e2 = other_end as int;
                assert forall|rs: int, re: int|
                    range_disjoint(b1, e1, rs, re) && range_disjoint(b2, e2, rs, re) implies
                    #[trigger] range_disjoint(hs, he, rs, re) by {
                    if !range_disjoint(hs, he, rs, re) {
                        let m = if hs >= rs {
                            hs
                        } else {
                            rs
                        };
                        assert(hs <= m < he && rs <= m < re);
                        assert(b1 <= m < e1 || b2 <= m < e2);
                        assert(false);
                    }
                }
                assert(range_disjoint(b2, e2, 0, real_end as int));
                // every kept area is disjoint from the absorbed one (both
                // come from the sorted table) and from the old hull, hence
                // from the union
                assert forall|t: int|
                    0 <= t < kept@.len() implies (#[trigger] kept@[t]).base.addr + kept@[t].size
                    <= new_base || new_end <= kept@[t].base.addr by {
                    assert(kept@[t].base.addr + kept@[t].size <= old_areas[k as int].base.addr
                        || old_areas[k as int].base.addr + old_areas[k as int].size
                        <= kept@[t].base.addr);
                }
                assert forall|a: int|
                    #[trigger] covered(old_areas.take(k as int + 1), a) implies covered(kept@, a)
                    || (new_base <= a < new_end) by {
                    let j = choose|j: int|
                        0 <= j < k + 1 && (#[trigger] old_areas.take(k as int + 1)[j]).base.addr
                            <= a < old_areas.take(k as int + 1)[j].base.addr
                            + old_areas.take(k as int + 1)[j].size;
                    if j < k {
                        assert(old_areas.take(k as int)[j] == old_areas[j]);
                        assert(covered(old_areas.take(k as int), a));
                    }
                }
            }
            m_base = new_base;
            m_end = new_end;
        } else {
            let ghost pre_kept = kept@;
            kept.push(other);
            proof {
                assert forall|t: int| 0 <= t < kept@.len() implies exists|t2: int|
                    0 <= t2 < k + 1 && #[trigger] kept@[t] == old_areas[t2] by {
                    if t < pre_kept.len() {
                        assert(kept@[t] == pre_kept[t]);
                        let t2 = choose|t2: int|
                            0 <= t2 < k && #[trigger] pre_kept[t] == old_areas[t2];
                        assert(kept@[t] == old_areas[t2]);
                    } else {
                        assert(kept@[t] == old_areas[k as int]);
                    }
                }
                assert forall|t1: int, t2: int|
                    0 <= t1 < t2 < kept@.len() implies (#[trigger] kept@[t1]).base.addr
                    + kept@[t1].size <= (#[trigger] kept@[t2]).base.addr by {
                    if t2 == kept@.len() - 1 {
                        let j1 = choose|j1: int|
                            0 <= j1 < k && #[trigger] pre_kept[t1] == old_areas[j1];
                        assert(kept@[t1] == old_areas[j1]);
                        assert(old_areas[j1].base.addr + old_areas[j1].size <= old_areas[
                            k as int].base.addr);
                    } else {
                        assert(kept@[t1] == pre_kept[t1] && kept@[t2] == pre_kept[t2]);
                    }
                }
                assert forall|a: int|
                    #[trigger] covered(old_areas.take(k as int + 1), a) implies covered(kept@, a)
                    || (m_base <= a < m_end) by {
                    let j = choose|j: int|
                        0 <= j < k + 1 && (#[trigger] old_areas.take(k as int + 1)[j]).base.addr
                            <= a < old_areas.take(k as int + 1)[j].base.addr
                            + old_areas.take(k as int + 1)[j].size;
                    if j < k {
                        assert(old_areas.take(k as int)[j] == old_areas[j]);
                        assert(covered(old_areas.take(k as int), a));
                        if covered(pre_kept, a) {
                            let t = choose|t: int|
                                0 <= t < pre_kept.len() && (#[trigger] pre_kept[t]).base.addr <= a
                                    < pre_kept[t].base.addr + pre_kept[t].size;
                            assert(kept@[t] == pre_kept[t]);
                            assert(covered(kept@, a));
                        }
                    } else {
                        assert(kept@[kept@.len() - 1] == old_areas[k as int]);
                        assert(covered(kept@, a));
                    }
                }
            }
        }
        k += 1;
    }

    // Place the hull at its position in address order.
    let merged = MemoryArea { base: PhysicalAddress { addr: m_base }, size: m_end - m_base };
    let mut pos: usize = 0;
    while pos < kept.len() && kept[pos].base.addr + kept[pos].size <= m_base
        invariant
            0 <= pos <= kept@.len(),
            forall|t: int|
                0 <= t < pos ==> (#[trigger] kept@[t]).base.addr + kept@[t].size <= m_base,
        decreases kept@.len() - pos,
    {
        pos += 1;
    }
    proof {
        // areas at or past the position lie entirely above the hull
        assert forall|t: int| pos <= t < kept@.len() implies m_end <= (
        #[trigger] kept@[t]).base.addr by {
            if t == pos {
                assert(kept@[t].base.addr + kept@[t].size <= m_base || m_end
                    <= kept@[t].base.addr);
            } else {
                assert(kept@[pos as int].base.addr + kept@[pos as int].size
                    <= kept@[t].base.addr);
                assert(kept@[pos as int].base.addr + kept@[pos as int].size <= m_base || m_end
                    <= kept@[pos as int].base.addr);
            }
        }
    }
    let ghost pre_insert = kept@;
    kept.insert(pos, merged);
    proof {
        assert(old_areas.take(old_areas.len() as int) =~= old_areas);
        assert forall|a: int| covered(old_areas, a) implies #[trigger] covered(kept@, a) by {
            if covered(pre_insert, a) {
                let t = choose|t: int|
                    0 <= t < pre_insert.len() && (#[trigger] pre_insert[t]).base.addr <= a
                        < pre_insert[t].base.addr + pre_insert[t].size;
                let tn = if t < pos {
                    t
                } else {
                    t + 1
                };
                assert(kept@[tn] == pre_insert[t]);
                assert(covered(kept@, a));
            } else {
                assert(m_base <= a < m_end);
                assert(kept@[pos as int] == merged);
                assert(covered(kept@, a));
            }
        }
        assert(kept@[pos as int] == merged);
        assert forall|a: int| m_base <= a < m_end implies #[trigger] covered(kept@, a) by {
            assert(kept@[pos as int].base.addr <= a < kept@[pos as int].base.addr + kept@[
                pos as int].size);
        }
        assert forall|t1: int, t2: int|
            0 <= t1 < t2 < kept@.len() implies (#[trigger] kept@[t1]).base.addr + kept@[t1].size
            <= (#[trigger] kept@[t2]).base.addr by {
            if t1 == pos {
                assert(kept@[t2] == pre_insert[t2 - 1]);
            } else if t2 == pos {
                assert(kept@[t1] == pre_insert[t1]);
            } else {
                let o1 = if t1 < pos {
                    t1
                } else {
                    t1 - 1
                };
                let o2 = if t2 < pos {
                    t2
                } else {
                    t2 - 1
                };
                assert(kept@[t1] == pre_insert[o1] && kept@[t2] == pre_insert[o2]);
            }
        }
        assert forall|t: int| 0 <= t < kept@.len() implies area_wf(#[trigger] kept@[t]) by {
            if t != pos {
                let o = if t < pos {
                    t
                } else {
                    t - 1
                };
                assert(kept@[t] == pre_insert[o]);
                let t2 = choose|t2: int|
                    0 <= t2 < old_areas.len() && #[trigger] pre_insert[o] == old_areas[t2];
                assert(area_wf(old_areas[t2]));
            }
        }
        assert forall|t: int|
            0 <= t < kept@.len() implies {
            let a = #[trigger] kept@[t];
            &&& area_avoids(a, 0, real_end as int)
            &&& area_avoids(a, kernel_base as int, kernel_end as int)
            &&& area_avoids(a, stack_base as int, stack_end as int)
            &&& area_avoids(a, env_base as int, env_end as int)
            &&& area_avoids(a, acpi_base as int, acpi_end as int)
            &&& area_avoids(a, initfs_base as int, initfs_end as int)
        } by {
            if t != pos {
                let o = if t < pos {
                    t
                } else {
                    t - 1
                };
                assert(kept@[t] == pre_insert[o]);
                let t2 = choose|t2: int|
                    0 <= t2 < old_areas.len() && #[trigger] pre_insert[o] == old_areas[t2];
                assert(area_wf(old_areas[t2]));
            }
        }
    }
    *areas = kept;
}

/// What carving guarantees of its result whenever anything is left: a
/// page-aligned, non-empty interval inside the physmap window, disjoint
/// from every reserved range.
#[verifier::rlimit(100)]
#[verifier::spinoff_prover]
proof fn lemma_carve_props(
    entry: BootloaderMemoryEntry,
    real_end: int,
    kernel_base: int,
    kernel_end: int,
    stack_base: int,
    stack_end: int,
    env_base: int,
    env_end: int,
    acpi_base: int,
    acpi_end: int,
    initfs_base: int,
    initfs_end: int,
)
    requires
        real_end == 0x100000,
        kernel_base <= kernel_end,
        stack_base <= stack_end,
        env_base <= env_end,
        acpi_base <= acpi_end,
        initfs_base <= initfs_end,
        kernel_end % PAGE_SIZE as int == 0,
        stack_end % PAGE_SIZE as int == 0,
        env_end % PAGE_SIZE as int == 0,
        acpi_end % PAGE_SIZE as int == 0,
        initfs_end % PAGE_SIZE as int == 0,
    ensures
        ({
            let c = carve_spec(
                entry,
                real_end,
                kernel_base,
                kernel_end,
                stack_base,
                stack_end,
                env_base,
                env_end,
                acpi_base,
                acpi_end,
                initfs_base,
                initfs_end,
            );
            c.1 > 0 ==> {
                &&& c.0 % PAGE_SIZE as int == 0
                &&& c.1 % PAGE_SIZE as int == 0
                &&& c.0 + c.1 <= PHYSMAP_SIZE
                &&& range_disjoint(c.0, c.0 + c.1, 0, real_end)
                &&& range_disjoint(c.0, c.0 + c.1, kernel_base, kernel_end)
                &&& range_disjoint(c.0, c.0 + c.1, stack_base, stack_end)
                &&& range_disjoint(c.0, c.0 + c.1, env_base, env_end)
                &&& range_disjoint(c.0, c.0 + c.1, acpi_base, acpi_end)
                &&& range_disjoint(c.0, c.0 + c.1, initfs_base, initfs_end)
            }
        }),
{
    let p = PAGE_SIZE as int;
    if entry.kind is Free && !(entry.size > u64::MAX - entry.base) {
        let base_offset = (p - entry.base as int % p) % p;
        if base_offset <= entry.size {
            vstd::arithmetic::div_mod::lemma_mod_bound(entry.base as int, p);
            let base = entry.base + base_offset;
            let size0 = entry.size - base_offset;
            let size = size0 - size0 % p;
            vstd::arithmetic::div_mod::lemma_sub_mod_noop(size0, size0 % p, p);
            vstd::arithmetic::div_mod::lemma_mod_self_0(p);
            vstd::arithmetic::div_mod::lemma_mod_twice(size0, p);
            assert(base % p == 0) by (nonlinear_arith)
                requires
                    p > 0,
                    base == entry.base + ((p - entry.base as int % p) % p),
                    entry.base as int % p >= 0,
                    entry.base as int % p < p,
            ;
            assert(size % p == 0);
        }
    }
}

/// Align one free firmware entry inward, push it above every reserved
/// range it touches, and clamp it to the physmap window, exactly as
/// `carve_spec` says. A zero size means the entry is to be skipped.
#[verifier::rlimit(100)]
#[verifier::spinoff_prover]
fn carve_entry(
    entry: BootloaderMemoryEntry,
    real_end: u64,
    kernel_base: u64,
    kernel_end: u64,
    stack_base: u64,
    stack_end: u64,
    env_base: u64,
    env_end: u64,
    acpi_base: u64,
    acpi_end: u64,
    initfs_base: u64,
    initfs_end: u64,
) -> (r: (u64, u64))
    requires
        real_end == 0x100000,
        kernel_base <= kernel_end,
        stack_base <= stack_end,
        env_base <= env_end,
        acpi_base <= acpi_end,
        initfs_base <= initfs_end,
        kernel_end as int % PAGE_SIZE as int == 0,
        stack_end as int % PAGE_SIZE as int == 0,
        env_end as int % PAGE_SIZE as int == 0,
        acpi_end as int % PAGE_SIZE as int == 0,
        initfs_end as int % PAGE_SIZE as int == 0,
    ensures
        (r.0 as int, r.1 as int) == carve_spec(
            entry,
            real_end as int,
            kernel_base as int,
            kernel_end as int,
            stack_base as int,
            stack_end as int,
            env_base as int,
            env_end as int,
            acpi_base as int,
            acpi_end as int,
            initfs_base as int,
            initfs_end as int,
        ),
{
    let real_base: u64 = 0;
    if !matches!(entry.kind, BootloaderMemoryKind::Free) {
        // Not a free area
        return (0, 0);
    }
    if entry.size > u64::MAX - entry.base {
        // Malformed entry whose size wraps; skip it
        return (0, 0);
    }

    let mut base = entry.base;
    let mut size = entry.size;

    // Page align base upward
    let base_offset = (PAGE_SIZE - (base % PAGE_SIZE)) % PAGE_SIZE;
    if base_offset > size {
        // Area is too small to page align base
        return (0, 0);
    }
    base += base_offset;
    size -= base_offset;

    // Page align size downward
    size = size - size % PAGE_SIZE;

    proof {
        let p = PAGE_SIZE as int;
        vstd::arithmetic::div_mod::lemma_mod_bound(entry.base as int, p);
        vstd::arithmetic::div_mod::lemma_sub_mod_noop(size as int, size as int % p, p);
        vstd::arithmetic::div_mod::lemma_mod_self_0(p);
        vstd::arithmetic::div_mod::lemma_mod_twice(size as int, p);
        assert(base as int % p == 0) by (nonlinear_arith)
            requires
                p > 0,
                base as int == entry.base + ((p - entry.base as int % p) % p),
                entry.base as int % p >= 0,
                entry.base as int % p < p,
        ;
        assert(size as int % p == 0);
    }

    let mut new_base = base;

    // Ensure reserved ranges are not used, pushing the base above each
    // range the entry touches
    if base < real_end && base + size > real_base {
        new_base = if new_base >= real_end {
            new_base
        } else {
            real_end
        };
    }
    if base < kernel_end && base + size > kernel_base {
        new_base = if new_base >= kernel_end {
            new_base
        } else {
            kernel_end
        };
    }
    if base < stack_end && base + size > stack_base {
        new_base = if new_base >= stack_end {
            new_base
        } else {
            stack_end
        };
    }
    if base < env_end && base + size > env_base {
        new_base = if new_base >= env_end {
            new_base
        } else {
            env_end
        };
    }
    if base < acpi_end && base + size > acpi_base {
        new_base = if new_base >= acpi_end {
            new_base
        } else {
            acpi_end
        };
    }
    if base < initfs_end && base + size > initfs_base {
        new_base = if new_base >= initfs_end {
            new_base
        } else {
            initfs_end
        };
    }

    if new_base != base {
        let end = base + size;
        let new_size = if end >= new_base {
            end - new_base
        } else {
            0
        };
        base = new_base;
        size = new_size;
    }

    // Ensure the area fits within the physmap window
    if base >= PHYSMAP_SIZE {
        size = 0;  // Skip area
    } else if size > PHYSMAP_SIZE - base {
        size = PHYSMAP_SIZE - base;
    }

    (base, size)
}

} // verus!
