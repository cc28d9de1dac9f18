//! Physical frame allocation from the boot memory map.
//!
//! The bootloader hands the kernel a list of physical memory regions, each
//! tagged usable or reserved.  The allocator flattens the usable regions
//! into one increasing sequence of 4 KiB frame base addresses and hands
//! them out through a monotonic cursor; frames are never reclaimed.

use vstd::prelude::*;
use vstd::arithmetic::div_mod::*;
use vstd::arithmetic::mul::*;

verus! {

/// Size in bytes of one physical frame (and of one virtual page).
pub const PAGE_SIZE: u64 = 4096;

/// One more than the largest physical address the paging hardware can
/// name: 52 bits of physical address space.
pub const MAX_PHYS_ADDR: u64 = 0x10_0000_0000_0000;

/// One region of the boot memory map: the half-open byte range
/// `[start, end)`, tagged usable or reserved.
#[derive(Clone, Copy)]
pub struct MemoryRegion {
    pub start: u64,
    pub end: u64,
    pub usable: bool,
}

/// Index (in units of whole frames) of the first frame lying wholly
/// inside the region.
pub open spec fn first_frame_index(r: MemoryRegion) -> int {
    if r.start % PAGE_SIZE == 0 {
        r.start as int / PAGE_SIZE as int
    } else {
        r.start as int / PAGE_SIZE as int + 1
    }
}

/// Index one past the last frame lying wholly inside the region.
pub open spec fn end_frame_index(r: MemoryRegion) -> int {
    r.end as int / PAGE_SIZE as int
}

/// How many whole frames fit inside the region.
pub open spec fn region_frame_count(r: MemoryRegion) -> nat {
    if first_frame_index(r) <= end_frame_index(r) {
        (end_frame_index(r) - first_frame_index(r)) as nat
    } else {
        0
    }
}

/// The frame-aligned base addresses lying wholly inside one region, in
/// increasing order.  A reserved region contributes nothing.
pub open spec fn region_frames(r: MemoryRegion) -> Seq<u64> {
    if r.usable {
        Seq::new(region_frame_count(r), |i: int| ((first_frame_index(r) + i) * PAGE_SIZE) as u64)
    } else {
        Seq::empty()
    }
}

/// All usable frames of the memory map, region by region.
pub open spec fn all_frames(regions: Seq<MemoryRegion>) -> Seq<u64>
    decreases regions.len(),
{
    if regions.len() == 0 {
        Seq::empty()
    } else {
        all_frames(regions.drop_last()) + region_frames(regions.last())
    }
}

/// What the boot hand-off guarantees of the memory map: regions are
/// ordered, non-overlapping, and lie below the physical address limit.
pub open spec fn regions_wf(regions: Seq<MemoryRegion>) -> bool {
    &&& forall|i: int| 0 <= i < regions.len() ==> (#[trigger] regions[i]).start <= regions[i].end
    &&& forall|i: int| 0 <= i < regions.len() ==> (#[trigger] regions[i]).end <= MAX_PHYS_ADDR
    &&& forall|i: int| 0 <= i && i + 1 < regions.len() ==> (#[trigger] regions[i]).end <= regions[i + 1].start
}

/// Hands out unused physical frames from the usable regions of the boot
/// memory map, in address order, never reclaiming any.
pub struct BootInfoFrameAllocator {
    frames: Vec<u64>,
    next: usize,
}

impl BootInfoFrameAllocator {
    /// All usable frame base addresses, in the order they are handed out.
    pub closed spec fn usable_frames(self) -> Seq<u64> {
        self.frames@
    }

    /// How many frames have been handed out so far.
    pub closed spec fn handed_out(self) -> int {
        self.next as int
    }

    /// The frames that can still be handed out, next one first.
    pub open spec fn remaining_frames(self) -> Seq<u64> {
        self.usable_frames().skip(self.handed_out())
    }

    /// Internal invariant: the cursor is in range and the flattened frame
    /// list is aligned, bounded and free of duplicates.
    pub closed spec fn inv(self) -> bool {
        &&& self.next <= self.frames.len()
        &&& forall|i: int| 0 <= i < self.frames@.len()
                ==> (#[trigger] self.frames@[i]) % PAGE_SIZE == 0
        &&& forall|i: int| 0 <= i < self.frames@.len()
                ==> (#[trigger] self.frames@[i]) + PAGE_SIZE <= MAX_PHYS_ADDR
        &&& forall|i: int, j: int| 0 <= i < j < self.frames@.len()
                ==> self.frames@[i] != self.frames@[j]
    }

    /// Flattens the usable regions of the boot memory map into the frame
    /// list.  The map must satisfy what the boot hand-off guarantees.
    pub fn init(regions: &Vec<MemoryRegion>) -> (r: Self)
        requires
            regions_wf(regions@),
        ensures
            r.inv(),
            r.usable_frames() == all_frames(regions@),
            r.handed_out() == 0,
    {
        let mut frames: Vec<u64> = Vec::new();
        let mut ri: usize = 0;
        while ri < regions.len()
            invariant
                ri <= regions.len(),
                regions_wf(regions@),
                frames@ == all_frames(regions@.take(ri as int)),
            decreases regions.len() - ri,
        {
            let region = regions[ri];
            if region.usable {
                let q: u64 = region.start / PAGE_SIZE;
                let first: u64 = if region.start % PAGE_SIZE == 0 { q } else { q + 1 };
                let end_idx: u64 = region.end / PAGE_SIZE;
                proof {
                    lemma_div_is_ordered(region.start as int, MAX_PHYS_ADDR as int, PAGE_SIZE as int);
                    lemma_div_is_ordered(region.end as int, MAX_PHYS_ADDR as int, PAGE_SIZE as int);
                    assert(first == first_frame_index(region));
                    assert(end_idx == end_frame_index(region));
                }
                let mut idx: u64 = first;
                while idx < end_idx
                    invariant
                        first <= idx,
                        idx <= end_idx || idx == first,
                        first == first_frame_index(region),
                        end_idx == end_frame_index(region),
                        end_idx <= MAX_PHYS_ADDR / PAGE_SIZE,
                        region.usable,
                        frames@ == all_frames(regions@.take(ri as int))
                            + region_frames(region).take(idx - first),
                    decreases end_idx - idx,
                {
                    proof {
                        lemma_mul_inequality(idx + 1, end_idx as int, PAGE_SIZE as int);
                        lemma_mul_is_distributive_add_other_way(PAGE_SIZE as int, idx as int, 1);
                        lemma_mul_inequality(end_idx as int, (MAX_PHYS_ADDR / PAGE_SIZE) as int, PAGE_SIZE as int);
                        assert((MAX_PHYS_ADDR / PAGE_SIZE) * PAGE_SIZE <= MAX_PHYS_ADDR as int) by {
                            lemma_fundamental_div_mod(MAX_PHYS_ADDR as int, PAGE_SIZE as int);
                        };
                    }
                    frames.push(idx * PAGE_SIZE);
                    proof {
                        assert(region_frames(region).take(idx + 1 - first)
                            =~= region_frames(region).take(idx - first).push((idx * PAGE_SIZE) as u64));
                        assert(frames@ == all_frames(regions@.take(ri as int))
                            + region_frames(region).take(idx + 1 - first));
                    }
                    idx = idx + 1;
                }
                proof {
                    assert(region_frames(region).take(region_frames(region).len() as int)
                        =~= region_frames(region));
                }
            }
            proof {
                lemma_all_frames_take_step(regions@, ri as int);
                if !region.usable {
                    assert(frames@ == all_frames(regions@.take(ri as int)) + region_frames(region));
                }
            }
            ri = ri + 1;
        }
        proof {
            assert(regions@.take(regions@.len() as int) =~= regions@);
            lemma_all_frames_increasing(regions@);
            if regions@.len() > 0 {
                assert(regions@[regions@.len() - 1].end <= MAX_PHYS_ADDR);
                assert(regions@.last() == regions@[regions@.len() - 1]);
            }
        }
        BootInfoFrameAllocator { frames, next: 0 }
    }

    /// Returns the next unused frame, or `None` once the usable regions
    /// are exhausted.  Frames are never handed out twice.
    pub fn allocate_frame(&mut self) -> (r: Option<u64>)
        requires
            old(self).inv(),
        ensures
            final(self).inv(),
            final(self).usable_frames() == old(self).usable_frames(),
            old(self).handed_out() < old(self).usable_frames().len() ==> {
                &&& r == Some(old(self).usable_frames()[old(self).handed_out()])
                &&& final(self).handed_out() == old(self).handed_out() + 1
            },
            old(self).handed_out() >= old(self).usable_frames().len() ==> {
                &&& r is None
                &&& final(self).handed_out() == old(self).handed_out()
            },
    {
        if self.next < self.frames.len() {
            let f = self.frames[self.next];
            self.next = self.next + 1;
            Some(f)
        } else {
            None
        }
    }

    /// The cursor never runs past the end of the frame list, so the
    /// remaining frames are a well-defined suffix.
    pub proof fn lemma_cursor_in_range(self)
        requires
            self.inv(),
        ensures
            0 <= self.handed_out() <= self.usable_frames().len(),
    {
    }

    /// The remaining frames are exactly the usable frames past the
    /// cursor.
    pub proof fn lemma_remaining_len(self)
        requires
            self.inv(),
        ensures
            self.remaining_frames().len() == self.usable_frames().len() - self.handed_out(),
    {
    }

    /// Every frame the allocator can hand out is 4 KiB-aligned and lies
    /// wholly below the physical address limit.
    pub proof fn lemma_frames_aligned_and_bounded(self)
        requires
            self.inv(),
        ensures
            forall|i: int| 0 <= i < self.usable_frames().len()
                ==> (#[trigger] self.usable_frames()[i]) % PAGE_SIZE == 0,
            forall|i: int| 0 <= i < self.usable_frames().len()
                ==> (#[trigger] self.usable_frames()[i]) + PAGE_SIZE <= MAX_PHYS_ADDR,
    {
    }

    /// Law: over any sequence of `allocate_frame` calls the results are
    /// pairwise distinct, because successive calls return entries of
    /// `usable_frames()` at strictly increasing positions and those
    /// entries never repeat.  Exhaustion returns `None` by the contract
    /// of `allocate_frame`.
    pub proof fn lemma_frames_distinct(self)
        requires
            self.inv(),
        ensures
            forall|i: int, j: int| 0 <= i < j < self.usable_frames().len()
                ==> self.usable_frames()[i] != self.usable_frames()[j],
    {
    }
}

/// Appending one region to a prefix of the memory map appends exactly
/// that region's frames.
proof fn lemma_all_frames_take_step(regions: Seq<MemoryRegion>, k: int)
    requires
        0 <= k < regions.len(),
    ensures
        all_frames(regions.take(k + 1)) == all_frames(regions.take(k)) + region_frames(regions[k]),
{
    assert(regions.take(k + 1).drop_last() =~= regions.take(k));
    assert(regions.take(k + 1).last() == regions[k]);
}

/// In a well-formed memory map the flattened frame list is strictly
/// increasing, and every frame ends at or before the end of the last
/// region.
proof fn lemma_all_frames_increasing(regions: Seq<MemoryRegion>)
    requires
        regions_wf(regions),
    ensures
        forall|i: int, j: int| 0 <= i < j < all_frames(regions).len()
            ==> all_frames(regions)[i] < all_frames(regions)[j],
        regions.len() > 0 ==> forall|i: int| 0 <= i < all_frames(regions).len()
            ==> (#[trigger] all_frames(regions)[i]) + PAGE_SIZE <= regions.last().end,
        forall|i: int| 0 <= i < all_frames(regions).len()
            ==> (#[trigger] all_frames(regions)[i]) % PAGE_SIZE == 0,
    decreases regions.len(),
{
    if regions.len() == 0 {
    } else {
        let prefix = regions.drop_last();
        let r = regions.last();
        assert forall|i: int| 0 <= i < prefix.len() implies
            (#[trigger] prefix[i]).start <= prefix[i].end && prefix[i].end <= MAX_PHYS_ADDR by {
            assert(prefix[i] == regions[i]);
        }
        assert forall|i: int| 0 <= i && i + 1 < prefix.len() implies
            (#[trigger] prefix[i]).end <= prefix[i + 1].start by {
            assert(prefix[i] == regions[i]);
            assert(prefix[i + 1] == regions[i + 1]);
        }
        assert(regions_wf(prefix));
        lemma_all_frames_increasing(prefix);
        let rf = region_frames(r);
        // Frames of the last region are strictly increasing and bounded.
        assert forall|i: int| 0 <= i < rf.len() implies
            r.start <= #[trigger] rf[i] && rf[i] + PAGE_SIZE <= r.end by {
            lemma_region_frame_bounds(r, i);
        }
        assert forall|i: int, j: int| 0 <= i < j < rf.len() implies rf[i] < rf[j] by {
            lemma_mul_strict_inequality(
                first_frame_index(r) + i,
                first_frame_index(r) + j,
                PAGE_SIZE as int,
            );
        }
        assert forall|i: int| 0 <= i < rf.len() implies (#[trigger] rf[i]) % PAGE_SIZE == 0 by {
            lemma_mod_multiples_basic(first_frame_index(r) + i, PAGE_SIZE as int);
        }
        // Frames of the prefix end at or before the start of the last region.
        if prefix.len() > 0 {
            assert(prefix.last() == regions[regions.len() - 2]);
            assert(prefix.last().end <= r.start);
        }
        assert(all_frames(regions) == all_frames(prefix) + rf);
    }
}

/// Each frame of a region lies wholly inside it.
proof fn lemma_region_frame_bounds(r: MemoryRegion, i: int)
    requires
        r.start <= r.end,
        r.usable,
        0 <= i < region_frames(r).len(),
    ensures
        r.start <= region_frames(r)[i],
        region_frames(r)[i] + PAGE_SIZE <= r.end,
{
    let fi = first_frame_index(r) + i;
    lemma_fundamental_div_mod(r.start as int, PAGE_SIZE as int);
    lemma_fundamental_div_mod(r.end as int, PAGE_SIZE as int);
    lemma_mod_bound(r.start as int, PAGE_SIZE as int);
    lemma_mod_bound(r.end as int, PAGE_SIZE as int);
    // first_frame_index * PAGE_SIZE >= r.start
    lemma_mul_inequality(first_frame_index(r), fi, PAGE_SIZE as int);
    lemma_mul_is_distributive_add_other_way(PAGE_SIZE as int, r.start as int / PAGE_SIZE as int, 1);
    // (fi + 1) * PAGE_SIZE <= end_frame_index * PAGE_SIZE <= r.end
    lemma_mul_inequality(fi + 1, end_frame_index(r), PAGE_SIZE as int);
    lemma_mul_is_distributive_add_other_way(PAGE_SIZE as int, fi, 1);
    assert(region_frames(r)[i] == fi * PAGE_SIZE);
}

} // verus!
