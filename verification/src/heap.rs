//! Heap bootstrap and the kernel's dynamic allocator.
//!
//! `init_heap` maps the fixed virtual heap region page by page, taking
//! backing frames from the frame allocator, and hands back a `KernelHeap`
//! managing exactly that range.  The allocator is a first-fit free list:
//! simultaneously-live allocations are pairwise disjoint and stay inside
//! the heap region, whatever sequence of allocations and deallocations
//! runs.

use vstd::prelude::*;
use crate::frame_alloc::BootInfoFrameAllocator;
use crate::frame_alloc::PAGE_SIZE;
use crate::paging::fresh_frames_ok;
use crate::paging::lemma_page_offset_same_page;
use crate::paging::lemma_same_page_range;
use crate::paging::same_page;
use crate::paging::MapError;
use crate::paging::Mapper;

verus! {

/// Base virtual address of the kernel heap.
pub const HEAP_START: u64 = 0x4444_4444_0000;

/// Size in bytes of the kernel heap; fixed at boot, never grown.
pub const HEAP_SIZE: u64 = 100 * 1024;

/// The two byte ranges do not overlap.
pub open spec fn range_disjoint(a: (u64, u64), b: (u64, u64)) -> bool {
    a.0 + a.1 <= b.0 || b.0 + b.1 <= a.0
}

/// The index of the live range starting at `addr`, if any.
pub open spec fn live_index(live: Seq<(u64, u64)>, addr: u64) -> Option<int> {
    if exists|j: int| 0 <= j < live.len() && live[j].0 == addr {
        Some(choose|j: int| 0 <= j < live.len() && live[j].0 == addr)
    } else {
        None
    }
}

/// A first-fit free-list allocator over one contiguous virtual range.
pub struct KernelHeap {
    start: u64,
    size: u64,
    free_list: Vec<(u64, u64)>,
    live: Vec<(u64, u64)>,
}

impl KernelHeap {
    /// Base of the managed range.
    pub closed spec fn heap_start(self) -> u64 {
        self.start
    }

    /// Length of the managed range.
    pub closed spec fn heap_size(self) -> u64 {
        self.size
    }

    /// The currently-live allocations as (base, length) pairs, in
    /// allocation order.
    pub closed spec fn live_ranges(self) -> Seq<(u64, u64)> {
        self.live@
    }

    /// The free ranges the allocator can still carve from.
    pub closed spec fn free_ranges(self) -> Seq<(u64, u64)> {
        self.free_list@
    }

    /// One range lies inside the managed region and is non-empty.
    pub open spec fn range_ok(self, r: (u64, u64)) -> bool {
        &&& r.1 > 0
        &&& self.heap_start() <= r.0
        &&& r.0 + r.1 <= self.heap_start() + self.heap_size()
    }

    /// Internal invariant: every tracked range is a valid sub-range of
    /// the heap, and all tracked ranges (free and live alike) are
    /// pairwise disjoint.
    pub closed spec fn wf(self) -> bool {
        &&& self.start + self.size <= u64::MAX
        &&& forall|i: int| 0 <= i < self.free_list@.len()
                ==> self.range_ok(#[trigger] self.free_list@[i])
        &&& forall|i: int| 0 <= i < self.live@.len()
                ==> self.range_ok(#[trigger] self.live@[i])
        &&& forall|i: int, j: int| 0 <= i < j < self.free_list@.len()
                ==> range_disjoint(self.free_list@[i], self.free_list@[j])
        &&& forall|i: int, j: int| 0 <= i < j < self.live@.len()
                ==> range_disjoint(self.live@[i], self.live@[j])
        &&& forall|i: int, j: int|
                0 <= i < self.free_list@.len() && 0 <= j < self.live@.len()
                    ==> range_disjoint(self.free_list@[i], self.live@[j])
    }

    /// A heap managing `[start, start + size)` with nothing allocated.
    pub fn new(start: u64, size: u64) -> (h: Self)
        requires
            size > 0,
            start + size <= u64::MAX,
        ensures
            h.wf(),
            h.heap_start() == start,
            h.heap_size() == size,
            h.live_ranges() == Seq::<(u64, u64)>::empty(),
    {
        let mut free_list: Vec<(u64, u64)> = Vec::new();
        free_list.push((start, size));
        let h = KernelHeap { start, size, free_list, live: Vec::new() };
        proof {
            assert(h.live_ranges() =~= Seq::<(u64, u64)>::empty());
        }
        h
    }

    /// Carves `n` bytes out of the first free range that fits.  The
    /// returned range lies inside the heap and is disjoint from every
    /// allocation that is still live; `None` comes exactly when no free
    /// range is large enough.
    pub fn allocate(&mut self, n: u64) -> (r: Option<u64>)
        requires
            old(self).wf(),
            n > 0,
        ensures
            final(self).wf(),
            final(self).heap_start() == old(self).heap_start(),
            final(self).heap_size() == old(self).heap_size(),
            r matches Some(a) ==> {
                &&& final(self).live_ranges() == old(self).live_ranges().push((a, n))
                &&& old(self).heap_start() <= a
                &&& a + n <= old(self).heap_start() + old(self).heap_size()
                &&& forall|i: int| 0 <= i < old(self).live_ranges().len()
                        ==> range_disjoint((a, n), #[trigger] old(self).live_ranges()[i])
            },
            r is None <==> forall|i: int| 0 <= i < old(self).free_ranges().len()
                ==> (#[trigger] old(self).free_ranges()[i]).1 < n,
            r is None ==> *final(self) == *old(self),
    {
        let mut i: usize = 0;
        while i < self.free_list.len()
            invariant
                i <= self.free_list@.len(),
                self.wf(),
                *self == *old(self),
                n > 0,
                forall|j: int| 0 <= j < i ==> (#[trigger] self.free_list@[j]).1 < n,
            decreases self.free_list@.len() - i,
        {
            let (base, len) = self.free_list[i];
            if len >= n {
                let ghost f0 = self.free_list@;
                let ghost l0 = self.live@;
                if len == n {
                    self.free_list.remove(i);
                } else {
                    self.free_list.set(i, (base + n, len - n));
                }
                self.live.push((base, n));
                proof {
                    let fi = i as int;
                    // The new live range and (when split) the shrunk free
                    // range are sub-ranges of the old free range, so all
                    // old disjointness carries over.
                    assert forall|a: int| 0 <= a < self.free_list@.len() implies
                        self.range_ok(#[trigger] self.free_list@[a]) by {
                        if len == n {
                            if a < fi {
                                assert(self.free_list@[a] == f0[a]);
                            } else {
                                assert(self.free_list@[a] == f0[a + 1]);
                            }
                        } else {
                            if a != fi {
                                assert(self.free_list@[a] == f0[a]);
                            }
                        }
                    }
                    assert forall|a: int, b: int| 0 <= a < b < self.free_list@.len() implies
                        range_disjoint(self.free_list@[a], self.free_list@[b]) by {
                        if len == n {
                            lemma_remove_pair(f0, fi, a, b);
                        } else {
                            if a != fi && b != fi {
                                assert(self.free_list@[a] == f0[a]);
                                assert(self.free_list@[b] == f0[b]);
                            } else if a == fi {
                                assert(self.free_list@[b] == f0[b]);
                                assert(range_disjoint(f0[a], f0[b]));
                            } else {
                                assert(self.free_list@[a] == f0[a]);
                                assert(range_disjoint(f0[a], f0[b]));
                            }
                        }
                    }
                    assert forall|a: int| 0 <= a < self.live@.len() implies
                        self.range_ok(#[trigger] self.live@[a]) by {
                        if a < l0.len() {
                            assert(self.live@[a] == l0[a]);
                        }
                    }
                    assert forall|a: int, b: int| 0 <= a < b < self.live@.len() implies
                        range_disjoint(self.live@[a], self.live@[b]) by {
                        if b == l0.len() {
                            assert(self.live@[a] == l0[a]);
                            assert(range_disjoint(f0[fi], l0[a]));
                        } else {
                            assert(self.live@[a] == l0[a]);
                            assert(self.live@[b] == l0[b]);
                        }
                    }
                    assert forall|a: int, b: int|
                        0 <= a < self.free_list@.len() && 0 <= b < self.live@.len() implies
                        range_disjoint(self.free_list@[a], self.live@[b]) by {
                        let fa = self.free_list@[a];
                        // Map the new free entry back to an old one (the
                        // shrunk entry maps to the range it was cut from).
                        let ax: int = if len == n {
                            if a < fi {
                                a
                            } else {
                                a + 1
                            }
                        } else {
                            a
                        };
                        if len != n && a == fi {
                            assert(fa == (((base + n) as u64, (len - n) as u64)));
                        } else {
                            assert(fa == f0[ax]);
                        }
                        if b == l0.len() {
                            // New live range (base, n), a sub-range of f0[fi].
                            if len != n && a == fi {
                                assert(range_disjoint(fa, (base, n)));
                            } else {
                                if ax < fi {
                                    lemma_sub_range_disjoint(f0[fi], (base, n), f0[ax]);
                                } else {
                                    assert(ax > fi);
                                    lemma_sub_range_disjoint(f0[fi], (base, n), f0[ax]);
                                }
                            }
                        } else {
                            assert(self.live@[b] == l0[b]);
                            if len != n && a == fi {
                                lemma_sub_range_disjoint(f0[fi], fa, l0[b]);
                            } else {
                                assert(range_disjoint(f0[ax], l0[b]));
                            }
                        }
                    }
                    assert(self.live@ =~= l0.push((base, n)));
                    assert forall|j: int| 0 <= j < l0.len() implies
                        range_disjoint((base, n), #[trigger] l0[j]) by {
                        lemma_sub_range_disjoint(f0[fi], (base, n), l0[j]);
                    }
                    assert(old(self).free_ranges()[fi].1 >= n);
                }
                return Some(base);
            }
            i = i + 1;
        }
        None
    }

    /// Returns the live allocation starting at `addr` to the free list.
    /// True exactly when such an allocation exists; an unknown address
    /// frees nothing.
    pub fn deallocate(&mut self, addr: u64) -> (r: bool)
        requires
            old(self).wf(),
        ensures
            final(self).wf(),
            final(self).heap_start() == old(self).heap_start(),
            final(self).heap_size() == old(self).heap_size(),
            r == (live_index(old(self).live_ranges(), addr) is Some),
            r ==> final(self).live_ranges() == old(self).live_ranges().remove(
                live_index(old(self).live_ranges(), addr)->Some_0,
            ),
            !r ==> *final(self) == *old(self),
    {
        let mut i: usize = 0;
        while i < self.live.len()
            invariant
                i <= self.live@.len(),
                self.wf(),
                *self == *old(self),
                forall|j: int| 0 <= j < i ==> (#[trigger] self.live@[j]).0 != addr,
            decreases self.live@.len() - i,
        {
            let (base, len) = self.live[i];
            if base == addr {
                let ghost f0 = self.free_list@;
                let ghost l0 = self.live@;
                proof {
                    lemma_live_bases_unique(*self, i as int);
                }
                self.live.remove(i);
                self.free_list.push((base, len));
                proof {
                    let li = i as int;
                    assert(self.live@ =~= l0.remove(li));
                    assert forall|a: int| 0 <= a < self.live@.len() implies
                        self.range_ok(#[trigger] self.live@[a]) by {
                        if a < li {
                            assert(self.live@[a] == l0[a]);
                        } else {
                            assert(self.live@[a] == l0[a + 1]);
                        }
                    }
                    assert forall|a: int, b: int| 0 <= a < b < self.live@.len() implies
                        range_disjoint(self.live@[a], self.live@[b]) by {
                        lemma_remove_pair(l0, li, a, b);
                    }
                    assert forall|a: int| 0 <= a < self.free_list@.len() implies
                        self.range_ok(#[trigger] self.free_list@[a]) by {
                        if a < f0.len() {
                            assert(self.free_list@[a] == f0[a]);
                        } else {
                            assert(self.free_list@[a] == l0[li]);
                        }
                    }
                    assert forall|a: int, b: int| 0 <= a < b < self.free_list@.len() implies
                        range_disjoint(self.free_list@[a], self.free_list@[b]) by {
                        if b == f0.len() {
                            assert(self.free_list@[a] == f0[a]);
                            assert(range_disjoint(f0[a], l0[li]));
                        } else {
                            assert(self.free_list@[a] == f0[a]);
                            assert(self.free_list@[b] == f0[b]);
                        }
                    }
                    assert forall|a: int, b: int|
                        0 <= a < self.free_list@.len() && 0 <= b < self.live@.len() implies
                        range_disjoint(self.free_list@[a], self.live@[b]) by {
                        let lb = self.live@[b];
                        if b < li {
                            assert(lb == l0[b]);
                        } else {
                            assert(lb == l0[b + 1]);
                        }
                        if a == f0.len() {
                            if b < li {
                                assert(range_disjoint(l0[b], l0[li]) || range_disjoint(
                                    l0[li],
                                    l0[b],
                                ));
                            } else {
                                assert(range_disjoint(l0[li], l0[b + 1]));
                            }
                        } else {
                            assert(self.free_list@[a] == f0[a]);
                        }
                    }
                }
                return true;
            }
            i = i + 1;
        }
        proof {
            if exists|j: int| 0 <= j < self.live@.len() && self.live@[j].0 == addr {
                let j = choose|j: int| 0 <= j < self.live@.len() && self.live@[j].0 == addr;
                assert(false);
            }
        }
        false
    }

    /// Law: at every moment, any two distinct live allocations occupy
    /// disjoint byte ranges inside the heap — no sequence of
    /// allocations and deallocations can make live allocations overlap.
    pub proof fn lemma_live_allocations_disjoint(self, i: int, j: int)
        requires
            self.wf(),
            0 <= i < self.live_ranges().len(),
            0 <= j < self.live_ranges().len(),
            i != j,
        ensures
            range_disjoint(self.live_ranges()[i], self.live_ranges()[j]),
            self.range_ok(self.live_ranges()[i]),
    {
        if i < j {
            assert(range_disjoint(self.live@[i], self.live@[j]));
        } else {
            assert(range_disjoint(self.live@[j], self.live@[i]));
        }
    }
}

/// Live ranges have distinct bases: equal bases of non-empty disjoint
/// ranges are impossible.
proof fn lemma_live_bases_unique(h: KernelHeap, i: int)
    requires
        h.wf(),
        0 <= i < h.live_ranges().len(),
    ensures
        forall|j: int| 0 <= j < h.live_ranges().len() && j != i
            ==> (#[trigger] h.live_ranges()[j]).0 != h.live_ranges()[i].0,
{
    assert forall|j: int| 0 <= j < h.live_ranges().len() && j != i implies
        (#[trigger] h.live_ranges()[j]).0 != h.live_ranges()[i].0 by {
        if j < i {
            assert(range_disjoint(h.live_ranges()[j], h.live_ranges()[i]));
        } else {
            assert(range_disjoint(h.live_ranges()[i], h.live_ranges()[j]));
        }
    }
}

/// A sub-range of a range is disjoint from whatever that range is
/// disjoint from.
proof fn lemma_sub_range_disjoint(outer: (u64, u64), inner: (u64, u64), other: (u64, u64))
    requires
        outer.0 <= inner.0,
        inner.0 + inner.1 <= outer.0 + outer.1,
        range_disjoint(outer, other) || range_disjoint(other, outer),
    ensures
        range_disjoint(inner, other),
        range_disjoint(other, inner),
{
}

/// Removing one element keeps every remaining pair disjoint.
proof fn lemma_remove_pair(s: Seq<(u64, u64)>, r: int, a: int, b: int)
    requires
        0 <= r < s.len(),
        0 <= a < b < s.len() - 1,
        forall|i: int, j: int| 0 <= i < j < s.len() ==> range_disjoint(s[i], s[j]),
    ensures
        range_disjoint(s.remove(r)[a], s.remove(r)[b]),
{
    let t = s.remove(r);
    if a < r {
        assert(t[a] == s[a]);
    } else {
        assert(t[a] == s[a + 1]);
    }
    if b < r {
        assert(t[b] == s[b]);
    } else {
        assert(t[b] == s[b + 1]);
    }
}

/// Maps the whole heap region and hands back its allocator.  Each page
/// gets a fresh frame; a mapping conflict or frame exhaustion aborts
/// without rolling back pages already mapped (a boot-fatal condition for
/// the caller).  Given an unmapped region and at least four frames per
/// page (one backing frame and at most three tables), success is
/// guaranteed.
pub fn init_heap(mapper: &mut Mapper, frame_allocator: &mut BootInfoFrameAllocator) -> (r:
    Result<KernelHeap, MapError>)
    requires
        old(mapper).wf(),
        old(mapper).no_huge(),
        old(frame_allocator).inv(),
        fresh_frames_ok(*old(mapper), *old(frame_allocator)),
    ensures
        final(mapper).wf(),
        final(mapper).no_huge(),
        final(frame_allocator).inv(),
        fresh_frames_ok(*final(mapper), *final(frame_allocator)),
        final(frame_allocator).usable_frames() == old(frame_allocator).usable_frames(),
        r matches Ok(h) ==> {
            &&& h.wf()
            &&& h.heap_start() == HEAP_START
            &&& h.heap_size() == HEAP_SIZE
            &&& h.live_ranges() == Seq::<(u64, u64)>::empty()
            &&& forall|va: u64| HEAP_START <= va < HEAP_START + HEAP_SIZE
                    ==> #[trigger] final(mapper).resolve(va) is Some
        },
        (forall|va: u64| HEAP_START <= va < HEAP_START + HEAP_SIZE
            ==> #[trigger] old(mapper).resolve(va) is None)
            && old(frame_allocator).remaining_frames().len() >= 100 ==> r is Ok,
        r == Err::<KernelHeap, MapError>(MapError::PageAlreadyMapped)
            ==> exists|va: u64| HEAP_START <= va < HEAP_START + HEAP_SIZE
                && #[trigger] old(mapper).resolve(va) is Some,
{
    let ghost m0 = *old(mapper);
    let ghost a0 = *old(frame_allocator);
    let ghost owed = (forall|va: u64| HEAP_START <= va < HEAP_START + HEAP_SIZE
        ==> #[trigger] m0.resolve(va) is None) && a0.remaining_frames().len() >= 100;
    proof {
        a0.lemma_cursor_in_range();
        a0.lemma_remaining_len();
    }
    let mut page_i: u64 = 0;
    while page_i < 25
        invariant
            page_i <= 25,
            a0 == *old(frame_allocator),
            m0 == *old(mapper),
            a0.inv(),
            mapper.wf(),
            mapper.no_huge(),
            frame_allocator.inv(),
            fresh_frames_ok(*mapper, *frame_allocator),
            frame_allocator.usable_frames() == a0.usable_frames(),
            frame_allocator.handed_out() <= a0.handed_out() + 4 * page_i,
            owed == ((forall|va: u64| HEAP_START <= va < HEAP_START + HEAP_SIZE
                ==> #[trigger] m0.resolve(va) is None) && a0.remaining_frames().len() >= 100),
            forall|va: u64| va < 0x1_0000_0000_0000
                && !(HEAP_START <= va < HEAP_START + page_i * PAGE_SIZE)
                ==> #[trigger] mapper.resolve(va) == m0.resolve(va),
            forall|va: u64| HEAP_START <= va < HEAP_START + page_i * PAGE_SIZE
                ==> #[trigger] mapper.resolve(va) is Some,
        decreases 25 - page_i,
    {
        let va: u64 = HEAP_START + page_i * PAGE_SIZE;
        proof {
            a0.lemma_cursor_in_range();
            a0.lemma_remaining_len();
            frame_allocator.lemma_cursor_in_range();
            frame_allocator.lemma_remaining_len();
            if owed {
                assert(frame_allocator.remaining_frames().len() > 0);
            }
        }
        let ghost a_pre = *frame_allocator;
        let frame = match frame_allocator.allocate_frame() {
            Some(f) => f,
            None => {
                proof {
                    assert(!owed);
                }
                return Err(MapError::FrameAllocationFailed);
            },
        };
        proof {
            a_pre.lemma_frames_aligned_and_bounded();
            a_pre.lemma_cursor_in_range();
            frame_allocator.lemma_cursor_in_range();
            frame_allocator.lemma_remaining_len();
            // Handing one frame out only shrinks the remaining list.
            assert forall|i: int| 0 <= i < frame_allocator.remaining_frames().len() implies
                !mapper.table_frames().contains(
                    #[trigger] frame_allocator.remaining_frames()[i],
                ) by {
                assert(frame_allocator.remaining_frames()[i] == a_pre.remaining_frames()[i + 1]);
            }
            mapper.lemma_missing_tables_bound(va);
            if owed {
                assert(mapper.resolve(va) == m0.resolve(va));
                assert(mapper.resolve(va) is None);
                assert(frame_allocator.remaining_frames().len() >= 3);
            }
        }
        let ghost m_pre = *mapper;
        match mapper.map_page(va, frame, true, frame_allocator) {
            Ok(()) => {},
            Err(e) => {
                proof {
                    assert(!owed);
                    if e == MapError::PageAlreadyMapped {
                        assert(m_pre.resolve(va) is Some);
                        assert(m0.resolve(va) is Some);
                        assert(HEAP_START <= va < HEAP_START + HEAP_SIZE);
                    }
                }
                return Err(e);
            },
        }
        proof {
            assert forall|va2: u64| va2 < 0x1_0000_0000_0000
                && !(HEAP_START <= va2 < HEAP_START + (page_i + 1) * PAGE_SIZE) implies
                #[trigger] mapper.resolve(va2) == m0.resolve(va2) by {
                if same_page(va2, va) {
                    lemma_same_page_range(va2, va);
                    assert(false);
                }
                assert(mapper.resolve(va2) == m_pre.resolve(va2));
            }
            assert forall|va2: u64| HEAP_START <= va2 < HEAP_START + (page_i + 1) * PAGE_SIZE
                implies #[trigger] mapper.resolve(va2) is Some by {
                if va2 < HEAP_START + page_i * PAGE_SIZE {
                    if same_page(va2, va) {
                        assert(mapper.resolve(va2) is Some);
                    } else {
                        assert(mapper.resolve(va2) == m_pre.resolve(va2));
                    }
                } else {
                    let off = (va2 - va) as u64;
                    lemma_page_offset_same_page(va, off);
                    assert(same_page(va2, va));
                    assert(mapper.resolve(va2) is Some);
                }
            }
        }
        page_i = page_i + 1;
    }
    proof {
        assert forall|va: u64| HEAP_START <= va < HEAP_START + HEAP_SIZE implies
            #[trigger] mapper.resolve(va) is Some by {
            assert(va < HEAP_START + 25 * PAGE_SIZE);
        }
    }
    Ok(KernelHeap::new(HEAP_START, HEAP_SIZE))
}

} // verus!
