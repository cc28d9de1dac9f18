//! The four-level page-table walker and mapper.
//!
//! A `Mapper` models the radix tree the MMU interprets: a set of 512-entry
//! tables, each identified by the physical frame it occupies, rooted at the
//! level-4 table.  An entry encodes a frame base address plus flag bits
//! (present, writable, huge).  `translate_addr` walks the tree exactly as
//! the hardware does; `map_page` installs a 4 KiB mapping, creating any
//! missing intermediate tables from the frame allocator.
//!
//! The kernel that runs this model reads and writes the real tables through
//! the boot-time physical-memory offset; that raw access is the thin layer
//! kept outside this crate.

use vstd::prelude::*;
use vstd::arithmetic::div_mod::*;
use crate::frame_alloc::BootInfoFrameAllocator;
use crate::frame_alloc::PAGE_SIZE;
use crate::frame_alloc::MAX_PHYS_ADDR;

verus! {

/// Entries per table: the 9-bit index space of each level.
pub const ENTRY_COUNT: usize = 512;

/// Bytes spanned by one level-2 entry (a 2 MiB huge page).
pub const L2_SPAN: u64 = 0x20_0000;

/// Bytes spanned by one level-3 entry (a 1 GiB huge page).
pub const L3_SPAN: u64 = 0x4000_0000;

/// Bytes spanned by one level-4 entry (512 GiB).
pub const L4_SPAN: u64 = 0x80_0000_0000;

/// Why installing a mapping can fail.
#[derive(Clone, Copy, Debug, PartialEq, Eq, Structural)]
pub enum MapError {
    /// The frame allocator ran out while a missing intermediate table
    /// was needed.
    FrameAllocationFailed,
    /// The target level-1 slot already holds a mapping; overwriting
    /// silently is never allowed.
    PageAlreadyMapped,
}

// ---------------------------------------------------------------------
// Entry encoding: a 64-bit value holding a frame address plus flag bits.
// Bit 0 is `present`, bit 1 is `writable`, bit 7 marks a huge page, and
// bits 12 and up hold the frame base address.
// ---------------------------------------------------------------------

pub open spec fn entry_present(e: u64) -> bool {
    e % 2 == 1
}

pub open spec fn entry_writable(e: u64) -> bool {
    e % 4 >= 2
}

pub open spec fn entry_huge(e: u64) -> bool {
    e % 256 >= 128
}

pub open spec fn entry_addr(e: u64) -> u64 {
    ((e as int / 4096) * 4096) as u64
}

fn is_present(e: u64) -> (r: bool)
    ensures
        r == entry_present(e),
{
    e % 2 == 1
}

fn is_huge(e: u64) -> (r: bool)
    ensures
        r == entry_huge(e),
{
    e % 256 >= 128
}

fn addr_of(e: u64) -> (r: u64)
    ensures
        r == entry_addr(e),
{
    e / 4096 * 4096
}

/// Builds a present, non-huge entry for the given frame.
fn make_entry(addr: u64, writable: bool) -> (e: u64)
    requires
        addr % PAGE_SIZE == 0,
        addr + PAGE_SIZE <= MAX_PHYS_ADDR,
    ensures
        entry_present(e),
        !entry_huge(e),
        entry_writable(e) == writable,
        entry_addr(e) == addr,
{
    let flags: u64 = if writable { 3 } else { 1 };
    proof {
        lemma_fundamental_div_mod(addr as int, 4096);
        let q = addr as int / 4096;
        lemma_fundamental_div_mod_converse(addr + flags, 4096, q, flags as int);
        lemma_fundamental_div_mod_converse(addr + flags, 2, 2048 * q + (flags as int / 2), flags as int % 2);
        lemma_fundamental_div_mod_converse(addr + flags, 4, 1024 * q, flags as int);
        lemma_fundamental_div_mod_converse(addr + flags, 256, 16 * q, flags as int);
    }
    addr + flags
}

// ---------------------------------------------------------------------
// The 9-bit index each level takes from a virtual address.
// ---------------------------------------------------------------------

pub open spec fn l1_index(va: u64) -> int {
    (va as int / PAGE_SIZE as int) % 512
}

pub open spec fn l2_index(va: u64) -> int {
    (va as int / L2_SPAN as int) % 512
}

pub open spec fn l3_index(va: u64) -> int {
    (va as int / L3_SPAN as int) % 512
}

pub open spec fn l4_index(va: u64) -> int {
    (va as int / L4_SPAN as int) % 512
}

/// Two virtual addresses that select the same slot at every level, and
/// so resolve through the same level-1 entry.
pub open spec fn same_page(va: u64, page: u64) -> bool {
    &&& l4_index(va) == l4_index(page)
    &&& l3_index(va) == l3_index(page)
    &&& l2_index(va) == l2_index(page)
    &&& l1_index(va) == l1_index(page)
}

fn l1_of(va: u64) -> (r: usize)
    ensures
        r as int == l1_index(va),
        r < 512,
{
    proof {
        lemma_mod_division_less_than_divisor(va as int / PAGE_SIZE as int, 512);
        lemma_mod_bound(va as int / PAGE_SIZE as int, 512);
    }
    ((va / PAGE_SIZE) % 512) as usize
}

fn l2_of(va: u64) -> (r: usize)
    ensures
        r as int == l2_index(va),
        r < 512,
{
    proof {
        lemma_mod_bound(va as int / L2_SPAN as int, 512);
    }
    ((va / L2_SPAN) % 512) as usize
}

fn l3_of(va: u64) -> (r: usize)
    ensures
        r as int == l3_index(va),
        r < 512,
{
    proof {
        lemma_mod_bound(va as int / L3_SPAN as int, 512);
    }
    ((va / L3_SPAN) % 512) as usize
}

fn l4_of(va: u64) -> (r: usize)
    ensures
        r as int == l4_index(va),
        r < 512,
{
    proof {
        lemma_mod_bound(va as int / L4_SPAN as int, 512);
    }
    ((va / L4_SPAN) % 512) as usize
}

// ---------------------------------------------------------------------
// The mapper.
// ---------------------------------------------------------------------

/// The set of page tables reachable from the level-4 root, each table
/// identified by the physical frame it occupies.  `tables[i]` holds the
/// 512 entries of the table in frame `frames[i]`, a table of level
/// `levels[i]`; index 0 is the root.
pub struct Mapper {
    tables: Vec<Vec<u64>>,
    levels: Vec<u8>,
    frames: Vec<u64>,
}

impl Mapper {
    /// Number of tables the tree holds.
    pub closed spec fn table_count(self) -> int {
        self.tables@.len() as int
    }

    /// The physical frames occupied by the tables themselves.
    pub closed spec fn table_frames(self) -> Seq<u64> {
        self.frames@
    }

    /// The raw entry in slot `k` of table `i`.
    pub closed spec fn entry_at(self, i: int, k: int) -> u64 {
        self.tables@[i]@[k]
    }

    /// The level (4 down to 1) of table `i`.
    pub closed spec fn level_of(self, i: int) -> int {
        self.levels@[i] as int
    }

    /// A slot whose entry must point at a lower-level table: it sits in
    /// a table of level 2 or higher, is present, and is not huge.
    pub closed spec fn is_parent_entry(self, i: int, k: int) -> bool {
        &&& 0 <= i < self.table_count()
        &&& 0 <= k < 512
        &&& self.level_of(i) >= 2
        &&& entry_present(self.entry_at(i, k))
        &&& !entry_huge(self.entry_at(i, k))
    }

    /// The index of the table occupying frame `a`, if any.
    pub closed spec fn table_with_frame(self, a: u64) -> Option<int> {
        if exists|j: int| 0 <= j < self.table_count() && self.table_frames()[j] == a {
            Some(choose|j: int| 0 <= j < self.table_count() && self.table_frames()[j] == a)
        } else {
            None
        }
    }

    /// Internal invariant: the tables form a well-founded tree.  Frames
    /// are aligned, bounded and distinct; the root has level 4; every
    /// parent entry points at exactly one table of the next level down;
    /// no entry points back at the root.
    pub closed spec fn wf(self) -> bool {
        &&& self.table_count() >= 1
        &&& self.frames@.len() == self.table_count()
        &&& self.levels@.len() == self.table_count()
        &&& self.level_of(0) == 4
        &&& forall|i: int| 0 <= i < self.table_count()
                ==> (#[trigger] self.tables@[i])@.len() == 512
        &&& forall|i: int| 0 <= i < self.table_count()
                ==> 1 <= #[trigger] self.level_of(i) <= 4
        &&& forall|i: int| 0 <= i < self.table_count()
                ==> (#[trigger] self.frames@[i]) % PAGE_SIZE == 0
        &&& forall|i: int| 0 <= i < self.table_count()
                ==> (#[trigger] self.frames@[i]) + PAGE_SIZE <= MAX_PHYS_ADDR
        &&& forall|i: int, j: int| 0 <= i < j < self.table_count()
                ==> self.frames@[i] != self.frames@[j]
        &&& forall|i: int, k: int| 0 <= i < self.table_count() && 0 <= k < 512
                ==> #[trigger] self.entry_at(i, k) < MAX_PHYS_ADDR
        &&& forall|i: int, k: int| #[trigger] self.is_parent_entry(i, k)
                ==> exists|j: int| 0 <= j < self.table_count()
                        && self.table_frames()[j] == entry_addr(#[trigger] self.entry_at(i, k))
                        && self.level_of(j) + 1 == self.level_of(i)
        &&& forall|i1: int, k1: int, i2: int, k2: int|
                #[trigger] self.is_parent_entry(i1, k1) && #[trigger] self.is_parent_entry(i2, k2)
                    && entry_addr(self.entry_at(i1, k1)) == entry_addr(self.entry_at(i2, k2))
                    ==> i1 == i2 && k1 == k2
        &&& forall|i: int, k: int| #[trigger] self.is_parent_entry(i, k)
                ==> entry_addr(self.entry_at(i, k)) != self.frames@[0]
    }

    /// No table anywhere holds a huge-page entry.  Mappings installed by
    /// `map_page` are always 4 KiB, so a mapper grown from `new` keeps
    /// this for its whole life.
    pub closed spec fn no_huge(self) -> bool {
        forall|i: int, k: int| 0 <= i < self.table_count() && 0 <= k < 512
            ==> !entry_huge(#[trigger] self.entry_at(i, k))
    }

    /// The mathematical meaning of the tree: what the hardware walk
    /// yields for `va`.  `None` when any level's entry is unused; a huge
    /// entry at level 3 or 2 short-circuits with the matching span.
    pub closed spec fn resolve(self, va: u64) -> Option<u64> {
        let e4 = self.entry_at(0, l4_index(va));
        if !entry_present(e4) || entry_huge(e4) {
            None
        } else {
            match self.table_with_frame(entry_addr(e4)) {
                None => None,
                Some(t3) => {
                    let e3 = self.entry_at(t3, l3_index(va));
                    if !entry_present(e3) {
                        None
                    } else if entry_huge(e3) {
                        Some((entry_addr(e3) + va as int % L3_SPAN as int) as u64)
                    } else {
                        match self.table_with_frame(entry_addr(e3)) {
                            None => None,
                            Some(t2) => {
                                let e2 = self.entry_at(t2, l2_index(va));
                                if !entry_present(e2) {
                                    None
                                } else if entry_huge(e2) {
                                    Some((entry_addr(e2) + va as int % L2_SPAN as int) as u64)
                                } else {
                                    match self.table_with_frame(entry_addr(e2)) {
                                        None => None,
                                        Some(t1) => {
                                            let e1 = self.entry_at(t1, l1_index(va));
                                            if entry_present(e1) {
                                                Some(
                                                    (entry_addr(e1)
                                                        + va as int % PAGE_SIZE as int) as u64,
                                                )
                                            } else {
                                                None
                                            }
                                        },
                                    }
                                }
                            },
                        }
                    }
                },
            }
        }
    }

    /// How many intermediate tables the walk to `va`'s level-1 slot
    /// still lacks.
    pub closed spec fn missing_tables(self, va: u64) -> int {
        let e4 = self.entry_at(0, l4_index(va));
        if !entry_present(e4) {
            3
        } else {
            match self.table_with_frame(entry_addr(e4)) {
                None => 0,
                Some(t3) => {
                    let e3 = self.entry_at(t3, l3_index(va));
                    if !entry_present(e3) {
                        2
                    } else {
                        match self.table_with_frame(entry_addr(e3)) {
                            None => 0,
                            Some(t2) => {
                                let e2 = self.entry_at(t2, l2_index(va));
                                if !entry_present(e2) {
                                    1
                                } else {
                                    0
                                }
                            },
                        }
                    }
                },
            }
        }
    }

    /// The walk can lack at most the three intermediate tables.
    pub proof fn lemma_missing_tables_bound(self, va: u64)
        ensures
            0 <= self.missing_tables(va) <= 3,
    {
    }

    /// A fresh tree: one zeroed root table in `root_frame`, translating
    /// nothing.
    pub fn new(root_frame: u64) -> (r: Self)
        requires
            root_frame % PAGE_SIZE == 0,
            root_frame + PAGE_SIZE <= MAX_PHYS_ADDR,
        ensures
            r.wf(),
            r.no_huge(),
            r.table_frames() == seq![root_frame],
            forall|va: u64| #[trigger] r.resolve(va) is None,
    {
        let root = zeroed_table();
        let mut tables: Vec<Vec<u64>> = Vec::new();
        tables.push(root);
        let mut levels: Vec<u8> = Vec::new();
        levels.push(4);
        let mut frames: Vec<u64> = Vec::new();
        frames.push(root_frame);
        let m = Mapper { tables, levels, frames };
        proof {
            assert(m.table_frames() =~= seq![root_frame]);
            assert forall|i: int, k: int| #[trigger] m.is_parent_entry(i, k) implies false by {
                assert(m.entry_at(i, k) == 0);
            }
            assert forall|va: u64| #[trigger] m.resolve(va) is None by {
                lemma_mod_bound(va as int / L4_SPAN as int, 512);
                assert(m.entry_at(0, l4_index(va)) == 0);
            }
        }
        m
    }

    /// Finds the table occupying frame `a` by linear scan.
    fn find_table(&self, a: u64) -> (r: Option<usize>)
        requires
            self.wf(),
        ensures
            match r {
                Some(i) => {
                    &&& i < self.table_count()
                    &&& self.table_frames()[i as int] == a
                    &&& self.table_with_frame(a) == Some(i as int)
                },
                None => {
                    &&& !self.table_frames().contains(a)
                    &&& self.table_with_frame(a) is None
                },
            },
    {
        let mut i: usize = 0;
        while i < self.frames.len()
            invariant
                self.wf(),
                i <= self.frames@.len(),
                forall|j: int| 0 <= j < i ==> self.table_frames()[j] != a,
            decreases self.frames@.len() - i,
        {
            if self.frames[i] == a {
                proof {
                    let jj = choose|j: int|
                        0 <= j < self.table_count() && self.table_frames()[j] == a;
                    assert(self.table_frames()[i as int] == a);
                    assert(0 <= jj < self.table_count() && self.table_frames()[jj] == a);
                }
                return Some(i);
            }
            i = i + 1;
        }
        proof {
            assert forall|j: int| 0 <= j < self.table_count() implies
                self.table_frames()[j] != a by {}
            if self.table_frames().contains(a) {
                let j = choose|j: int|
                    0 <= j < self.table_frames().len() && self.table_frames()[j] == a;
                assert(false);
            }
        }
        None
    }

    /// Allocates a frame, fills it with a zeroed table one level below
    /// `parent`, and points the unused slot `slot` of `parent` at it.
    /// Translations are unchanged: the new path still ends in unused
    /// entries.
    #[verifier::rlimit(100)]
    #[verifier::spinoff_prover]
    fn create_child(
        &mut self,
        parent: usize,
        slot: usize,
        allocator: &mut BootInfoFrameAllocator,
    ) -> (r: Option<usize>)
        requires
            old(self).wf(),
            old(self).no_huge(),
            old(allocator).inv(),
            fresh_frames_ok(*old(self), *old(allocator)),
            parent < old(self).table_count(),
            old(self).level_of(parent as int) >= 2,
            slot < 512,
            !entry_present(old(self).entry_at(parent as int, slot as int)),
        ensures
            final(self).wf(),
            final(self).no_huge(),
            final(allocator).inv(),
            final(allocator).usable_frames() == old(allocator).usable_frames(),
            fresh_frames_ok(*final(self), *final(allocator)),
            r is Some <==> old(allocator).remaining_frames().len() > 0,
            r is None ==> *final(self) == *old(self)
                && final(allocator).handed_out() == old(allocator).handed_out(),
            r is Some ==> {
                &&& r->Some_0 as int == old(self).table_count()
                &&& final(self).table_count() == old(self).table_count() + 1
                &&& final(allocator).handed_out() == old(allocator).handed_out() + 1
                &&& final(self).table_frames() == old(self).table_frames().push(
                    old(allocator).remaining_frames()[0],
                )
                &&& final(self).level_of(old(self).table_count()) + 1
                    == old(self).level_of(parent as int)
                &&& final(self).entry_at(parent as int, slot as int) != 0
                &&& entry_present(final(self).entry_at(parent as int, slot as int))
                &&& !entry_huge(final(self).entry_at(parent as int, slot as int))
                &&& entry_addr(final(self).entry_at(parent as int, slot as int))
                    == final(self).table_frames()[old(self).table_count()]
                &&& forall|i: int, k: int|
                    0 <= i < old(self).table_count() && 0 <= k < 512
                        && !(i == parent as int && k == slot as int)
                        ==> final(self).entry_at(i, k) == old(self).entry_at(i, k)
                &&& forall|k: int| 0 <= k < 512
                        ==> final(self).entry_at(old(self).table_count(), k) == 0
                &&& forall|i: int| 0 <= i < old(self).table_count()
                        ==> final(self).level_of(i) == old(self).level_of(i)
                &&& forall|va: u64| final(self).resolve(va) == old(self).resolve(va)
            },
    {
        proof {
            old(allocator).lemma_cursor_in_range();
        }
        let f = match allocator.allocate_frame() {
            None => {
                return None;
            },
            Some(f) => f,
        };
        proof {
            old(allocator).lemma_frames_aligned_and_bounded();
            allocator.lemma_cursor_in_range();
            assert(f == old(allocator).remaining_frames()[0]);
            assert(!old(self).table_frames().contains(f));
        }
        let ci = self.tables.len();
        let child_level = self.levels[parent] - 1;
        let e = make_entry(f, true);
        let mut t = self.tables.remove(parent);
        t.set(slot, e);
        self.tables.insert(parent, t);
        self.tables.push(zeroed_table());
        self.levels.push(child_level);
        self.frames.push(f);
        proof {
            let m0 = *old(self);
            let m1 = *self;
            let n = m0.table_count();
            assert(m1.tables@[parent as int]@ =~= m0.tables@[parent as int]@.update(
                slot as int,
                e,
            ));
            assert forall|i: int| 0 <= i < n && i != parent as int implies
                m1.tables@[i] == m0.tables@[i] by {}
            assert forall|i: int, k: int|
                0 <= i < n && 0 <= k < 512 && !(i == parent as int && k == slot as int) implies
                m1.entry_at(i, k) == m0.entry_at(i, k) by {}
            assert(m1.entry_at(parent as int, slot as int) == e);
            assert(e != 0);
            // The new frame is fresh, so the frame list stays duplicate-free.
            assert forall|i: int, j: int| 0 <= i < j < m1.table_count() implies
                m1.frames@[i] != m1.frames@[j] by {
                if j == n {
                    if m0.frames@[i] == f {
                        assert(m0.table_frames().contains(f));
                    }
                }
            }
            // Every parent entry still has its child, and the new entry has one.
            assert forall|i: int, k: int| #[trigger] m1.is_parent_entry(i, k) implies
                exists|j: int|
                    0 <= j < m1.table_count()
                        && m1.table_frames()[j] == entry_addr(#[trigger] m1.entry_at(i, k))
                        && m1.level_of(j) + 1 == m1.level_of(i) by {
                if i == parent as int && k == slot as int {
                    assert(m1.table_frames()[n] == f);
                    assert(m1.level_of(n) + 1 == m1.level_of(i));
                } else if i == n {
                    assert(m1.entry_at(i, k) == 0);
                    assert(false);
                } else {
                    assert(m0.is_parent_entry(i, k));
                    let j = choose|j: int|
                        0 <= j < m0.table_count()
                            && m0.table_frames()[j] == entry_addr(m0.entry_at(i, k))
                            && m0.level_of(j) + 1 == m0.level_of(i);
                    assert(m1.table_frames()[j] == m0.table_frames()[j]);
                }
            }
            // Distinct parent entries still point at distinct frames.
            assert forall|i1: int, k1: int, i2: int, k2: int|
                #[trigger] m1.is_parent_entry(i1, k1) && #[trigger] m1.is_parent_entry(i2, k2)
                    && entry_addr(m1.entry_at(i1, k1)) == entry_addr(m1.entry_at(i2, k2))
                    implies i1 == i2 && k1 == k2 by {
                lemma_parent_entry_cases(m0, m1, parent as int, slot as int, f, i1, k1);
                lemma_parent_entry_cases(m0, m1, parent as int, slot as int, f, i2, k2);
            }
            assert forall|i: int, k: int| #[trigger] m1.is_parent_entry(i, k) implies
                entry_addr(m1.entry_at(i, k)) != m1.frames@[0] by {
                lemma_parent_entry_cases(m0, m1, parent as int, slot as int, f, i, k);
                if m0.frames@[0] == f {
                    assert(m0.table_frames().contains(f));
                }
            }
            assert(m1.table_count() == n + 1);
            assert(m1.frames@.len() == m1.table_count());
            assert(m1.levels@.len() == m1.table_count());
            assert(m1.level_of(0) == 4);
            assert forall|i: int| 0 <= i < m1.table_count() implies
                (#[trigger] m1.tables@[i])@.len() == 512 by {
                if i == parent as int {
                    assert(m1.tables@[i]@.len() == m0.tables@[i]@.len());
                } else if i < n {
                    assert(m1.tables@[i] == m0.tables@[i]);
                }
            }
            assert forall|i: int| 0 <= i < m1.table_count() implies
                1 <= #[trigger] m1.level_of(i) <= 4 by {
                if i == n {
                    assert(m1.level_of(i) == child_level as int);
                    assert(child_level as int == m0.level_of(parent as int) - 1);
                } else {
                    assert(m1.level_of(i) == m0.level_of(i));
                }
            }
            assert forall|i: int| 0 <= i < m1.table_count() implies
                (#[trigger] m1.frames@[i]) % PAGE_SIZE == 0 by {}
            assert forall|i: int| 0 <= i < m1.table_count() implies
                (#[trigger] m1.frames@[i]) + PAGE_SIZE <= MAX_PHYS_ADDR by {}
            assert forall|i: int, k: int| 0 <= i < m1.table_count() && 0 <= k < 512 implies
                #[trigger] m1.entry_at(i, k) < MAX_PHYS_ADDR by {
                if i == parent as int && k == slot as int {
                    assert(m1.entry_at(i, k) == e);
                } else if i == n {
                    assert(m1.entry_at(i, k) == 0);
                } else {
                    assert(m1.entry_at(i, k) == m0.entry_at(i, k));
                }
            }
            assert(m1.wf());
            lemma_append_child_preserves(m0, m1, parent as int, slot as int, f);
            // The allocator moved one frame out of its remaining list, and
            // that frame is the only table frame added.
            allocator.lemma_frames_distinct();
            assert forall|i: int| 0 <= i < allocator.remaining_frames().len() implies
                !m1.table_frames().contains(#[trigger] allocator.remaining_frames()[i]) by {
                let a = allocator.remaining_frames()[i];
                assert(a == old(allocator).remaining_frames()[i + 1]);
                assert(!m0.table_frames().contains(a));
                assert(a == old(allocator).usable_frames()[old(allocator).handed_out() + 1 + i]);
                assert(f == old(allocator).usable_frames()[old(allocator).handed_out()]);
                assert(a != f);
                if m1.table_frames().contains(a) {
                    let j = choose|j: int|
                        0 <= j < m1.table_frames().len() && m1.table_frames()[j] == a;
                    if j < n {
                        assert(m0.table_frames().contains(a));
                    }
                    assert(false);
                }
            }
        }
        Some(ci)
    }

    /// One step of the mapping walk: returns the table below slot
    /// `slot` of table `cur`, creating it when the slot is unused.
    /// Translations never change here: a created path still ends in
    /// unused entries.
    fn descend(
        &mut self,
        cur: usize,
        slot: usize,
        allocator: &mut BootInfoFrameAllocator,
    ) -> (r: Result<usize, MapError>)
        requires
            old(self).wf(),
            old(self).no_huge(),
            old(allocator).inv(),
            fresh_frames_ok(*old(self), *old(allocator)),
            cur < old(self).table_count(),
            old(self).level_of(cur as int) >= 2,
            slot < 512,
        ensures
            final(self).wf(),
            final(self).no_huge(),
            final(allocator).inv(),
            final(allocator).usable_frames() == old(allocator).usable_frames(),
            fresh_frames_ok(*final(self), *final(allocator)),
            forall|va: u64| final(self).resolve(va) == old(self).resolve(va),
            final(self).table_count() >= old(self).table_count(),
            forall|i: int| 0 <= i < old(self).table_count()
                ==> final(self).level_of(i) == old(self).level_of(i),
            forall|i: int| 0 <= i < old(self).table_count()
                ==> final(self).table_frames()[i] == old(self).table_frames()[i],
            forall|i: int, k: int|
                0 <= i < old(self).table_count() && 0 <= k < 512
                    && !(i == cur as int && k == slot as int)
                    ==> final(self).entry_at(i, k) == old(self).entry_at(i, k),
            r is Err <==> !entry_present(old(self).entry_at(cur as int, slot as int))
                && old(allocator).remaining_frames().len() == 0,
            r is Err ==> *final(self) == *old(self)
                && final(allocator).handed_out() == old(allocator).handed_out()
                && r == Err::<usize, MapError>(MapError::FrameAllocationFailed),
            r matches Ok(t) ==> {
                &&& (t as int) < final(self).table_count()
                &&& entry_present(final(self).entry_at(cur as int, slot as int))
                &&& !entry_huge(final(self).entry_at(cur as int, slot as int))
                &&& entry_addr(final(self).entry_at(cur as int, slot as int))
                    == final(self).table_frames()[t as int]
                &&& final(self).level_of(t as int) + 1 == old(self).level_of(cur as int)
            },
            entry_present(old(self).entry_at(cur as int, slot as int)) ==> *final(self)
                == *old(self) && final(allocator).handed_out() == old(allocator).handed_out(),
            r is Ok && !entry_present(old(self).entry_at(cur as int, slot as int)) ==> {
                &&& final(self).table_count() == old(self).table_count() + 1
                &&& final(allocator).handed_out() == old(allocator).handed_out() + 1
                &&& old(allocator).remaining_frames().len() > 0
                &&& (forall|k: int| 0 <= k < 512
                        ==> final(self).entry_at(r->Ok_0 as int, k) == 0)
            },
    {
        let e = self.tables[cur][slot];
        proof {
            assert(e == self.entry_at(cur as int, slot as int));
        }
        if is_present(e) {
            proof {
                assert(!entry_huge(e));
                assert(self.is_parent_entry(cur as int, slot as int));
            }
            match self.find_table(addr_of(e)) {
                Some(t) => {
                    proof {
                        let j = choose|j: int|
                            0 <= j < self.table_count()
                                && self.table_frames()[j]
                                    == entry_addr(self.entry_at(cur as int, slot as int))
                                && self.level_of(j) + 1 == self.level_of(cur as int);
                        lemma_frames_index_unique(*self, j, t as int);
                    }
                    Ok(t)
                },
                None => {
                    proof {
                        let j = choose|j: int|
                            0 <= j < self.table_count()
                                && self.table_frames()[j]
                                    == entry_addr(self.entry_at(cur as int, slot as int))
                                && self.level_of(j) + 1 == self.level_of(cur as int);
                        assert(self.table_frames().contains(entry_addr(e)));
                        assert(false);
                    }
                    Err(MapError::FrameAllocationFailed)
                },
            }
        } else {
            proof {
                old(allocator).lemma_cursor_in_range();
            }
            match self.create_child(cur, slot, allocator) {
                Some(c) => Ok(c),
                None => Err(MapError::FrameAllocationFailed),
            }
        }
    }

    /// Writes the level-1 entry that completes the path for `page`,
    /// mapping exactly that page to `frame`.
    #[verifier::rlimit(100)]
    #[verifier::spinoff_prover]
    fn install_leaf(
        &mut self,
        leaf: usize,
        slot: usize,
        frame: u64,
        writable: bool,
        Ghost(page): Ghost<u64>,
        Ghost(t3): Ghost<int>,
        Ghost(t2): Ghost<int>,
    )
        requires
            old(self).wf(),
            old(self).no_huge(),
            frame % PAGE_SIZE == 0,
            frame + PAGE_SIZE <= MAX_PHYS_ADDR,
            0 <= t3 < old(self).table_count(),
            0 <= t2 < old(self).table_count(),
            (leaf as int) < old(self).table_count(),
            slot as int == l1_index(page),
            entry_present(old(self).entry_at(0, l4_index(page))),
            !entry_huge(old(self).entry_at(0, l4_index(page))),
            entry_addr(old(self).entry_at(0, l4_index(page))) == old(self).table_frames()[t3],
            old(self).level_of(t3) == 3,
            entry_present(old(self).entry_at(t3, l3_index(page))),
            !entry_huge(old(self).entry_at(t3, l3_index(page))),
            entry_addr(old(self).entry_at(t3, l3_index(page))) == old(self).table_frames()[t2],
            old(self).level_of(t2) == 2,
            entry_present(old(self).entry_at(t2, l2_index(page))),
            !entry_huge(old(self).entry_at(t2, l2_index(page))),
            entry_addr(old(self).entry_at(t2, l2_index(page)))
                == old(self).table_frames()[leaf as int],
            old(self).level_of(leaf as int) == 1,
            !entry_present(old(self).entry_at(leaf as int, l1_index(page))),
        ensures
            final(self).wf(),
            final(self).no_huge(),
            final(self).table_count() == old(self).table_count(),
            final(self).table_frames() == old(self).table_frames(),
            forall|va: u64| #[trigger] same_page(va, page)
                ==> final(self).resolve(va)
                    == Some((frame + va as int % PAGE_SIZE as int) as u64),
            forall|va: u64| !same_page(va, page)
                ==> final(self).resolve(va) == old(self).resolve(va),
    {
        proof {
            lemma_index_bounds(page);
        }
        let enew = make_entry(frame, writable);
        let mut t = self.tables.remove(leaf);
        t.set(slot, enew);
        self.tables.insert(leaf, t);
        proof {
            let m0 = *old(self);
            let m1 = *self;
            assert(m1.tables@[leaf as int]@ =~= m0.tables@[leaf as int]@.update(
                slot as int,
                enew,
            ));
            assert forall|i: int| 0 <= i < m0.table_count() && i != leaf as int implies
                m1.tables@[i] == m0.tables@[i] by {}
            assert forall|i: int, k: int|
                0 <= i < m0.table_count() && 0 <= k < 512
                    && !(i == leaf as int && k == slot as int) implies
                m1.entry_at(i, k) == m0.entry_at(i, k) by {}
            assert(m1.entry_at(leaf as int, slot as int) == enew);
            // Only a level-1 slot changed, so no parent entry moved.
            assert forall|i: int, k: int| #[trigger] m1.is_parent_entry(i, k) implies
                m0.is_parent_entry(i, k) && m1.entry_at(i, k) == m0.entry_at(i, k) by {
                if i == leaf as int {
                    assert(m1.level_of(i) == 1);
                    assert(false);
                }
            }
            assert forall|i1: int, k1: int, i2: int, k2: int|
                #[trigger] m1.is_parent_entry(i1, k1) && #[trigger] m1.is_parent_entry(i2, k2)
                    && entry_addr(m1.entry_at(i1, k1)) == entry_addr(m1.entry_at(i2, k2))
                    implies i1 == i2 && k1 == k2 by {}
            assert forall|i: int, k: int| #[trigger] m1.is_parent_entry(i, k) implies
                entry_addr(m1.entry_at(i, k)) != m1.frames@[0] by {}
            assert forall|i: int, k: int| #[trigger] m1.is_parent_entry(i, k) implies
                exists|j: int|
                    0 <= j < m1.table_count()
                        && m1.table_frames()[j] == entry_addr(m1.entry_at(i, k))
                        && m1.level_of(j) + 1 == m1.level_of(i) by {
                let j = choose|j: int|
                    0 <= j < m0.table_count()
                        && m0.table_frames()[j] == entry_addr(m0.entry_at(i, k))
                        && m0.level_of(j) + 1 == m0.level_of(i);
                assert(0 <= j < m1.table_count()
                    && m1.table_frames()[j] == entry_addr(m1.entry_at(i, k))
                    && m1.level_of(j) + 1 == m1.level_of(i));
            }
            assert forall|i: int, k: int| 0 <= i < m1.table_count() && 0 <= k < 512 implies
                #[trigger] m1.entry_at(i, k) < MAX_PHYS_ADDR by {
                if !(i == leaf as int && k == slot as int) {
                    assert(m1.entry_at(i, k) == m0.entry_at(i, k));
                }
            }
            assert forall|i: int| 0 <= i < m1.table_count() implies
                (#[trigger] m1.tables@[i])@.len() == 512 by {
                if i != leaf as int {
                    assert(m1.tables@[i] == m0.tables@[i]);
                } else {
                    assert(m1.tables@[i]@.len() == m0.tables@[i]@.len());
                }
            }
            assert(m1.table_count() == m0.table_count());
            assert(m1.frames@ == m0.frames@);
            assert(m1.levels@ == m0.levels@);
            assert forall|i: int| 0 <= i < m1.table_count() implies
                1 <= #[trigger] m1.level_of(i) <= 4 by {
                assert(m1.level_of(i) == m0.level_of(i));
            }
            assert forall|i: int| 0 <= i < m1.table_count() implies
                (#[trigger] m1.frames@[i]) % PAGE_SIZE == 0 by {
                assert(m1.frames@[i] == m0.frames@[i]);
            }
            assert forall|i: int| 0 <= i < m1.table_count() implies
                (#[trigger] m1.frames@[i]) + PAGE_SIZE <= MAX_PHYS_ADDR by {
                assert(m1.frames@[i] == m0.frames@[i]);
            }
            assert forall|i: int, j: int| 0 <= i < j < m1.table_count() implies
                m1.frames@[i] != m1.frames@[j] by {
                assert(m1.frames@[i] == m0.frames@[i]);
                assert(m1.frames@[j] == m0.frames@[j]);
            }
            assert(m1.wf());
            assert forall|i: int, k: int| 0 <= i < m1.table_count() && 0 <= k < 512 implies
                !entry_huge(#[trigger] m1.entry_at(i, k)) by {
                if !(i == leaf as int && k == slot as int) {
                    assert(m1.entry_at(i, k) == m0.entry_at(i, k));
                }
            }
            lemma_set_leaf(m0, m1, page, frame, t3, t2, leaf as int);
        }
    }

    /// Installs a 4 KiB mapping from the page holding `page` to `frame`,
    /// creating any missing intermediate tables from the allocator.
    /// Succeeds exactly when the target slot is unmapped and enough
    /// frames remain for the missing tables; an existing mapping is
    /// never overwritten silently.  On success every address of the page
    /// translates to `frame` plus its in-page offset and no other
    /// translation changes; on failure no translation changes at all.
    #[verifier::rlimit(100)]
    #[verifier::spinoff_prover]
    pub fn map_page(
        &mut self,
        page: u64,
        frame: u64,
        writable: bool,
        allocator: &mut BootInfoFrameAllocator,
    ) -> (r: Result<(), MapError>)
        requires
            old(self).wf(),
            old(self).no_huge(),
            old(allocator).inv(),
            fresh_frames_ok(*old(self), *old(allocator)),
            page % PAGE_SIZE == 0,
            frame % PAGE_SIZE == 0,
            frame + PAGE_SIZE <= MAX_PHYS_ADDR,
        ensures
            final(self).wf(),
            final(self).no_huge(),
            final(allocator).inv(),
            final(allocator).usable_frames() == old(allocator).usable_frames(),
            fresh_frames_ok(*final(self), *final(allocator)),
            r is Ok <==> old(self).resolve(page) is None
                && old(allocator).remaining_frames().len() >= old(self).missing_tables(page),
            r == Err::<(), MapError>(MapError::PageAlreadyMapped)
                <==> old(self).resolve(page) is Some,
            r is Ok ==> forall|va: u64| #[trigger] same_page(va, page)
                ==> final(self).resolve(va)
                    == Some((frame + va as int % PAGE_SIZE as int) as u64),
            r is Ok ==> forall|va: u64| !same_page(va, page)
                ==> final(self).resolve(va) == old(self).resolve(va),
            r is Ok ==> final(allocator).handed_out()
                == old(allocator).handed_out() + old(self).missing_tables(page),
            r is Err ==> forall|va: u64| final(self).resolve(va) == old(self).resolve(va),
            r == Err::<(), MapError>(MapError::PageAlreadyMapped)
                ==> *final(self) == *old(self)
                    && final(allocator).handed_out() == old(allocator).handed_out(),
            r == Err::<(), MapError>(MapError::FrameAllocationFailed)
                ==> final(allocator).handed_out() == old(allocator).usable_frames().len(),
    {
        let ghost m_orig = *old(self);
        let ghost a_orig = *old(allocator);
        proof {
            lemma_index_bounds(page);
            a_orig.lemma_cursor_in_range();
            a_orig.lemma_remaining_len();
        }
        let s4 = l4_of(page);
        let s3 = l3_of(page);
        let s2 = l2_of(page);
        let s1 = l1_of(page);
        let ghost p4 = entry_present(m_orig.entry_at(0, s4 as int));

        // Level 4: find or create the level-3 table.
        proof {
            if !p4 {
                assert(m_orig.missing_tables(page) == 3);
                assert(m_orig.resolve(page) is None);
            }
        }
        let t3 = match self.descend(0, s4, allocator) {
            Ok(t) => t,
            Err(e) => {
                proof {
                    allocator.lemma_cursor_in_range();
                    allocator.lemma_remaining_len();
                }
                return Err(e);
            },
        };
        let ghost m_a = *self;
        let ghost p3 = entry_present(m_a.entry_at(t3 as int, s3 as int));
        proof {
            if p4 {
                lemma_twf_some(m_orig, t3 as int);
                if !p3 {
                    assert(m_orig.missing_tables(page) == 2);
                    assert(m_orig.resolve(page) is None);
                }
            } else {
                assert(!p3);
            }
        }

        // Level 3: find or create the level-2 table.
        let t2 = match self.descend(t3, s3, allocator) {
            Ok(t) => t,
            Err(e) => {
                proof {
                    allocator.lemma_cursor_in_range();
                    allocator.lemma_remaining_len();
                }
                return Err(e);
            },
        };
        let ghost m_b = *self;
        let ghost p2 = entry_present(m_b.entry_at(t2 as int, s2 as int));
        proof {
            assert(m_b.entry_at(0, s4 as int) == m_a.entry_at(0, s4 as int));
            if p4 && p3 {
                lemma_twf_some(m_orig, t3 as int);
                lemma_twf_some(m_orig, t2 as int);
                if !p2 {
                    assert(m_orig.missing_tables(page) == 1);
                    assert(m_orig.resolve(page) is None);
                }
            } else {
                assert(!p2);
            }
        }

        // Level 2: find or create the level-1 table.
        let t1 = match self.descend(t2, s2, allocator) {
            Ok(t) => t,
            Err(e) => {
                proof {
                    allocator.lemma_cursor_in_range();
                    allocator.lemma_remaining_len();
                }
                return Err(e);
            },
        };
        proof {
            assert(self.entry_at(0, s4 as int) == m_b.entry_at(0, s4 as int));
            assert(m_b.entry_at(0, s4 as int) == m_a.entry_at(0, s4 as int));
            assert(self.entry_at(t3 as int, s3 as int) == m_b.entry_at(t3 as int, s3 as int));
            assert(self.table_frames()[t3 as int] == m_a.table_frames()[t3 as int]);
            assert(self.table_frames()[t2 as int] == m_b.table_frames()[t2 as int]);
            assert(self.level_of(t3 as int) == 3);
            assert(self.level_of(t2 as int) == 2);
            assert(self.level_of(t1 as int) == 1);
            assert(self.wf());
        }

        // Level 1: the slot that completes the path.
        let e1 = self.tables[t1][s1];
        if is_present(e1) {
            proof {
                if !(p4 && p3 && p2) {
                    assert(e1 == 0);
                    assert(false);
                }
                assert(*self == m_orig);
                lemma_twf_some(m_orig, t3 as int);
                lemma_twf_some(m_orig, t2 as int);
                lemma_twf_some(m_orig, t1 as int);
                assert(m_orig.resolve(page) is Some);
            }
            return Err(MapError::PageAlreadyMapped);
        }
        proof {
            if p4 && p3 && p2 {
                assert(*self == m_orig);
                lemma_twf_some(m_orig, t3 as int);
                lemma_twf_some(m_orig, t2 as int);
                lemma_twf_some(m_orig, t1 as int);
                assert(m_orig.missing_tables(page) == 0);
                assert(m_orig.resolve(page) is None);
            }
            allocator.lemma_cursor_in_range();
            allocator.lemma_remaining_len();
        }
        let ghost m_mid = *self;
        self.install_leaf(t1, s1, frame, writable, Ghost(page), Ghost(t3 as int), Ghost(t2 as int));
        proof {
            assert forall|va: u64| !same_page(va, page) implies
                final(self).resolve(va) == m_orig.resolve(va) by {
                assert(self.resolve(va) == m_mid.resolve(va));
            }
        }
        Ok(())
    }
    /// Walks the four levels exactly as the MMU would and returns the
    /// physical address `va` maps to, or `None` where the path breaks
    /// off.  Probing unmapped addresses is a normal, expected outcome.
    pub fn translate_addr(&self, va: u64) -> (r: Option<u64>)
        requires
            self.wf(),
        ensures
            r == self.resolve(va),
    {
        let e4 = self.tables[0][l4_of(va)];
        if !is_present(e4) || is_huge(e4) {
            return None;
        }
        let t3 = match self.find_table(addr_of(e4)) {
            Some(t) => t,
            None => {
                return None;
            },
        };
        let e3 = self.tables[t3][l3_of(va)];
        if !is_present(e3) {
            return None;
        }
        if is_huge(e3) {
            proof {
                lemma_mod_bound(va as int, L3_SPAN as int);
                lemma_entry_addr_bound(e3);
            }
            return Some(addr_of(e3) + va % L3_SPAN);
        }
        let t2 = match self.find_table(addr_of(e3)) {
            Some(t) => t,
            None => {
                return None;
            },
        };
        let e2 = self.tables[t2][l2_of(va)];
        if !is_present(e2) {
            return None;
        }
        if is_huge(e2) {
            proof {
                lemma_mod_bound(va as int, L2_SPAN as int);
                lemma_entry_addr_bound(e2);
            }
            return Some(addr_of(e2) + va % L2_SPAN);
        }
        let t1 = match self.find_table(addr_of(e2)) {
            Some(t) => t,
            None => {
                return None;
            },
        };
        let e1 = self.tables[t1][l1_of(va)];
        if is_present(e1) {
            proof {
                lemma_mod_bound(va as int, PAGE_SIZE as int);
                lemma_entry_addr_bound(e1);
            }
            Some(addr_of(e1) + va % PAGE_SIZE)
        } else {
            None
        }
    }
}

/// The frames the allocator can still hand out are not occupied by any
/// of the mapper's tables.  Boot establishes this (the bootloader marks
/// frames holding live tables as reserved) and `map_page` keeps it.
pub open spec fn fresh_frames_ok(m: Mapper, a: BootInfoFrameAllocator) -> bool {
    forall|i: int| 0 <= i < a.remaining_frames().len()
        ==> !m.table_frames().contains(#[trigger] a.remaining_frames()[i])
}

/// Every level index of a virtual address lies in `0..512`.
proof fn lemma_index_bounds(va: u64)
    ensures
        0 <= l1_index(va) < 512,
        0 <= l2_index(va) < 512,
        0 <= l3_index(va) < 512,
        0 <= l4_index(va) < 512,
{
    lemma_mod_bound(va as int / PAGE_SIZE as int, 512);
    lemma_mod_bound(va as int / L2_SPAN as int, 512);
    lemma_mod_bound(va as int / L3_SPAN as int, 512);
    lemma_mod_bound(va as int / L4_SPAN as int, 512);
}

/// With distinct table frames, finding a frame pins the table index.
proof fn lemma_twf_some(m: Mapper, j: int)
    requires
        m.wf(),
        0 <= j < m.table_count(),
    ensures
        m.table_with_frame(m.table_frames()[j]) == Some(j),
{
    let a = m.table_frames()[j];
    assert(exists|i: int| 0 <= i < m.table_count() && m.table_frames()[i] == a);
    let jj = choose|i: int| 0 <= i < m.table_count() && m.table_frames()[i] == a;
    if jj != j {
        if jj < j {
            assert(m.table_frames()[jj] != m.table_frames()[j]);
        } else {
            assert(m.table_frames()[j] != m.table_frames()[jj]);
        }
    }
}

/// A frame no table occupies finds nothing.
proof fn lemma_twf_none(m: Mapper, a: u64)
    requires
        !m.table_frames().contains(a),
        m.table_frames().len() == m.table_count(),
    ensures
        m.table_with_frame(a) is None,
{
    if exists|i: int| 0 <= i < m.table_count() && m.table_frames()[i] == a {
        let i = choose|i: int| 0 <= i < m.table_count() && m.table_frames()[i] == a;
        assert(m.table_frames().contains(a));
    }
}

/// Appending one table leaves every lookup of an old frame unchanged.
proof fn lemma_twf_push(m0: Mapper, m1: Mapper, a: u64, f: u64)
    requires
        m0.wf(),
        m1.wf(),
        a != f,
        m1.table_frames() == m0.table_frames().push(f),
        m1.table_count() == m0.table_count() + 1,
    ensures
        m1.table_with_frame(a) == m0.table_with_frame(a),
{
    if m0.table_frames().contains(a) {
        let j = choose|i: int| 0 <= i < m0.table_frames().len() && m0.table_frames()[i] == a;
        lemma_twf_some(m0, j);
        assert(m1.table_frames()[j] == a);
        lemma_twf_some(m1, j);
    } else {
        lemma_twf_none(m0, a);
        assert forall|i: int| 0 <= i < m1.table_count() implies m1.table_frames()[i] != a by {
            if i < m0.table_count() {
                assert(m1.table_frames()[i] == m0.table_frames()[i]);
                if m0.table_frames()[i] == a {
                    assert(m0.table_frames().contains(a));
                }
            }
        }
        if m1.table_frames().contains(a) {
            let i = choose|i: int| 0 <= i < m1.table_frames().len() && m1.table_frames()[i] == a;
            assert(false);
        }
        lemma_twf_none(m1, a);
    }
}

/// After hanging a fresh table off `(parent, slot)`, every parent entry
/// is either that new slot (pointing at the fresh frame) or an old
/// parent entry pointing at an old table frame.
proof fn lemma_parent_entry_cases(m0: Mapper, m1: Mapper, parent: int, slot: int, f: u64, i: int, k: int)
    requires
        m0.wf(),
        0 <= parent < m0.table_count(),
        0 <= slot < 512,
        m0.level_of(parent) >= 2,
        !m0.table_frames().contains(f),
        m1.table_count() == m0.table_count() + 1,
        m1.table_frames() == m0.table_frames().push(f),
        forall|i: int, k: int|
            0 <= i < m0.table_count() && 0 <= k < 512 && !(i == parent && k == slot)
                ==> m1.entry_at(i, k) == m0.entry_at(i, k),
        entry_addr(m1.entry_at(parent, slot)) == f,
        forall|k: int| 0 <= k < 512 ==> m1.entry_at(m0.table_count(), k) == 0,
        forall|i: int| 0 <= i < m0.table_count() ==> m1.level_of(i) == m0.level_of(i),
        m1.is_parent_entry(i, k),
    ensures
        (i == parent && k == slot) || {
            &&& m0.is_parent_entry(i, k)
            &&& m1.entry_at(i, k) == m0.entry_at(i, k)
            &&& m0.table_frames().contains(entry_addr(m1.entry_at(i, k)))
            &&& entry_addr(m1.entry_at(i, k)) != f
        },
{
    if !(i == parent && k == slot) {
        if i == m0.table_count() {
            assert(m1.entry_at(i, k) == 0);
            assert(false);
        } else {
            assert(m1.entry_at(i, k) == m0.entry_at(i, k));
            assert(m0.is_parent_entry(i, k));
            let j = choose|j: int|
                0 <= j < m0.table_count()
                    && m0.table_frames()[j] == entry_addr(m0.entry_at(i, k))
                    && m0.level_of(j) + 1 == m0.level_of(i);
            assert(m0.table_frames().contains(entry_addr(m1.entry_at(i, k))));
        }
    }
}

/// Hanging a fresh zeroed table off one previously-unused slot changes
/// no translation: walks that reach the new slot now descend into a
/// table of unused entries and still resolve to nothing.
proof fn lemma_append_child_preserves(m0: Mapper, m1: Mapper, parent: int, slot: int, f: u64)
    requires
        m0.wf(),
        m1.wf(),
        0 <= parent < m0.table_count(),
        0 <= slot < 512,
        m0.level_of(parent) >= 2,
        !entry_present(m0.entry_at(parent, slot)),
        !m0.table_frames().contains(f),
        m1.table_count() == m0.table_count() + 1,
        m1.table_frames() == m0.table_frames().push(f),
        forall|i: int, k: int|
            0 <= i < m0.table_count() && 0 <= k < 512 && !(i == parent && k == slot)
                ==> m1.entry_at(i, k) == m0.entry_at(i, k),
        entry_present(m1.entry_at(parent, slot)),
        !entry_huge(m1.entry_at(parent, slot)),
        entry_addr(m1.entry_at(parent, slot)) == f,
        forall|k: int| 0 <= k < 512 ==> m1.entry_at(m0.table_count(), k) == 0,
        forall|i: int| 0 <= i < m0.table_count() ==> m1.level_of(i) == m0.level_of(i),
    ensures
        forall|va: u64| m1.resolve(va) == m0.resolve(va),
{
    let n = m0.table_count();
    lemma_twf_some(m1, n);
    assert forall|va: u64| m1.resolve(va) == m0.resolve(va) by {
        lemma_index_bounds(va);
        if parent == 0 && l4_index(va) == slot {
            // The old walk stopped at an unused root slot; the new walk
            // descends into the all-zero child and stops there.
            assert(m1.entry_at(n, l3_index(va)) == 0);
        } else {
            let e4 = m0.entry_at(0, l4_index(va));
            assert(m1.entry_at(0, l4_index(va)) == e4);
            if entry_present(e4) && !entry_huge(e4) {
                assert(m0.is_parent_entry(0, l4_index(va)));
                let a3 = entry_addr(e4);
                let j3 = choose|j: int|
                    0 <= j < m0.table_count() && m0.table_frames()[j] == a3
                        && m0.level_of(j) + 1 == m0.level_of(0);
                lemma_twf_some(m0, j3);
                assert(m0.table_frames().contains(a3));
                lemma_twf_push(m0, m1, a3, f);
                if j3 == parent && l3_index(va) == slot {
                    assert(m1.entry_at(n, l2_index(va)) == 0);
                } else {
                    let e3 = m0.entry_at(j3, l3_index(va));
                    assert(m1.entry_at(j3, l3_index(va)) == e3);
                    if entry_present(e3) && !entry_huge(e3) {
                        assert(m0.is_parent_entry(j3, l3_index(va)));
                        let a2 = entry_addr(e3);
                        let j2 = choose|j: int|
                            0 <= j < m0.table_count() && m0.table_frames()[j] == a2
                                && m0.level_of(j) + 1 == m0.level_of(j3);
                        lemma_twf_some(m0, j2);
                        assert(m0.table_frames().contains(a2));
                        lemma_twf_push(m0, m1, a2, f);
                        if j2 == parent && l2_index(va) == slot {
                            assert(m1.entry_at(n, l1_index(va)) == 0);
                        } else {
                            let e2 = m0.entry_at(j2, l2_index(va));
                            assert(m1.entry_at(j2, l2_index(va)) == e2);
                            if entry_present(e2) && !entry_huge(e2) {
                                assert(m0.is_parent_entry(j2, l2_index(va)));
                                let a1 = entry_addr(e2);
                                let j1 = choose|j: int|
                                    0 <= j < m0.table_count() && m0.table_frames()[j] == a1
                                        && m0.level_of(j) + 1 == m0.level_of(j2);
                                lemma_twf_some(m0, j1);
                                assert(m0.table_frames().contains(a1));
                                lemma_twf_push(m0, m1, a1, f);
                                // The level-1 table cannot be the parent
                                // (levels differ), so its entry is unchanged.
                                assert(m0.level_of(j1) == 1);
                                assert(j1 != parent);
                                assert(m1.entry_at(j1, l1_index(va))
                                    == m0.entry_at(j1, l1_index(va)));
                            }
                        }
                    }
                }
            }
        }
    }
}

/// Every address inside a page selects the same slots as the page base,
/// and its in-page offset is exactly its distance from the base.
pub proof fn lemma_page_offset_same_page(page: u64, off: u64)
    requires
        page % PAGE_SIZE == 0,
        off < PAGE_SIZE,
        page + off <= u64::MAX,
    ensures
        same_page((page + off) as u64, page),
        (page + off) as int % PAGE_SIZE as int == off,
{
    let va = (page + off) as u64;
    lemma_fundamental_div_mod(page as int, PAGE_SIZE as int);
    let q = page as int / PAGE_SIZE as int;
    lemma_fundamental_div_mod_converse(va as int, PAGE_SIZE as int, q, off as int);
    assert(va as int / PAGE_SIZE as int == page as int / PAGE_SIZE as int);
    lemma_div_denominator(va as int, PAGE_SIZE as int, 512);
    lemma_div_denominator(page as int, PAGE_SIZE as int, 512);
    assert(va as int / L2_SPAN as int == page as int / L2_SPAN as int);
    lemma_div_denominator(va as int, L2_SPAN as int, 512);
    lemma_div_denominator(page as int, L2_SPAN as int, 512);
    assert(va as int / L3_SPAN as int == page as int / L3_SPAN as int);
    lemma_div_denominator(va as int, L3_SPAN as int, 512);
    lemma_div_denominator(page as int, L3_SPAN as int, 512);
    assert(va as int / L4_SPAN as int == page as int / L4_SPAN as int);
}

/// Two page-aligned addresses in the 48-bit virtual space that select
/// the same slot at every level are the same page: the four 9-bit
/// indices and the alignment reconstruct the address.
pub proof fn lemma_same_page_equal(p1: u64, p2: u64)
    requires
        p1 % PAGE_SIZE == 0,
        p2 % PAGE_SIZE == 0,
        p1 < 0x1_0000_0000_0000,
        p2 < 0x1_0000_0000_0000,
        same_page(p1, p2),
    ensures
        p1 == p2,
{
    lemma_page_number_from_indices(p1);
    lemma_page_number_from_indices(p2);
    lemma_fundamental_div_mod(p1 as int, PAGE_SIZE as int);
    lemma_fundamental_div_mod(p2 as int, PAGE_SIZE as int);
}

/// An address that selects the same slots as a page base lies inside
/// that page (within the 48-bit space the walk reads).
pub proof fn lemma_same_page_range(va: u64, page: u64)
    requires
        page % PAGE_SIZE == 0,
        page < 0x1_0000_0000_0000,
        va < 0x1_0000_0000_0000,
        same_page(va, page),
    ensures
        page <= va < page + PAGE_SIZE,
{
    lemma_fundamental_div_mod(va as int, PAGE_SIZE as int);
    lemma_mod_bound(va as int, PAGE_SIZE as int);
    let off = (va as int % PAGE_SIZE as int) as u64;
    let b = (va - off) as u64;
    lemma_mod_multiples_basic(va as int / PAGE_SIZE as int, PAGE_SIZE as int);
    assert(b % PAGE_SIZE == 0);
    lemma_page_offset_same_page(b, off);
    assert(same_page(va, b));
    assert(same_page(b, page));
    lemma_same_page_equal(b, page);
}

/// A page number below 2^36 is rebuilt from its four 9-bit indices.
proof fn lemma_page_number_from_indices(p: u64)
    requires
        p < 0x1_0000_0000_0000,
    ensures
        p as int / PAGE_SIZE as int == l1_index(p) + 512 * (l2_index(p) + 512 * (l3_index(p)
            + 512 * l4_index(p))),
{
    let q = p as int / PAGE_SIZE as int;
    lemma_div_denominator(p as int, PAGE_SIZE as int, 512);
    lemma_div_denominator(p as int, L2_SPAN as int, 512);
    lemma_div_denominator(p as int, L3_SPAN as int, 512);
    assert(p as int / L2_SPAN as int == q / 512);
    assert(p as int / L3_SPAN as int == q / 512 / 512);
    assert(p as int / L4_SPAN as int == q / 512 / 512 / 512);
    lemma_fundamental_div_mod(q, 512);
    lemma_fundamental_div_mod(q / 512, 512);
    lemma_fundamental_div_mod(q / 512 / 512, 512);
    lemma_div_is_ordered(p as int, 0x1_0000_0000_0000 - 1, PAGE_SIZE as int);
    lemma_div_is_ordered(q, 0xF_FFFF_FFFF, 512);
    lemma_div_is_ordered(q / 512, 0x7FF_FFFF, 512);
    lemma_div_is_ordered(q / 512 / 512, 0x3_FFFF, 512);
    lemma_div_pos_is_pos(q, 512);
    lemma_div_pos_is_pos(q / 512, 512);
    lemma_div_pos_is_pos(q / 512 / 512, 512);
    lemma_small_mod((q / 512 / 512 / 512) as nat, 512);
}

/// Law: once `map_page` has installed a mapping (its postcondition is
/// this lemma's last premise), translating any address inside the page
/// returns exactly the mapped frame's base plus the address's low-order
/// offset.  For addresses left unmapped, `translate_addr` returns
/// `None` by its own contract, since it returns `resolve` exactly.
pub proof fn lemma_map_establishes_translation(m: Mapper, page: u64, frame: u64, va: u64)
    requires
        page % PAGE_SIZE == 0,
        frame + PAGE_SIZE <= MAX_PHYS_ADDR,
        page <= va < page + PAGE_SIZE,
        forall|v: u64| #[trigger] same_page(v, page)
            ==> m.resolve(v) == Some((frame + v as int % PAGE_SIZE as int) as u64),
    ensures
        m.resolve(va) == Some((frame + (va - page)) as u64),
{
    lemma_page_offset_same_page(page, (va - page) as u64);
}

/// Law: after a page is mapped to a frame, translating every one of its
/// 4096 byte addresses yields exactly the frame's bytes in order: the
/// translations form one contiguous increasing physical range, with no
/// gaps and nothing outside the frame.
pub proof fn lemma_round_trip_contiguous(m: Mapper, page: u64, frame: u64)
    requires
        page % PAGE_SIZE == 0,
        page + PAGE_SIZE - 1 <= u64::MAX,
        frame + PAGE_SIZE <= MAX_PHYS_ADDR,
        forall|va: u64| #[trigger] same_page(va, page)
            ==> m.resolve(va) == Some((frame + va as int % PAGE_SIZE as int) as u64),
    ensures
        forall|off: u64| off < PAGE_SIZE
            ==> #[trigger] m.resolve((page + off) as u64) == Some((frame + off) as u64),
        forall|pa: u64| frame <= pa < frame + PAGE_SIZE
            ==> #[trigger] m.resolve((page + (pa - frame)) as u64) == Some(pa),
{
    assert forall|off: u64| off < PAGE_SIZE implies
        #[trigger] m.resolve((page + off) as u64) == Some((frame + off) as u64) by {
        lemma_page_offset_same_page(page, off);
    }
    assert forall|pa: u64| frame <= pa < frame + PAGE_SIZE implies
        #[trigger] m.resolve((page + (pa - frame)) as u64) == Some(pa) by {
        let off = (pa - frame) as u64;
        lemma_page_offset_same_page(page, off);
        assert(m.resolve((page + off) as u64) == Some(pa));
    }
}

/// Distinct tables occupy distinct frames.
proof fn lemma_frames_index_unique(m: Mapper, i: int, j: int)
    requires
        m.wf(),
        0 <= i < m.table_count(),
        0 <= j < m.table_count(),
        m.table_frames()[i] == m.table_frames()[j],
    ensures
        i == j,
{
    if i < j {
        assert(m.table_frames()[i] != m.table_frames()[j]);
    } else if j < i {
        assert(m.table_frames()[j] != m.table_frames()[i]);
    }
}

/// Writing one previously-unused level-1 slot maps exactly the page
/// whose walk ends in that slot and leaves every other translation
/// unchanged.  The tree shape (each table pointed at by exactly one
/// parent entry) makes the slot reachable by exactly one index path.
#[verifier::rlimit(100)]
#[verifier::spinoff_prover]
proof fn lemma_set_leaf(
    m0: Mapper,
    m1: Mapper,
    page: u64,
    frame: u64,
    t3: int,
    t2: int,
    t1: int,
)
    requires
        m0.wf(),
        m1.wf(),
        0 <= t3 < m0.table_count(),
        0 <= t2 < m0.table_count(),
        0 <= t1 < m0.table_count(),
        entry_present(m0.entry_at(0, l4_index(page))),
        !entry_huge(m0.entry_at(0, l4_index(page))),
        entry_addr(m0.entry_at(0, l4_index(page))) == m0.table_frames()[t3],
        m0.level_of(t3) == 3,
        entry_present(m0.entry_at(t3, l3_index(page))),
        !entry_huge(m0.entry_at(t3, l3_index(page))),
        entry_addr(m0.entry_at(t3, l3_index(page))) == m0.table_frames()[t2],
        m0.level_of(t2) == 2,
        entry_present(m0.entry_at(t2, l2_index(page))),
        !entry_huge(m0.entry_at(t2, l2_index(page))),
        entry_addr(m0.entry_at(t2, l2_index(page))) == m0.table_frames()[t1],
        m0.level_of(t1) == 1,
        !entry_present(m0.entry_at(t1, l1_index(page))),
        m1.table_count() == m0.table_count(),
        m1.table_frames() == m0.table_frames(),
        forall|i: int| 0 <= i < m0.table_count() ==> m1.level_of(i) == m0.level_of(i),
        forall|i: int, k: int|
            0 <= i < m0.table_count() && 0 <= k < 512 && !(i == t1 && k == l1_index(page))
                ==> m1.entry_at(i, k) == m0.entry_at(i, k),
        entry_present(m1.entry_at(t1, l1_index(page))),
        entry_addr(m1.entry_at(t1, l1_index(page))) == frame,
    ensures
        forall|va: u64| #[trigger] same_page(va, page)
            ==> m1.resolve(va) == Some((frame + va as int % PAGE_SIZE as int) as u64),
        forall|va: u64| !same_page(va, page) ==> m1.resolve(va) == m0.resolve(va),
{
    lemma_index_bounds(page);
    let k1 = l1_index(page);
    assert forall|va: u64| #[trigger] same_page(va, page) implies
        m1.resolve(va) == Some((frame + va as int % PAGE_SIZE as int) as u64) by {
        lemma_index_bounds(va);
        assert(m1.entry_at(0, l4_index(va)) == m0.entry_at(0, l4_index(page)));
        lemma_twf_some(m1, t3);
        assert(m1.entry_at(t3, l3_index(va)) == m0.entry_at(t3, l3_index(page)));
        lemma_twf_some(m1, t2);
        assert(m1.entry_at(t2, l2_index(va)) == m0.entry_at(t2, l2_index(page)));
        lemma_twf_some(m1, t1);
    }
    assert forall|va: u64| !same_page(va, page) implies m1.resolve(va) == m0.resolve(va) by {
        lemma_index_bounds(va);
        let e4 = m0.entry_at(0, l4_index(va));
        assert(m1.entry_at(0, l4_index(va)) == e4);
        if entry_present(e4) && !entry_huge(e4) {
            assert(m0.is_parent_entry(0, l4_index(va)));
            assert(m0.is_parent_entry(0, l4_index(page)));
            let a3 = entry_addr(e4);
            let j3 = choose|j: int|
                0 <= j < m0.table_count() && m0.table_frames()[j] == a3
                    && m0.level_of(j) + 1 == m0.level_of(0);
            lemma_twf_some(m0, j3);
            lemma_twf_some(m1, j3);
            assert(m1.table_with_frame(a3) == Some(j3));
            assert(j3 != t1);
            let e3 = m0.entry_at(j3, l3_index(va));
            assert(m1.entry_at(j3, l3_index(va)) == e3);
            if entry_present(e3) && !entry_huge(e3) {
                assert(m0.is_parent_entry(j3, l3_index(va)));
                assert(m0.is_parent_entry(t3, l3_index(page)));
                let a2 = entry_addr(e3);
                let j2 = choose|j: int|
                    0 <= j < m0.table_count() && m0.table_frames()[j] == a2
                        && m0.level_of(j) + 1 == m0.level_of(j3);
                lemma_twf_some(m0, j2);
                lemma_twf_some(m1, j2);
                assert(j2 != t1);
                let e2 = m0.entry_at(j2, l2_index(va));
                assert(m1.entry_at(j2, l2_index(va)) == e2);
                if entry_present(e2) && !entry_huge(e2) {
                    assert(m0.is_parent_entry(j2, l2_index(va)));
                    assert(m0.is_parent_entry(t2, l2_index(page)));
                    let a1 = entry_addr(e2);
                    let j1 = choose|j: int|
                        0 <= j < m0.table_count() && m0.table_frames()[j] == a1
                            && m0.level_of(j) + 1 == m0.level_of(j2);
                    lemma_twf_some(m0, j1);
                    lemma_twf_some(m1, j1);
                    if j1 == t1 {
                        // The same level-1 table: the paths agree above, so
                        // only the level-1 index can differ.
                        assert(a1 == m0.table_frames()[t1]);
                        assert(entry_addr(m0.entry_at(j2, l2_index(va)))
                            == entry_addr(m0.entry_at(t2, l2_index(page))));
                        assert(j2 == t2 && l2_index(va) == l2_index(page));
                        assert(entry_addr(m0.entry_at(j3, l3_index(va)))
                            == entry_addr(m0.entry_at(t3, l3_index(page))));
                        assert(j3 == t3 && l3_index(va) == l3_index(page));
                        assert(entry_addr(m0.entry_at(0, l4_index(va)))
                            == entry_addr(m0.entry_at(0, l4_index(page))));
                        assert(l4_index(va) == l4_index(page));
                        assert(l1_index(va) != k1);
                        assert(m1.entry_at(t1, l1_index(va)) == m0.entry_at(t1, l1_index(va)));
                    } else {
                        assert(m1.entry_at(j1, l1_index(va)) == m0.entry_at(j1, l1_index(va)));
                    }
                }
            }
        }
    }
}

/// The address field of an entry is never above the raw entry value, so
/// a bounded entry leaves room for any in-page offset.
proof fn lemma_entry_addr_bound(e: u64)
    ensures
        entry_addr(e) <= e,
{
    lemma_fundamental_div_mod(e as int, 4096);
    lemma_mod_bound(e as int, 4096);
}

/// A table with all 512 entries unused.
fn zeroed_table() -> (v: Vec<u64>)
    ensures
        v@.len() == 512,
        forall|k: int| 0 <= k < 512 ==> v@[k] == 0u64,
{
    let mut v: Vec<u64> = Vec::new();
    while v.len() < ENTRY_COUNT
        invariant
            v@.len() <= 512,
            forall|k: int| 0 <= k < v@.len() ==> v@[k] == 0u64,
        decreases 512 - v@.len(),
    {
        v.push(0);
    }
    v
}

} // verus!
