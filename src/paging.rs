//! Page tables: translation of virtual addresses and creation of mappings.
//!
//! The four-level x86-64 hierarchy is kept as one map per level, keyed by
//! the prefix of the virtual page number that selects the entry: a level-1
//! entry by the page number `n`, a level-2 entry by `n / 512`, a level-3
//! entry by `n / 512 / 512`, and a level-4 entry by `n / 512 / 512 / 512`.
//! An entry exists only where its parent entry exists, so every present
//! entry hangs off the root. Intermediate tables are taken from the frame
//! allocator when first needed; a freshly taken table is empty.
use std::collections::HashMap;
use vstd::prelude::*;
use crate::frame::{FrameAllocator, PhysAddr, PhysFrame, FRAME_SIZE, aligned};

verus! {

broadcast use vstd::std_specs::hash::group_hash_axioms;

/// Number of entries in one table.
pub const ENTRIES: u64 = 512;

/// Size in bytes of a huge page mapped by a level-2 entry.
pub const HUGE_PAGE_SIZE: u64 = 0x20_0000;

/// A virtual address.
#[derive(Debug, Clone, Copy, PartialEq, Eq, Structural)]
pub struct VirtAddr(pub u64);

/// A 4 KiB virtual page, named by its first address.
#[derive(Debug, Clone, Copy, PartialEq, Eq, Structural)]
pub struct Page {
    pub start: u64,
}

/// Why a mapping could not be made.
#[derive(Debug, Clone, Copy, PartialEq, Eq, Structural)]
pub enum MapError {
    /// The frame allocator ran out while a missing table was being made.
    FrameAllocationFailed,
    /// The page already has a mapping.
    AlreadyMapped,
    /// A level-2 entry on the way is a huge page, not a table.
    HugePage,
}

/// A level-2 entry: either the frame of a level-1 table, or a huge page.
#[derive(Debug, Clone, Copy, PartialEq, Eq, Structural)]
pub struct TableEntry {
    pub frame: u64,
    pub huge: bool,
}

/// A level-1 entry: the frame a page maps to, with its flag bits.
#[derive(Debug, Clone, Copy, PartialEq, Eq, Structural)]
pub struct Mapping {
    pub frame: u64,
    pub flags: u64,
}

pub open spec fn page_number(addr: int) -> int {
    addr / (FRAME_SIZE as int)
}

pub open spec fn parent_key(k: int) -> int {
    k / (ENTRIES as int)
}

pub struct PageTable {
    root: PhysFrame,
    l4: HashMap<u64, u64>,
    l3: HashMap<u64, u64>,
    l2: HashMap<u64, TableEntry>,
    l1: HashMap<u64, Mapping>,
}

impl PageTable {
    pub closed spec fn root_spec(&self) -> PhysFrame {
        self.root
    }

    pub closed spec fn level4(&self) -> Map<u64, u64> {
        self.l4@
    }

    pub closed spec fn level3(&self) -> Map<u64, u64> {
        self.l3@
    }

    pub closed spec fn level2(&self) -> Map<u64, TableEntry> {
        self.l2@
    }

    pub closed spec fn level1(&self) -> Map<u64, Mapping> {
        self.l1@
    }

    /// Every entry hangs off a present parent table entry, and every frame
    /// an entry names is aligned for what it maps.
    pub open spec fn wf(&self) -> bool {
        &&& forall|k: u64| #[trigger]
            self.level3().contains_key(k) ==> self.level4().contains_key(
                (k / ENTRIES) as u64,
            )
        &&& forall|k: u64| #[trigger]
            self.level2().contains_key(k) ==> self.level3().contains_key(
                (k / ENTRIES) as u64,
            )
        &&& forall|k: u64| #[trigger]
            self.level1().contains_key(k) ==> {
                &&& self.level2().contains_key((k / ENTRIES) as u64)
                &&& !self.level2()[(k / ENTRIES) as u64].huge
            }
        &&& forall|k: u64| #[trigger]
            self.level2().contains_key(k) && self.level2()[k].huge ==> self.level2()[k].frame
                + HUGE_PAGE_SIZE <= u64::MAX + 1
        &&& forall|k: u64| #[trigger]
            self.level1().contains_key(k) ==> self.level1()[k].frame + FRAME_SIZE <= u64::MAX
                + 1
    }

    /// The page number `n` has a level-1 mapping.
    pub open spec fn page_mapped(&self, n: u64) -> bool {
        self.level1().contains_key(n)
    }

    /// The physical address that `addr` translates to, if any.
    pub open spec fn translate_spec(&self, addr: u64) -> Option<int> {
        let n = (addr / FRAME_SIZE) as u64;
        let k2 = (n / ENTRIES) as u64;
        if self.level2().contains_key(k2) && self.level2()[k2].huge {
            Some(self.level2()[k2].frame + addr % HUGE_PAGE_SIZE)
        } else if self.level1().contains_key(n) {
            Some(self.level1()[n].frame + addr % FRAME_SIZE)
        } else {
            None
        }
    }

    /// An empty hierarchy rooted at `root`.
    pub fn new(root: PhysFrame) -> (r: Self)
        ensures
            r.wf(),
            r.root_spec() == root,
            forall|a: u64| r.translate_spec(a) is None,
    {
        PageTable { root, l4: HashMap::new(), l3: HashMap::new(), l2: HashMap::new(), l1: HashMap::new() }
    }

    /// The frame of the top-level table.
    pub fn root(&self) -> (r: PhysFrame)
        ensures
            r == self.root_spec(),
    {
        self.root
    }

    /// Walks the hierarchy from the root; `None` where `addr` is unmapped.
    pub fn translate(&self, addr: VirtAddr) -> (r: Option<PhysAddr>)
        requires
            self.wf(),
        ensures
            match self.translate_spec(addr.0) {
                Some(p) => r == Some(PhysAddr(p as u64)),
                None => r is None,
            },
    {
        let n = addr.0 / FRAME_SIZE;
        let k2 = n / ENTRIES;
        let k3 = k2 / ENTRIES;
        let k4 = k3 / ENTRIES;
        if !self.l4.contains_key(&k4) {
            return None;
        }
        if !self.l3.contains_key(&k3) {
            return None;
        }
        match self.l2.get(&k2) {
            None => None,
            Some(e) => {
                if e.huge {
                    Some(PhysAddr(e.frame + addr.0 % HUGE_PAGE_SIZE))
                } else {
                    match self.l1.get(&n) {
                        None => None,
                        Some(m) => Some(PhysAddr(m.frame + addr.0 % FRAME_SIZE)),
                    }
                }
            },
        }
    }

    /// Makes sure the level-4 and level-3 entries above the level-2 key
    /// `k2` exist, taking a frame for each one that is missing.
    fn ensure_upper(&mut self, k2: u64, alloc: &mut FrameAllocator) -> (r: Result<(), MapError>)
        requires
            old(self).wf(),
        ensures
            final(self).wf(),
            final(self).root_spec() == old(self).root_spec(),
            final(self).level2() == old(self).level2(),
            final(self).level1() == old(self).level1(),
            final(alloc).regions() == old(alloc).regions(),
            old(alloc).allocated().subset_of(final(alloc).allocated()),
            old(self).level3().contains_key(k2 / ENTRIES) ==> r is Ok && *final(alloc) == *old(alloc),
            match r {
                Ok(()) => final(self).level3().contains_key(k2 / ENTRIES),
                Err(e) => e == MapError::FrameAllocationFailed && final(alloc).exhausted(),
            },
    {
        let k3 = k2 / ENTRIES;
        let k4 = k3 / ENTRIES;
        proof {
            if old(self).level3().contains_key(k3) {
                assert(old(self).level4().contains_key(k4));
            }
        }
        if !self.l4.contains_key(&k4) {
            match alloc.allocate_frame() {
                None => return Err(MapError::FrameAllocationFailed),
                Some(f) => {
                    self.l4.insert(k4, f.start);
                    assert(self.level4() == old(self).level4().insert(k4, f.start));
                    assert(self.level3() == old(self).level3());
                    assert(self.level2() == old(self).level2());
                    assert(self.level1() == old(self).level1());
                },
            }
        }
        if !self.l3.contains_key(&k3) {
            match alloc.allocate_frame() {
                None => return Err(MapError::FrameAllocationFailed),
                Some(f) => {
                    let ghost pre = *self;
                    self.l3.insert(k3, f.start);
                    assert(self.level4() == pre.level4());
                    assert(self.level2() == pre.level2());
                    assert(self.level1() == pre.level1());
                    assert forall|k: u64| #[trigger]
                        self.level3().contains_key(k) implies self.level4().contains_key(
                            (k / ENTRIES) as u64,
                        ) by {
                        if k != k3 {
                            assert(pre.level3().contains_key(k));
                        }
                    }
                },
            }
        }
        Ok(())
    }

    /// Maps `page` to `frame`. Missing tables on the way are taken from
    /// `alloc`; a page that is already mapped is left alone.
    pub fn map(&mut self, page: Page, frame: PhysFrame, flags: u64, alloc: &mut FrameAllocator)
        -> (r: Result<(), MapError>)
        requires
            old(self).wf(),
            aligned(page.start as int),
            aligned(frame.start as int),
        ensures
            final(self).wf(),
            final(self).root_spec() == old(self).root_spec(),
            final(alloc).regions() == old(alloc).regions(),
            old(alloc).allocated().subset_of(final(alloc).allocated()),
            old(self).page_mapped((page.start / FRAME_SIZE) as u64) ==> r == Err::<(), MapError>(
                MapError::AlreadyMapped,
            ) && *final(self) == *old(self) && *final(alloc) == *old(alloc),
            !old(self).page_mapped((page.start / FRAME_SIZE) as u64) && old(self).translate_spec(
                page.start,
            ) is Some ==> r == Err::<(), MapError>(MapError::HugePage) && *final(self) == *old(
                self,
            ) && *final(alloc) == *old(alloc),
            old(self).translate_spec(page.start) is None ==> r is Ok || (r == Err::<(), MapError>(
                MapError::FrameAllocationFailed,
            ) && final(alloc).exhausted()),
            old(self).level2().contains_key(((page.start / FRAME_SIZE) / ENTRIES) as u64)
                ==> *final(alloc) == *old(alloc),
            r is Ok ==> final(self).page_mapped((page.start / FRAME_SIZE) as u64) && forall|
                a: u64,
            |
                a / FRAME_SIZE == page.start / FRAME_SIZE ==> #[trigger] final(self).translate_spec(a)
                    == Some(frame.start + a % FRAME_SIZE),
            forall|a: u64|
                r is Err || a / FRAME_SIZE != page.start / FRAME_SIZE
                    ==> #[trigger] final(self).translate_spec(a) == old(self).translate_spec(a),
    {
        let n = page.start / FRAME_SIZE;
        let k2 = n / ENTRIES;
        if self.l1.contains_key(&n) {
            return Err(MapError::AlreadyMapped);
        }
        match self.l2.get(&k2) {
            Some(e) => {
                if e.huge {
                    return Err(MapError::HugePage);
                }
            },
            None => {},
        }
        proof {
            assert(old(self).translate_spec(page.start) is None);
        }
        let up = self.ensure_upper(k2, alloc);
        match up {
            Err(e) => return Err(e),
            Ok(()) => {},
        }
        if !self.l2.contains_key(&k2) {
            match alloc.allocate_frame() {
                None => return Err(MapError::FrameAllocationFailed),
                Some(f) => {
                    self.l2.insert(k2, TableEntry { frame: f.start, huge: false });
                },
            }
        }
        self.l1.insert(n, Mapping { frame: frame.start, flags });
        Ok(())
    }

    /// Maps the 2 MiB huge page starting at `page` to the 2 MiB frame run
    /// starting at `frame`, with one level-2 entry.
    pub fn map_huge(&mut self, page: Page, frame: PhysFrame, alloc: &mut FrameAllocator) -> (r:
        Result<(), MapError>)
        requires
            old(self).wf(),
            page.start % HUGE_PAGE_SIZE == 0,
            frame.start % HUGE_PAGE_SIZE == 0,
        ensures
            final(self).wf(),
            final(self).root_spec() == old(self).root_spec(),
            final(alloc).regions() == old(alloc).regions(),
            old(alloc).allocated().subset_of(final(alloc).allocated()),
            old(self).level2().contains_key(((page.start / FRAME_SIZE) / ENTRIES) as u64)
                ==> r == Err::<(), MapError>(MapError::AlreadyMapped) && *final(self) == *old(self)
                && *final(alloc) == *old(alloc),
            !old(self).level2().contains_key(((page.start / FRAME_SIZE) / ENTRIES) as u64) ==> r is Ok
                || (r == Err::<(), MapError>(MapError::FrameAllocationFailed)
                && final(alloc).exhausted()),
            r is Ok ==> forall|a: u64|
                (a / FRAME_SIZE) / ENTRIES == (page.start / FRAME_SIZE) / ENTRIES
                    ==> #[trigger] final(self).translate_spec(a) == Some(
                    frame.start + a % HUGE_PAGE_SIZE,
                ),
            forall|a: u64|
                r is Err || (a / FRAME_SIZE) / ENTRIES != (page.start / FRAME_SIZE) / ENTRIES
                    ==> #[trigger] final(self).translate_spec(a) == old(self).translate_spec(a),
    {
        let k2 = page.start / FRAME_SIZE / ENTRIES;
        if self.l2.contains_key(&k2) {
            return Err(MapError::AlreadyMapped);
        }
        let up = self.ensure_upper(k2, alloc);
        match up {
            Err(e) => return Err(e),
            Ok(()) => {},
        }
        let ghost pre = *self;
        self.l2.insert(k2, TableEntry { frame: frame.start, huge: true });
        assert forall|k: u64| #[trigger]
            self.level1().contains_key(k) implies self.level2().contains_key((k / ENTRIES) as u64)
                && !self.level2()[(k / ENTRIES) as u64].huge by {
            assert(pre.level1().contains_key(k));
        }
        Ok(())
    }
}

/// Once a page has a level-1 mapping, every address in it translates to
/// the same offset in the mapped frame.
pub proof fn lemma_mapped_page_translates(t: PageTable, a: u64)
    requires
        t.wf(),
        t.page_mapped((a / FRAME_SIZE) as u64),
    ensures
        t.translate_spec(a) == Some(t.level1()[(a / FRAME_SIZE) as u64].frame + a % FRAME_SIZE),
{
    let n = (a / FRAME_SIZE) as u64;
    assert(t.level1().contains_key(n));
    assert(!t.level2()[(n / ENTRIES) as u64].huge);
}

} // verus!
