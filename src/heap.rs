//! The kernel heap: a first-fit free-list allocator over a fixed region.
//!
//! The free list holds disjoint spans of the region. An allocation takes the
//! first span that can hold the request once its start is rounded up to the
//! alignment; what is left before and after the allocation goes back on the
//! list as up to two smaller spans. A freed block is put back on the list as
//! it is: neighbouring spans are not merged, so a long run of small frees
//! can leave the region split into pieces too small for a later large
//! request. Every freed block can be handed out again.
use vstd::prelude::*;
use crate::frame::{FrameAllocator, FRAME_SIZE, aligned};
use crate::paging::{MapError, Page, PageTable};

verus! {

/// A span `[start, start + size)` of the heap region.
#[derive(Debug, Clone, Copy, PartialEq, Eq, Structural)]
pub struct Block {
    pub start: u64,
    pub size: u64,
}

/// Why an allocation failed.
#[derive(Debug, Clone, Copy, PartialEq, Eq, Structural)]
pub enum AllocError {
    OutOfMemory,
}

pub open spec fn disjoint(a: (int, int), b: (int, int)) -> bool {
    a.0 + a.1 <= b.0 || b.0 + b.1 <= a.0
}

pub open spec fn span(b: Block) -> (int, int) {
    (b.start as int, b.size as int)
}

/// The padding that moves `start` up to the next multiple of `align`.
pub open spec fn padding(start: int, align: int) -> int {
    (align - start % align) % align
}

/// The block `b` can hold `size` bytes at a start aligned to `align`.
pub open spec fn fits(b: Block, size: int, align: int) -> bool {
    padding(b.start as int, align) + size <= b.size
}

proof fn lemma_padding_aligns(x: int, a: int)
    requires
        x >= 0,
        a > 0,
    ensures
        0 <= padding(x, a) < a,
        (x + padding(x, a)) % a == 0,
{
    let r = x % a;
    vstd::arithmetic::div_mod::lemma_fundamental_div_mod(x, a);
    vstd::arithmetic::div_mod::lemma_mod_pos_bound(x, a);
    if r == 0 {
        vstd::arithmetic::div_mod::lemma_mod_self_0(a);
        assert(padding(x, a) == 0);
    } else {
        vstd::arithmetic::div_mod::lemma_small_mod((a - r) as nat, a as nat);
        assert(padding(x, a) == a - r);
        assert(x + (a - r) == a * (x / a + 1)) by (nonlinear_arith)
            requires
                x == a * (x / a) + r,
        ;
        vstd::arithmetic::div_mod::lemma_mod_multiples_basic(x / a + 1, a);
    }
}

pub struct Heap {
    heap_start: u64,
    heap_size: u64,
    free: Vec<Block>,
    live: Ghost<Set<(int, int)>>,
}

impl Heap {
    pub closed spec fn region(&self) -> (int, int) {
        (self.heap_start as int, self.heap_size as int)
    }

    /// The free spans, in list order.
    pub closed spec fn free_blocks(&self) -> Seq<Block> {
        self.free@
    }

    /// The allocations handed out and not yet freed, as (start, size).
    pub closed spec fn live(&self) -> Set<(int, int)> {
        self.live@
    }

    pub open spec fn inside(&self, s: (int, int)) -> bool {
        &&& s.1 > 0
        &&& self.region().0 <= s.0
        &&& s.0 + s.1 <= self.region().0 + self.region().1
    }

    /// Free spans and live allocations lie in the region and never overlap.
    pub open spec fn wf(&self) -> bool {
        &&& self.region().0 + self.region().1 <= u64::MAX
        &&& forall|i: int|
            0 <= i < self.free_blocks().len() ==> self.inside(span(#[trigger] self.free_blocks()[i]))
        &&& forall|i: int, j: int|
            0 <= i < self.free_blocks().len() && 0 <= j < self.free_blocks().len() && i != j
                ==> disjoint(span(#[trigger] self.free_blocks()[i]), span(#[trigger] self.free_blocks()[j]))
        &&& forall|s: (int, int)| #[trigger] self.live().contains(s) ==> self.inside(s)
        &&& forall|s: (int, int), i: int|
            #[trigger] self.live().contains(s) && 0 <= i < self.free_blocks().len() ==> disjoint(
                s,
                span(#[trigger] self.free_blocks()[i]),
            )
        &&& forall|s: (int, int), t: (int, int)|
            #[trigger] self.live().contains(s) && #[trigger] self.live().contains(t) && s != t
                ==> disjoint(s, t)
    }

    /// A heap over `[start, start + size)` with the whole region free.
    pub fn new(start: u64, size: u64) -> (r: Self)
        requires
            start + size <= u64::MAX,
        ensures
            r.wf(),
            r.region() == (start as int, size as int),
            r.live() == Set::<(int, int)>::empty(),
            size > 0 ==> r.free_blocks() == seq![Block { start, size }],
            size == 0 ==> r.free_blocks() == Seq::<Block>::empty(),
    {
        let mut free: Vec<Block> = Vec::new();
        if size > 0 {
            free.push(Block { start, size });
        }
        Heap { heap_start: start, heap_size: size, free, live: Ghost(Set::empty()) }
    }

    pub fn start(&self) -> (r: u64)
        ensures
            r == self.region().0,
    {
        self.heap_start
    }

    pub fn size(&self) -> (r: u64)
        ensures
            r == self.region().1,
    {
        self.heap_size
    }

    /// Number of spans on the free list.
    pub fn free_count(&self) -> (r: usize)
        ensures
            r == self.free_blocks().len(),
    {
        self.free.len()
    }

    /// Hands out `size` bytes aligned to `align` from the first free span
    /// that can hold them; `OutOfMemory` when no span can.
    pub fn allocate(&mut self, size: u64, align: u64) -> (r: Result<u64, AllocError>)
        requires
            old(self).wf(),
            size > 0,
            align > 0,
        ensures
            final(self).wf(),
            final(self).region() == old(self).region(),
            match r {
                Ok(p) => {
                    &&& p % align == 0
                    &&& old(self).inside((p as int, size as int))
                    &&& forall|s: (int, int)| #[trigger]
                        old(self).live().contains(s) ==> disjoint(s, (p as int, size as int))
                    &&& final(self).live() == old(self).live().insert((p as int, size as int))
                    &&& exists|i: int|
                        0 <= i < old(self).free_blocks().len() && #[trigger] fits(
                            old(self).free_blocks()[i],
                            size as int,
                            align as int,
                        ) && (forall|j: int|
                            0 <= j < i ==> !fits(old(self).free_blocks()[j], size as int, align as int))
                            && p == old(self).free_blocks()[i].start + padding(
                            old(self).free_blocks()[i].start as int,
                            align as int,
                        )
                },
                Err(e) => {
                    &&& e == AllocError::OutOfMemory
                    &&& *final(self) == *old(self)
                    &&& forall|i: int|
                        0 <= i < old(self).free_blocks().len() ==> !#[trigger] fits(
                            old(self).free_blocks()[i],
                            size as int,
                            align as int,
                        )
                },
            },
    {
        let mut i: usize = 0;
        while i < self.free.len()
            invariant
                self.wf(),
                *self == *old(self),
                size > 0,
                align > 0,
                0 <= i <= self.free_blocks().len(),
                forall|j: int| 0 <= j < i ==> !#[trigger] fits(self.free_blocks()[j], size as int, align as int),
            decreases self.free_blocks().len() - i,
        {
            let b = self.free[i];
            let pad = (align - b.start % align) % align;
            if pad <= b.size && size <= b.size - pad {
                assert(fits(b, size as int, align as int));
                let ghost first = i as int;
                let p = b.start + pad;
                let rest = b.size - pad - size;
                proof {
                    assert(self.inside(span(b)));
                    lemma_padding_aligns(b.start as int, align as int);
                }
                let ghost pre = *self;
                let ghost s = (p as int, size as int);
                self.free.remove(i);
                if pad > 0 {
                    self.free.push(Block { start: b.start, size: pad });
                }
                if rest > 0 {
                    self.free.push(Block { start: p + size, size: rest });
                }
                self.live = Ghost(self.live@.insert(s));
                proof {
                    self.lemma_split_keeps_wf(pre, i as int, b, pad as int, s, rest as int);
                    assert(pre.free_blocks()[first] == b);
                }
                return Ok(p);
            }
            i = i + 1;
        }
        Err(AllocError::OutOfMemory)
    }

    proof fn lemma_split_keeps_wf(&self, pre: Heap, i: int, b: Block, pad: int, s: (int, int), rest: int)
        requires
            pre.wf(),
            0 <= i < pre.free_blocks().len(),
            b == pre.free_blocks()[i],
            pad >= 0,
            rest >= 0,
            s.0 == b.start + pad,
            s.1 > 0,
            s.0 + s.1 + rest == b.start + b.size,
            self.region() == pre.region(),
            self.live() == pre.live().insert(s),
            ({
                let base = pre.free_blocks().remove(i);
                let with_front = if pad > 0 {
                    base.push(Block { start: b.start, size: pad as u64 })
                } else {
                    base
                };
                self.free_blocks() == if rest > 0 {
                    with_front.push(Block { start: (s.0 + s.1) as u64, size: rest as u64 })
                } else {
                    with_front
                }
            }),
        ensures
            self.wf(),
            forall|t: (int, int)| #[trigger] pre.live().contains(t) ==> disjoint(t, s),
    {
        let old_free = pre.free_blocks();
        let nf = self.free_blocks();
        assert(pre.inside(span(b)));
        assert forall|t: (int, int)| #[trigger] pre.live().contains(t) implies disjoint(t, s) by {
            assert(disjoint(t, span(pre.free_blocks()[i])));
        }
        // Every span of the new list is an old span other than `b`, or a part of `b`.
        assert forall|k: int| 0 <= k < nf.len() implies {
            ||| exists|j: int| 0 <= j < old_free.len() && j != i && nf[k] == old_free[j]
            ||| (b.start <= nf[k].start && nf[k].start + nf[k].size <= b.start + b.size
                && disjoint(span(nf[k]), s))
        } by {
            if k < old_free.len() - 1 {
                if k < i {
                    assert(nf[k] == old_free[k]);
                } else {
                    assert(nf[k] == old_free[k + 1]);
                }
            }
        }
        assert forall|k: int| 0 <= k < nf.len() implies self.inside(span(#[trigger] nf[k])) by {
            if k < old_free.len() - 1 {
                if k < i {
                    assert(nf[k] == old_free[k]);
                } else {
                    assert(nf[k] == old_free[k + 1]);
                }
            }
        }
        assert forall|k: int, l: int|
            0 <= k < nf.len() && 0 <= l < nf.len() && k != l implies disjoint(
            span(#[trigger] nf[k]),
            span(#[trigger] nf[l]),
        ) by {
            let n = old_free.len() - 1;
            let ok = if k < i { k } else { k + 1 };
            let ol = if l < i { l } else { l + 1 };
            if k < n {
                assert(nf[k] == old_free[ok]);
                assert(disjoint(span(old_free[ok]), span(b)));
            }
            if l < n {
                assert(nf[l] == old_free[ol]);
                assert(disjoint(span(old_free[ol]), span(b)));
            }
        }
        assert forall|t: (int, int), k: int|
            #[trigger] self.live().contains(t) && 0 <= k < nf.len() implies disjoint(
            t,
            span(#[trigger] nf[k]),
        ) by {
            let n = old_free.len() - 1;
            let ok = if k < i { k } else { k + 1 };
            if k < n {
                assert(nf[k] == old_free[ok]);
                assert(disjoint(span(old_free[ok]), span(b)));
            }
            if t != s {
                assert(pre.live().contains(t));
                assert(disjoint(t, span(b)));
            }
        }
        assert forall|t: (int, int), u: (int, int)|
            #[trigger] self.live().contains(t) && #[trigger] self.live().contains(u) && t != u
                implies disjoint(t, u) by {
            if t != s && u != s {
                assert(pre.live().contains(t));
                assert(pre.live().contains(u));
            } else if t == s {
                assert(pre.live().contains(u));
                assert(disjoint(u, span(b)));
            } else {
                assert(pre.live().contains(t));
                assert(disjoint(t, span(b)));
            }
        }
    }

    /// Gives back the allocation at `ptr` of `size` bytes. The span goes to
    /// the end of the free list, unmerged.
    pub fn deallocate(&mut self, ptr: u64, size: u64, align: u64)
        requires
            old(self).wf(),
            old(self).live().contains((ptr as int, size as int)),
        ensures
            final(self).wf(),
            final(self).region() == old(self).region(),
            final(self).live() == old(self).live().remove((ptr as int, size as int)),
            final(self).free_blocks() == old(self).free_blocks().push(Block { start: ptr, size }),
    {
        let ghost pre = *self;
        let ghost s = (ptr as int, size as int);
        self.free.push(Block { start: ptr, size });
        self.live = Ghost(self.live@.remove(s));
        proof {
            let nf = self.free_blocks();
            assert(span(nf[nf.len() - 1]) == s);
            assert forall|k: int| 0 <= k < nf.len() implies self.inside(span(#[trigger] nf[k])) by {
                if k < nf.len() - 1 {
                    assert(nf[k] == pre.free_blocks()[k]);
                }
            }
            assert forall|k: int, l: int|
                0 <= k < nf.len() && 0 <= l < nf.len() && k != l implies disjoint(
                span(#[trigger] nf[k]),
                span(#[trigger] nf[l]),
            ) by {
                if k < nf.len() - 1 {
                    assert(nf[k] == pre.free_blocks()[k]);
                }
                if l < nf.len() - 1 {
                    assert(nf[l] == pre.free_blocks()[l]);
                }
            }
            assert forall|t: (int, int), k: int|
                #[trigger] self.live().contains(t) && 0 <= k < nf.len() implies disjoint(
                t,
                span(#[trigger] nf[k]),
            ) by {
                assert(pre.live().contains(t));
                if k < nf.len() - 1 {
                    assert(nf[k] == pre.free_blocks()[k]);
                }
            }
        }
    }
}

/// Flag bits of a heap page: present and writable.
pub const HEAP_PAGE_FLAGS: u64 = 0b11;

/// Every address of `[start, start + size)` has a translation in `t`.
pub open spec fn region_mapped(t: PageTable, start: int, size: int) -> bool {
    forall|a: u64| start <= a < start + size ==> (#[trigger] t.translate_spec(a)) is Some
}

/// Maps every page of `[start, start + size)` to a fresh frame from
/// `frames`, then makes a heap over that region with all of it free. Fails
/// with the first mapping error; pages mapped before it stay mapped.
pub fn init_heap(start: u64, size: u64, table: &mut PageTable, frames: &mut FrameAllocator) -> (r:
    Result<Heap, MapError>)
    requires
        old(table).wf(),
        aligned(start as int),
        aligned(size as int),
        start + size <= u64::MAX,
    ensures
        final(table).wf(),
        final(table).root_spec() == old(table).root_spec(),
        final(frames).regions() == old(frames).regions(),
        old(frames).allocated().subset_of(final(frames).allocated()),
        forall|a: u64|
            !(start <= a < start + size) ==> #[trigger] final(table).translate_spec(a) == old(
                table,
            ).translate_spec(a),
        match r {
            Ok(h) => {
                &&& h.wf()
                &&& h.region() == (start as int, size as int)
                &&& h.live() == Set::<(int, int)>::empty()
                &&& size > 0 ==> h.free_blocks() == seq![Block { start, size }]
                &&& region_mapped(*final(table), start as int, size as int)
            },
            Err(MapError::FrameAllocationFailed) => final(frames).exhausted(),
            Err(_) => exists|a: u64|
                start <= a < start + size && (#[trigger] old(table).translate_spec(a)) is Some,
        },
{
    let mut off: u64 = 0;
    while off < size
        invariant
            table.wf(),
            aligned(start as int),
            aligned(size as int),
            start + size <= u64::MAX,
            aligned(off as int),
            off <= size,
            table.root_spec() == old(table).root_spec(),
            frames.regions() == old(frames).regions(),
            old(frames).allocated().subset_of(frames.allocated()),
            region_mapped(*table, start as int, off as int),
            forall|a: u64|
                !(start <= a < start + off) ==> #[trigger] table.translate_spec(a) == old(
                    table,
                ).translate_spec(a),
        decreases size - off,
    {
        let page = start + off;
        let ghost pre = *table;
        match frames.allocate_frame() {
            None => {
                return Err(MapError::FrameAllocationFailed);
            },
            Some(f) => {
                match table.map(Page { start: page }, f, HEAP_PAGE_FLAGS, frames) {
                    Err(e) => {
                        proof {
                            let n = (page / FRAME_SIZE) as u64;
                            if e != MapError::FrameAllocationFailed {
                                if pre.page_mapped(n) {
                                    assert(pre.level1().contains_key(n));
                                    assert(!pre.level2()[(n / 512) as u64].huge);
                                }
                                assert(pre.translate_spec(page) is Some);
                                assert(old(table).translate_spec(page) is Some);
                            }
                        }
                        return Err(e);
                    },
                    Ok(()) => {
                        proof {
                            assert forall|a: u64| start <= a < start + off + FRAME_SIZE implies (
                            #[trigger] table.translate_spec(a)) is Some by {
                                if a >= page {
                                    assert(a / FRAME_SIZE == page / FRAME_SIZE);
                                } else {
                                    assert(a / FRAME_SIZE != page / FRAME_SIZE);
                                    assert(pre.translate_spec(a) is Some);
                                }
                            }
                            assert forall|a: u64| !(start <= a < start + off + FRAME_SIZE) implies
                                #[trigger] table.translate_spec(a) == old(table).translate_spec(a) by {
                                assert(a / FRAME_SIZE != page / FRAME_SIZE);
                                assert(pre.translate_spec(a) == old(table).translate_spec(a));
                            }
                        }
                        off = off + FRAME_SIZE;
                    },
                }
            },
        }
    }
    Ok(Heap::new(start, size))
}

/// No two live allocations of a well-formed heap overlap, whatever
/// sequence of allocations and frees produced it.
pub proof fn lemma_live_allocations_disjoint(h: Heap, s: (int, int), t: (int, int))
    requires
        h.wf(),
        h.live().contains(s),
        h.live().contains(t),
        s != t,
    ensures
        disjoint(s, t),
{
}

} // verus!
