//! A simple bump allocator for physical memory used during early boot.
use vstd::prelude::*;
use core::ops::Range;
use crate::arch::PAGE_SIZE;
use crate::err::{Error, Result};
use super::pt::PageTableAlloc;
use super::types::{Layout, PhysAddr, PhysFrameNum};

verus! {

/// Hands out physical memory from a fixed range by bumping a cursor; memory is never freed.
pub struct BootHeap {
    base: PhysAddr,
    cur: PhysAddr,
    end: PhysAddr,
}

impl BootHeap {
    /// The first address of the heap.
    pub closed spec fn spec_base(&self) -> usize {
        self.base@
    }

    /// The first address not yet handed out.
    pub closed spec fn spec_cur(&self) -> usize {
        self.cur@
    }

    /// The end of the heap.
    pub closed spec fn spec_end(&self) -> usize {
        self.end@
    }

    /// The cursor always lies inside the heap.
    #[verifier::type_invariant]
    closed spec fn wf(&self) -> bool {
        &&& self.base@ <= self.cur@ <= self.end@
        &&& self.end@ + PAGE_SIZE <= usize::MAX
    }

    /// The base address that an allocation with `layout` would receive.
    pub open spec fn spec_aligned_cur(&self, layout: Layout) -> int {
        ((self.spec_cur() + layout.spec_align() - 1) / layout.spec_align() as int) * layout.spec_align()
    }

    /// Whether an allocation with `layout` fits in the remaining space.
    pub open spec fn can_alloc(&self, layout: Layout) -> bool {
        &&& self.spec_cur() + layout.spec_align() <= usize::MAX
        &&& self.spec_aligned_cur(layout) <= self.spec_end()
        &&& layout.spec_size() <= self.spec_end() - self.spec_aligned_cur(layout)
    }

    /// Creates a heap handing out memory from `range`, whose end must leave room for one more
    /// page: what the heap hands out is later reserved rounded up to whole frames.
    pub fn new(range: Range<PhysAddr>) -> (r: Self)
        requires
            range.start@ <= range.end@,
            range.end@ + PAGE_SIZE <= usize::MAX,
        ensures
            r.spec_base() == range.start@,
            r.spec_cur() == range.start@,
            r.spec_end() == range.end@,
    {
        Self { base: range.start, cur: range.start, end: range.end }
    }

    /// The full range of the heap.
    pub fn range(&self) -> (r: Range<PhysAddr>)
        ensures
            r.start@ == self.spec_base(),
            r.end@ == self.spec_end(),
    {
        self.base..self.end
    }

    /// The part of the heap handed out so far.
    pub fn used_range(&self) -> (r: Range<PhysAddr>)
        ensures
            r.start@ == self.spec_base(),
            r.end@ == self.spec_cur(),
            r.start@ <= r.end@,
            r.end@ <= self.spec_end(),
            r.end@ + PAGE_SIZE <= usize::MAX,
    {
        proof {
            use_type_invariant(self);
        }
        self.base..self.cur
    }

    /// Allocates memory for `layout`, returning its base address.
    pub fn alloc_phys(&mut self, layout: Layout) -> (r: PhysAddr)
        requires
            layout.wf(),
            old(self).can_alloc(layout),
        ensures
            r@ == old(self).spec_aligned_cur(layout),
            r@ % layout.spec_align() == 0,
            r@ >= old(self).spec_cur(),
            final(self).spec_cur() == r@ + layout.spec_size(),
            final(self).spec_base() == old(self).spec_base(),
            final(self).spec_end() == old(self).spec_end(),
    {
        proof {
            layout.lemma_wf();
            use_type_invariant(&*self);
        }
        let base = self.cur.align_up(layout.align());
        self.cur = base.plus(layout.size());
        base
    }

    /// Whether an allocation with `layout` fits, checked at run time.
    pub fn fits(&self, layout: Layout) -> (r: bool)
        requires
            layout.wf(),
        ensures
            r == self.can_alloc(layout),
    {
        proof {
            layout.lemma_wf();
            use_type_invariant(self);
        }
        if self.cur.as_usize() > usize::MAX - layout.align() {
            return false;
        }
        let base = self.cur.align_up(layout.align());
        base.as_usize() <= self.end.as_usize() && layout.size() <= self.end.as_usize()
            - base.as_usize()
    }
}

impl PageTableAlloc for BootHeap {
    /// The boot heap can always be asked for a table; it reports exhaustion as an error.
    open spec fn ready(&self) -> bool {
        true
    }

    /// The frames lying wholly or partly in the part of the heap not yet handed out.
    open spec fn may_hand_out(&self, frame: usize) -> bool {
        self.spec_cur() <= frame * PAGE_SIZE < self.spec_end()
    }

    /// The cursor only moves forward, past each frame handed out.
    open spec fn hands_out_fresh(&self) -> bool {
        true
    }

    /// The heap's first address and end.
    open spec fn bounds(&self) -> (int, int) {
        (self.spec_base() as int, self.spec_end() as int)
    }

    /// The whole frames between the cursor, rounded up to a frame, and the end.
    open spec fn available(&self) -> nat {
        let aligned = (self.spec_cur() + 4095) / 4096 * 4096;
        if aligned < self.spec_end() {
            ((self.spec_end() - aligned) / 4096) as nat
        } else {
            0
        }
    }

    /// Allocates one page-sized, page-aligned frame from the heap, or reports `OutOfMemory` once
    /// the heap is exhausted.
    fn allocate(&mut self) -> (r: Result<PhysFrameNum>) {
        proof {
            use_type_invariant(&*self);
            assert(4096usize & 4095usize == 0) by (bit_vector);
        }
        let layout = match Layout::from_size_align(PAGE_SIZE, PAGE_SIZE) {
            Some(l) => l,
            None => {
                return Err(Error::OutOfMemory);
            },
        };
        proof {
            let a = (self.spec_cur() + 4095) / 4096 * 4096;
            assert(self.spec_aligned_cur(layout) == a);
            if self.available() > 0 {
                assert((self.spec_end() - a) / 4096 >= 1);
                assert(a + 4096 <= self.spec_end()) by {
                    vstd::arithmetic::div_mod::lemma_fundamental_div_mod(self.spec_end() - a, 4096);
                }
            }
        }
        if !self.fits(layout) {
            return Err(Error::OutOfMemory);
        }
        let ghost h0 = *self;
        let base = self.alloc_phys(layout);
        let frame = base.containing_frame();
        proof {
            let a = (h0.spec_cur() + 4095) / 4096 * 4096;
            assert(a % 4096 == 0) by {
                vstd::arithmetic::div_mod::lemma_mod_multiples_basic((h0.spec_cur() + 4095) / 4096, 4096);
            }
            assert((a + 4096 + 4095) / 4096 * 4096 == a + 4096) by {
                vstd::arithmetic::div_mod::lemma_fundamental_div_mod(a, 4096);
                let q = a / 4096;
                assert(a + 4096 + 4095 == (q + 1) * 4096 + 4095) by (nonlinear_arith)
                    requires a == 4096 * q;
                vstd::arithmetic::div_mod::lemma_fundamental_div_mod_converse(a + 4096 + 4095, 4096, q + 1, 4095);
            }
            if h0.spec_end() > a + 4096 {
                vstd::arithmetic::div_mod::lemma_fundamental_div_mod(h0.spec_end() - a, 4096);
                vstd::arithmetic::div_mod::lemma_fundamental_div_mod(h0.spec_end() - a - 4096, 4096);
                assert((h0.spec_end() - a) / 4096 == (h0.spec_end() - a - 4096) / 4096 + 1) by {
                    vstd::arithmetic::div_mod::lemma_div_plus_one(h0.spec_end() - a - 4096, 4096);
                }
            } else {
                vstd::arithmetic::div_mod::lemma_div_is_ordered(h0.spec_end() - a, 4096, 4096);
            }
        }
        proof {
            assert(frame@ * PAGE_SIZE == base@) by {
                vstd::arithmetic::div_mod::lemma_fundamental_div_mod(base@ as int, 4096);
            }
        }
        Ok(frame)
    }
}

/// Successive allocations from the boot heap do not overlap: when `h1` is `h0` after an
/// allocation with `first` (its cursor just past the block handed out), the block that `h1`
/// hands out next, with any layout, starts at or after the end of the first one.
pub proof fn law_allocations_disjoint(h0: BootHeap, first: Layout, h1: BootHeap, second: Layout)
    requires
        first.wf(),
        second.wf(),
        h1.spec_cur() == h0.spec_aligned_cur(first) + first.spec_size(),
    ensures
        h0.spec_aligned_cur(first) + first.spec_size() <= h1.spec_aligned_cur(second),
{
    second.lemma_wf();
    let a = second.spec_align() as int;
    let x = h1.spec_cur() + a - 1;
    vstd::arithmetic::div_mod::lemma_fundamental_div_mod(x, a);
    vstd::arithmetic::div_mod::lemma_mod_bound(x, a);
    assert((x / a) * a == a * (x / a)) by (nonlinear_arith);
}

} // verus!
