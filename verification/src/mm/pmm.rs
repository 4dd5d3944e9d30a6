//! The physical memory manager: a binary buddy allocator over physical frames.
use vstd::prelude::*;
use vstd::arithmetic::power2::pow2;
use crate::bitmap::{bytes_required, Bitmap};
use crate::num_utils::{div_ceil, log2};
use super::pt::PageTableAlloc;
use super::types::PhysFrameNum;
use crate::err::{Error, Result};

verus! {

/// The number of block orders managed; the largest block holds `2 ** (ORDER_COUNT - 1)` frames.
pub const ORDER_COUNT: usize = 16;

/// The number of bits in the splitmap of `order` when frames up to `max_pfn` are managed: one bit
/// per pair of blocks of that order.
pub open spec fn spec_splitmap_bits(max_pfn: usize, order: nat) -> int {
    (max_pfn + pow2(order + 1) - 1) / pow2(order + 1) as int
}

/// The free blocks and split bits of one order.
struct BuddyLevel {
    free_list: Vec<PhysFrameNum>,
    free_blocks: usize,
    splitmap: Bitmap,
}

impl BuddyLevel {
    spec fn wf(&self) -> bool {
        self.free_blocks == self.free_list@.len()
    }

    fn toggle_parent_split(&mut self, index: usize)
        requires
            index < old(self).splitmap@.len(),
        ensures
            final(self).splitmap@ == old(self).splitmap@.update(
                index as int,
                !old(self).splitmap@[index as int],
            ),
            final(self).free_list@ == old(self).free_list@,
            final(self).free_blocks == old(self).free_blocks,
    {
        self.splitmap.toggle(index);
    }

    fn is_parent_split(&self, index: usize) -> (r: bool)
        requires
            index < self.splitmap@.len(),
        ensures
            r == self.splitmap@[index as int],
    {
        self.splitmap.get(index)
    }

    fn push_free(&mut self, pfn: PhysFrameNum)
        requires
            old(self).wf(),
        ensures
            final(self).wf(),
            final(self).free_list@ == old(self).free_list@.push(pfn),
            final(self).splitmap@ == old(self).splitmap@,
    {
        self.free_list.push(pfn);
        self.free_blocks = self.free_list.len();
    }

    /// Takes the first occurrence of `pfn` off the free list, if it is listed.
    fn remove_free(&mut self, pfn: PhysFrameNum)
        requires
            old(self).wf(),
        ensures
            final(self).wf(),
            final(self).splitmap@ == old(self).splitmap@,
            final(self).free_list@ == old(self).free_list@.remove_value(pfn),
    {
        let mut i: usize = 0;
        while i < self.free_list.len()
            invariant
                i <= self.free_list@.len(),
                self.free_list@ == old(self).free_list@,
                self.splitmap@ == old(self).splitmap@,
                self.free_blocks == old(self).free_blocks,
                forall|j: int| 0 <= j < i ==> self.free_list@[j] != pfn,
            decreases self.free_list@.len() - i,
        {
            if self.free_list[i] == pfn {
                proof {
                    let l = old(self).free_list@;
                    assert(l.contains(pfn)) by {
                        assert(l[i as int] == pfn);
                    }
                    l.index_of_first_ensures(pfn);
                    let idx = l.index_of_first(pfn)->Some_0;
                    assert(idx == i as int) by {
                        if idx < i as int {
                            assert(l[idx] != pfn);
                        } else if idx > i as int {
                            assert(l[i as int] != pfn);
                        }
                    }
                }
                self.free_list.remove(i);
                self.free_blocks = self.free_list.len();
                return;
            }
            i = i + 1;
        }
        proof {
            old(self).free_list@.index_of_first_ensures(pfn);
            assert(!old(self).free_list@.contains(pfn));
        }
    }

    fn pop_free(&mut self) -> (r: Option<PhysFrameNum>)
        requires
            old(self).wf(),
        ensures
            final(self).wf(),
            final(self).splitmap@ == old(self).splitmap@,
            old(self).free_list@.len() == 0 ==> r is None && *final(self) == *old(self),
            old(self).free_list@.len() > 0 ==> r == Some(old(self).free_list@.last())
                && final(self).free_list@ == old(self).free_list@.drop_last(),
    {
        if self.free_list.len() == 0 {
            return None;
        }
        let r = self.free_list.pop();
        self.free_blocks = self.free_list.len();
        r
    }
}

/// The total number of frames in the free lists of orders `order..ORDER_COUNT`.
pub open spec fn spec_free_pages_from(lists: Seq<Seq<PhysFrameNum>>, order: nat) -> nat
    decreases 16 - order,
{
    if order >= 16 {
        0
    } else {
        lists[order as int].len() * pow2(order) + spec_free_pages_from(lists, order + 1)
    }
}

/// The first order at or above `order` whose free list is non-empty, or `ORDER_COUNT` if none is.
pub open spec fn spec_first_nonempty(lists: Seq<Seq<PhysFrameNum>>, order: nat) -> nat
    decreases 16 - order,
{
    if order >= 16 {
        16
    } else if lists[order as int].len() > 0 {
        order
    } else {
        spec_first_nonempty(lists, order + 1)
    }
}

/// The first frame of the block of order `k` that contains the block of `order` at `pfn`.
pub open spec fn block_at(pfn: usize, order: nat, k: nat) -> usize
    decreases k,
{
    if k <= order {
        pfn
    } else {
        block_at(pfn, order, (k - 1) as nat) & !(1usize << ((k - 1) as usize))
    }
}

/// The buddy of the block of `order` at `pfn`: the other half of the block of the next order.
pub open spec fn spec_buddy(pfn: usize, order: nat) -> PhysFrameNum {
    PhysFrameNum::spec_new(pfn ^ (1usize << (order as usize)))
}

/// The free lists once the block of `order` at `pfn` has been merged with its buddy at each
/// order from `order` up to `k`: each of those buddies is taken off its free list.
pub open spec fn lists_after_merge(lists: Seq<Seq<PhysFrameNum>>, pfn: usize, order: nat, k: nat) -> Seq<
    Seq<PhysFrameNum>,
>
    decreases k,
{
    if k <= order {
        lists
    } else {
        let prev = lists_after_merge(lists, pfn, order, (k - 1) as nat);
        let o = (k - 1) as int;
        prev.update(o, prev[o].remove_value(spec_buddy(block_at(pfn, order, (k - 1) as nat), (k - 1) as nat)))
    }
}

/// Whether frame `f` lies in one of the free blocks of `lists` (the list of order `o` holding
/// blocks of `2 ** o` frames).
pub open spec fn in_free_block(lists: Seq<Seq<PhysFrameNum>>, f: int) -> bool {
    exists|o: int, i: int|
        0 <= o < 16 && 0 <= i < lists[o].len() && #[trigger] lists[o][i]@ <= f < lists[o][i]@ + pow2(
            o as nat,
        )
}

/// Whether the free blocks of `lists` are pairwise disjoint.
pub open spec fn free_blocks_disjoint(lists: Seq<Seq<PhysFrameNum>>) -> bool {
    forall|o1: int, i1: int, o2: int, i2: int|
        #![trigger lists[o1][i1], lists[o2][i2]]
        0 <= o1 < 16 && 0 <= o2 < 16 && 0 <= i1 < lists[o1].len() && 0 <= i2 < lists[o2].len() && !(o1
            == o2 && i1 == i2) ==> lists[o1][i1]@ + pow2(o1 as nat) <= lists[o2][i2]@ || lists[o2][i2]@
            + pow2(o2 as nat) <= lists[o1][i1]@
}

/// Whether each free block of `lists` lies outside the block of `2 ** f` frames at `pfn`, or inside
/// the frames from `pfn + 2 ** order` to `pfn + 2 ** cur`.
spec fn blocks_placed(lists: Seq<Seq<PhysFrameNum>>, pfn: int, f: nat, order: nat, cur: nat) -> bool {
    forall|o: int, i: int|
        #![trigger lists[o][i]]
        0 <= o < 16 && 0 <= i < lists[o].len() ==> {
            let s = lists[o][i]@;
            ||| s + pow2(o as nat) <= pfn
            ||| pfn + pow2(f) <= s
            ||| pfn + pow2(order) <= s && s + pow2(o as nat) <= pfn + pow2(cur)
        }
}

/// Frames in the free blocks after the last block of order `o` is taken off were in free blocks
/// before.
proof fn lemma_in_free_block_drop(lists: Seq<Seq<PhysFrameNum>>, o: int, g: int)
    requires
        0 <= o < 16,
        lists.len() == 16,
        lists[o].len() > 0,
        in_free_block(lists.update(o, lists[o].drop_last()), g),
    ensures
        in_free_block(lists, g),
{
    let l1 = lists.update(o, lists[o].drop_last());
    let (o2, i2) = choose|o2: int, i2: int|
        0 <= o2 < 16 && 0 <= i2 < l1[o2].len() && #[trigger] l1[o2][i2]@ <= g < l1[o2][i2]@ + pow2(o2 as nat);
    assert(lists[o2][i2] == l1[o2][i2]);
}

/// Frames in the free blocks after block `b` is put on the list of order `o` were in free blocks
/// before, or are in `b`.
proof fn lemma_in_free_block_push(lists: Seq<Seq<PhysFrameNum>>, o: int, b: PhysFrameNum, g: int)
    requires
        0 <= o < 16,
        lists.len() == 16,
        in_free_block(lists.update(o, lists[o].push(b)), g),
    ensures
        in_free_block(lists, g) || b@ <= g < b@ + pow2(o as nat),
{
    let l1 = lists.update(o, lists[o].push(b));
    let (o2, i2) = choose|o2: int, i2: int|
        0 <= o2 < 16 && 0 <= i2 < l1[o2].len() && #[trigger] l1[o2][i2]@ <= g < l1[o2][i2]@ + pow2(o2 as nat);
    if !(o2 == o && i2 == lists[o].len()) {
        assert(lists[o2][i2] == l1[o2][i2]);
    }
}

/// Putting the upper half of the block of order `cur + 1` at `pfn` on the list of order `cur`
/// keeps the free blocks disjoint and placed, with one more order given back.
proof fn lemma_push_buddy(lists: Seq<Seq<PhysFrameNum>>, b: PhysFrameNum, pfn: int, f: nat, order: nat, cur: nat)
    requires
        lists.len() == 16,
        order <= cur < f < 16,
        free_blocks_disjoint(lists),
        blocks_placed(lists, pfn, f, order, cur),
        b@ == pfn + pow2(cur),
        pow2(cur + 1) == pow2(cur) + pow2(cur),
        pow2(cur + 1) <= pow2(f),
        pow2(order) <= pow2(cur),
    ensures
        free_blocks_disjoint(lists.update(cur as int, lists[cur as int].push(b))),
        blocks_placed(lists.update(cur as int, lists[cur as int].push(b)), pfn, f, order, cur + 1),
{
    let l1 = lists.update(cur as int, lists[cur as int].push(b));
    let n = lists[cur as int].len() as int;
    assert(l1[cur as int][n] == b);
    vstd::arithmetic::power2::lemma_pow2_pos(order);
    assert forall|o: int, i: int|
        #![trigger l1[o][i]]
        0 <= o < 16 && 0 <= i < l1[o].len() implies {
            let s = l1[o][i]@;
            ||| s + pow2(o as nat) <= pfn
            ||| pfn + pow2(f) <= s
            ||| pfn + pow2(order) <= s && s + pow2(o as nat) <= pfn + pow2(cur + 1)
        } by {
        if !(o == cur && i == n) {
            assert(l1[o][i] == lists[o][i]);
        }
    }
    assert forall|o1: int, i1: int, o2: int, i2: int|
        #![trigger l1[o1][i1], l1[o2][i2]]
        0 <= o1 < 16 && 0 <= o2 < 16 && 0 <= i1 < l1[o1].len() && 0 <= i2 < l1[o2].len() && !(o1
            == o2 && i1 == i2) implies l1[o1][i1]@ + pow2(o1 as nat) <= l1[o2][i2]@ || l1[o2][i2]@
            + pow2(o2 as nat) <= l1[o1][i1]@ by {
        let new1 = o1 == cur && i1 == n;
        let new2 = o2 == cur && i2 == n;
        if !new1 {
            assert(l1[o1][i1] == lists[o1][i1]);
        }
        if !new2 {
            assert(l1[o2][i2] == lists[o2][i2]);
        }
    }
}

/// A summary of the frames managed by a [`PhysManager`].
pub struct PmmUsage {
    /// Frames ever added to the manager.
    pub total_pages: usize,
    /// Frames currently handed out.
    pub used_pages: usize,
    /// Frames currently free.
    pub free_pages: usize,
    /// The number of free blocks of each order.
    pub free_blocks: Vec<usize>,
}

/// A binary buddy allocator managing frames below a fixed limit.
///
/// Free blocks of each order are kept on a last-in first-out list. Each order also has a
/// "splitmap" holding one bit per pair of buddy blocks, which is flipped whenever either block of
/// the pair is handed out or given back, so that a freed block can tell whether its buddy is free
/// and the two can be merged.
pub struct PhysManager {
    total_pages: usize,
    levels: Vec<BuddyLevel>,
    max_pfn: usize,
}

impl PhysManager {
    /// The free lists, by order.
    pub closed spec fn spec_lists(&self) -> Seq<Seq<PhysFrameNum>> {
        Seq::new(self.levels@.len(), |o: int| self.levels@[o].free_list@)
    }

    /// The splitmaps, by order.
    pub closed spec fn spec_splitmaps(&self) -> Seq<Seq<bool>> {
        Seq::new(self.levels@.len(), |o: int| self.levels@[o].splitmap@)
    }

    /// The frames ever added to the manager.
    pub closed spec fn spec_total_pages(&self) -> usize {
        self.total_pages
    }

    /// The first frame number that is not managed.
    pub closed spec fn spec_max_pfn(&self) -> usize {
        self.max_pfn
    }

    /// The number of frames on the free lists.
    pub open spec fn spec_free_pages(&self) -> nat {
        spec_free_pages_from(self.spec_lists(), 0)
    }

    /// The manager's invariant: one level per order, free block counts that match the lists,
    /// splitmaps large enough for every frame below the limit, and free blocks that are aligned
    /// to their order and start below the limit.
    pub closed spec fn wf(&self) -> bool {
        &&& self.levels@.len() == 16
        &&& self.max_pfn + 0x20000 <= usize::MAX
        &&& forall|o: int| 0 <= o < 16 ==> (#[trigger] self.levels@[o]).wf()
        &&& forall|o: int|
            0 <= o < 16 ==> (#[trigger] self.levels@[o]).splitmap@.len() >= spec_splitmap_bits(
                self.max_pfn,
                o as nat,
            )
        &&& forall|o: int, k: int|
            0 <= o < 16 && 0 <= k < self.levels@[o].free_list@.len() ==> {
                let pfn = (#[trigger] self.levels@[o].free_list@[k])@;
                &&& pfn as int % pow2(o as nat) as int == 0
                &&& pfn < self.max_pfn
            }
    }

    /// Whether handing out a block of `order` only splits a block that lies below the limit. This
    /// always holds when blocks are only ever freed once; the manager does not check it itself.
    pub open spec fn split_in_range(&self, order: nat) -> bool {
        let f = spec_first_nonempty(self.spec_lists(), order);
        f < 16 && f > order ==> self.spec_lists()[f as int].last()@ + pow2((f - 1) as nat)
            < self.spec_max_pfn()
    }

    /// The first frame number that is not managed.
    pub fn max_pfn(&self) -> (r: usize)
        ensures
            r == self.spec_max_pfn(),
    {
        self.max_pfn
    }

    /// Checks [`split_in_range`](PhysManager::split_in_range) for a request of `order`.
    pub fn split_fits(&self, order: usize) -> (r: bool)
        requires
            self.wf(),
        ensures
            r == self.split_in_range(order as nat),
    {
        let mut f = order;
        while f < ORDER_COUNT && self.levels[f].free_list.len() == 0
            invariant
                self.wf(),
                order <= f,
                f < 16 ==> spec_first_nonempty(self.spec_lists(), order as nat) == spec_first_nonempty(
                    self.spec_lists(),
                    f as nat,
                ),
                f >= 16 ==> spec_first_nonempty(self.spec_lists(), order as nat) == 16,
            decreases 16 - f,
        {
            proof {
                assert(self.spec_lists()[f as int] == self.levels@[f as int].free_list@);
            }
            f = f + 1;
        }
        if f >= ORDER_COUNT || f == order {
            return true;
        }
        proof {
            assert(self.spec_lists()[f as int] == self.levels@[f as int].free_list@);
            assert(spec_first_nonempty(self.spec_lists(), f as nat) == f);
            vstd::arithmetic::power2::lemma2_to64();
            vstd::bits::lemma_usize_shl_is_mul(1, (f - 1) as usize);
            assert(pow2((f - 1) as nat) <= 0x4000) by {
                if f - 1 < 14 {
                    vstd::arithmetic::power2::lemma_pow2_strictly_increases((f - 1) as nat, 14);
                }
            }
        }
        let list = &self.levels[f].free_list;
        let last = list[list.len() - 1];
        proof {
            assert(last@ < self.max_pfn);
        }
        last.as_usize() + (1usize << (f - 1)) < self.max_pfn
    }

    /// Creates a manager for frames below `max_pfn`, with nothing free yet.
    pub fn new(max_pfn: PhysFrameNum) -> (r: Self)
        requires
            max_pfn@ + 0x20000 <= usize::MAX,
        ensures
            r.wf(),
            r.spec_max_pfn() == max_pfn@,
            r.spec_total_pages() == 0,
            forall|o: int| 0 <= o < 16 ==> r.spec_lists()[o].len() == 0,
            forall|o: int, i: int|
                0 <= o < 16 && 0 <= i < r.spec_splitmaps()[o].len() ==> !r.spec_splitmaps()[o][i],
    {
        let mut levels: Vec<BuddyLevel> = Vec::new();
        let mut order: usize = 0;
        while order < ORDER_COUNT
            invariant
                order <= 16,
                levels@.len() == order,
                max_pfn@ + 0x20000 <= usize::MAX,
                forall|o: int| 0 <= o < order ==> (#[trigger] levels@[o]).wf(),
                forall|o: int| 0 <= o < order ==> (#[trigger] levels@[o]).free_list@.len() == 0,
                forall|o: int|
                    0 <= o < order ==> (#[trigger] levels@[o]).splitmap@.len()
                        >= spec_splitmap_bits(max_pfn@, o as nat),
                forall|o: int, i: int|
                    0 <= o < order && 0 <= i < levels@[o].splitmap@.len() ==> !(
                    #[trigger] levels@[o].splitmap@[i]),
            decreases 16 - order,
        {
            proof {
                vstd::arithmetic::power2::lemma2_to64();
                vstd::arithmetic::power2::lemma_pow2_strictly_increases(order as nat + 1, 17);
                vstd::bits::lemma_usize_shl_is_mul(1, (order + 1) as usize);
            }
            let pair_size: usize = 1usize << (order + 1);
            let splitmap_bits = div_ceil(max_pfn.as_usize(), pair_size);
            proof {
                vstd::arithmetic::div_mod::lemma_div_is_ordered_by_denominator(
                    (max_pfn@ + pair_size - 1) as int,
                    1,
                    pair_size as int,
                );
            }
            let splitmap_bytes = bytes_required(splitmap_bits);
            levels.push(
                BuddyLevel {
                    free_list: Vec::new(),
                    free_blocks: 0,
                    splitmap: Bitmap::zeroed(splitmap_bytes),
                },
            );
            order = order + 1;
        }
        let r = Self { total_pages: 0, levels, max_pfn: max_pfn.as_usize() };
        assert forall|o: int| 0 <= o < 16 implies r.spec_lists()[o].len() == 0 by {
            assert(r.levels@[o].free_list@.len() == 0);
        }
        r
    }

    /// Hands out a block of `2 ** order` frames aligned to its size, splitting a larger block if
    /// no block of that order is free. Returns `None` when `order` is too large or no block of
    /// that order or above is free.
    ///
    /// The block handed out is the most recently freed block of the smallest order, at or above
    /// `order`, that has a free block; the unused halves of any split go onto the free lists.
    pub fn allocate(&mut self, order: usize) -> (r: Option<PhysFrameNum>)
        requires
            old(self).wf(),
            old(self).split_in_range(order as nat),
        ensures
            final(self).wf(),
            final(self).spec_max_pfn() == old(self).spec_max_pfn(),
            final(self).spec_total_pages() == old(self).spec_total_pages(),
            r is None <==> (order >= 16 || spec_first_nonempty(old(self).spec_lists(), order as nat)
                == 16),
            r is None ==> final(self).spec_lists() == old(self).spec_lists()
                && final(self).spec_splitmaps() == old(self).spec_splitmaps(),
            r matches Some(pfn) ==> {
                &&& pfn == old(self).spec_lists()[spec_first_nonempty(
                    old(self).spec_lists(),
                    order as nat,
                ) as int].last()
                &&& pfn@ as int % pow2(order as nat) as int == 0
                &&& pfn@ < old(self).spec_max_pfn()
                &&& final(self).spec_free_pages() + pow2(order as nat) == old(
                    self,
                ).spec_free_pages()
                &&& free_blocks_disjoint(old(self).spec_lists()) ==> {
                    &&& free_blocks_disjoint(final(self).spec_lists())
                    &&& forall|g: int|
                        #[trigger] in_free_block(final(self).spec_lists(), g) ==> in_free_block(
                            old(self).spec_lists(),
                            g,
                        )
                    &&& forall|g: int|
                        #![trigger in_free_block(final(self).spec_lists(), g)]
                        pfn@ <= g < pfn@ + pow2(order as nat) ==> in_free_block(old(self).spec_lists(), g)
                            && !in_free_block(final(self).spec_lists(), g)
                }
            },
            order < 16 && old(self).spec_lists()[order as int].len() > 0 ==> final(self).spec_lists()
                == old(self).spec_lists().update(
                order as int,
                old(self).spec_lists()[order as int].drop_last(),
            ),
    {
        if order >= ORDER_COUNT {
            return None;
        }
        let ghost lists0 = self.spec_lists();
        let mut found: Option<PhysFrameNum> = None;
        let mut found_order = order;
        while found_order < ORDER_COUNT
            invariant_except_break
                order <= found_order <= 16,
                self.levels@ == old(self).levels@,
                self.total_pages == old(self).total_pages,
                self.max_pfn == old(self).max_pfn,
                found is None,
                spec_first_nonempty(lists0, order as nat) == spec_first_nonempty(
                    lists0,
                    found_order as nat,
                ),
            invariant
                old(self).wf(),
                lists0 == old(self).spec_lists(),
                order < 16,
            ensures
                found is None ==> found_order == 16 && self.levels@ == old(self).levels@
                    && self.total_pages == old(self).total_pages && self.max_pfn == old(self).max_pfn
                    && spec_first_nonempty(
                    lists0,
                    order as nat,
                ) == 16,
                found matches Some(pfn) ==> {
                    &&& order <= found_order < 16
                    &&& found_order == spec_first_nonempty(lists0, order as nat)
                    &&& lists0[found_order as int].len() > 0
                    &&& pfn == lists0[found_order as int].last()
                    &&& self.levels@.len() == 16
                    &&& self.levels@[found_order as int].free_list@ == lists0[found_order as int].drop_last()
                    &&& self.levels@[found_order as int].wf()
                    &&& self.levels@[found_order as int].splitmap@ == old(self).levels@[found_order as int].splitmap@
                    &&& forall|o: int| 0 <= o < 16 && o != found_order ==> self.levels@[o] == old(self).levels@[o]
                    &&& self.total_pages == old(self).total_pages
                    &&& self.max_pfn == old(self).max_pfn
                },
            decreases 16 - found_order,
        {
            if let Some(pfn) = self.levels[found_order].pop_free() {
                found = Some(pfn);
                break;
            }
            assert(self.levels@ =~= old(self).levels@);
            found_order = found_order + 1;
        }
        let pfn = match found {
            Some(pfn) => pfn,
            None => {
                return None;
            },
        };
        let ghost f = found_order as nat;
        proof {
            assert(self.spec_lists() =~= lists0.update(found_order as int, lists0[found_order as int].drop_last()));
            lemma_free_pages_update(lists0, found_order as nat, lists0[found_order as int].drop_last(), 0);
            let len = lists0[found_order as int].len() as int;
            assert((len - 1) * pow2(f) + pow2(f) == len * pow2(f)) by (nonlinear_arith);
            assert(self.spec_free_pages() + pow2(f) == old(self).spec_free_pages());
            assert(pfn == old(self).levels@[found_order as int].free_list@[lists0[found_order as int].len() - 1]);
            assert(self.wf()) by {
                assert forall|o: int, k: int|
                    0 <= o < 16 && 0 <= k < self.levels@[o].free_list@.len() implies {
                        let p = (#[trigger] self.levels@[o].free_list@[k])@;
                        &&& p as int % pow2(o as nat) as int == 0
                        &&& p < self.max_pfn
                    } by {
                    if o == found_order {
                        assert(self.levels@[o].free_list@[k] == old(self).levels@[o].free_list@[k]);
                    }
                }
            }
            if free_blocks_disjoint(lists0) {
                let l1 = self.spec_lists();
                let fo = found_order as int;
                let last = len - 1;
                assert(lists0[fo][last] == pfn);
                assert forall|o: int, i: int|
                    #![trigger l1[o][i]]
                    0 <= o < 16 && 0 <= i < l1[o].len() implies {
                        let s = l1[o][i]@;
                        ||| s + pow2(o as nat) <= pfn@
                        ||| pfn@ + pow2(f) <= s
                        ||| pfn@ + pow2(order as nat) <= s && s + pow2(o as nat) <= pfn@ + pow2(order as nat)
                    } by {
                    assert(l1[o][i] == lists0[o][i]);
                    assert(lists0[fo][last] == pfn);
                }
                assert(blocks_placed(l1, pfn@ as int, f, order as nat, order as nat));
                assert forall|o1: int, i1: int, o2: int, i2: int|
                    #![trigger l1[o1][i1], l1[o2][i2]]
                    0 <= o1 < 16 && 0 <= o2 < 16 && 0 <= i1 < l1[o1].len() && 0 <= i2 < l1[o2].len() && !(o1
                        == o2 && i1 == i2) implies l1[o1][i1]@ + pow2(o1 as nat) <= l1[o2][i2]@ || l1[o2][i2]@
                        + pow2(o2 as nat) <= l1[o1][i1]@ by {
                    assert(l1[o1][i1] == lists0[o1][i1]);
                    assert(l1[o2][i2] == lists0[o2][i2]);
                }
                assert forall|g: int| #[trigger] in_free_block(l1, g) implies in_free_block(lists0, g) by {
                    lemma_in_free_block_drop(lists0, fo, g);
                }
                assert forall|g: int| pfn@ <= g < pfn@ + pow2(f) implies #[trigger] in_free_block(lists0, g) by {
                    assert(lists0[fo][last]@ <= g < lists0[fo][last]@ + pow2(fo as nat));
                }
            }
        }
        self.toggle_parent_split(pfn, found_order);
        let mut cur_order = order;
        while cur_order < found_order
            invariant
                order <= cur_order <= found_order < 16,
                f == found_order,
                self.wf(),
                pfn@ as int % pow2(f) as int == 0,
                pfn@ < self.spec_max_pfn(),
                f > order ==> pfn@ + pow2((f - 1) as nat) < self.spec_max_pfn(),
                self.spec_max_pfn() == old(self).spec_max_pfn(),
                self.spec_total_pages() == old(self).spec_total_pages(),
                self.spec_free_pages() + pow2(f) + pow2(order as nat) == old(self).spec_free_pages()
                    + pow2(cur_order as nat),
                lists0 == old(self).spec_lists(),
                f == order ==> self.spec_lists() == lists0.update(f as int, lists0[f as int].drop_last()),
                free_blocks_disjoint(lists0) ==> {
                    &&& free_blocks_disjoint(self.spec_lists())
                    &&& blocks_placed(self.spec_lists(), pfn@ as int, f, order as nat, cur_order as nat)
                    &&& forall|g: int| #[trigger] in_free_block(self.spec_lists(), g) ==> in_free_block(lists0, g)
                    &&& forall|g: int| pfn@ <= g < pfn@ + pow2(f) ==> #[trigger] in_free_block(lists0, g)
                },
            decreases found_order - cur_order,
        {
            proof {
                lemma_pow2_divides(pfn@ as int, cur_order as nat + 1, f);
                lemma_pow2_le(cur_order as nat, (f - 1) as nat);
            }
            self.toggle_parent_split(pfn, cur_order);
            let buddy = buddy_of(pfn, cur_order);
            let ghost before = *self;
            self.levels[cur_order].push_free(buddy);
            proof {
                let lists = before.spec_lists();
                assert(self.spec_lists() =~= lists.update(cur_order as int, lists[cur_order as int].push(buddy)));
                lemma_free_pages_update(lists, cur_order as nat, lists[cur_order as int].push(buddy), 0);
                let len = lists[cur_order as int].len() as int;
                let c = pow2(cur_order as nat) as int;
                assert((len + 1) * c == len * c + c) by (nonlinear_arith);
                vstd::arithmetic::power2::lemma_pow2_unfold(cur_order as nat + 1);
                lemma_pow2_divides_add(pfn@ as int, cur_order as nat);
                assert forall|o: int, k: int|
                    0 <= o < 16 && 0 <= k < self.levels@[o].free_list@.len() implies {
                        let p = (#[trigger] self.levels@[o].free_list@[k])@;
                        &&& p as int % pow2(o as nat) as int == 0
                        &&& p < self.max_pfn
                    } by {
                    if o != cur_order || k < before.levels@[o].free_list@.len() {
                        assert(self.levels@[o].free_list@[k] == before.levels@[o].free_list@[k]);
                    }
                }
                if free_blocks_disjoint(lists0) {
                    lemma_pow2_le(cur_order as nat + 1, f);
                    lemma_pow2_le(order as nat, cur_order as nat);
                    lemma_push_buddy(lists, buddy, pfn@ as int, f, order as nat, cur_order as nat);
                    assert forall|g: int| #[trigger] in_free_block(self.spec_lists(), g) implies in_free_block(lists0, g) by {
                        lemma_in_free_block_push(lists, cur_order as int, buddy, g);
                        if !in_free_block(lists, g) {
                            assert(pfn@ <= g < pfn@ + pow2(f));
                        }
                    }
                }
            }
            cur_order = cur_order + 1;
        }
        proof {
            lemma_pow2_divides(pfn@ as int, order as nat, f);
            if free_blocks_disjoint(lists0) {
                lemma_pow2_le(order as nat, f);
                let l = self.spec_lists();
                assert forall|g: int| pfn@ <= g < pfn@ + pow2(order as nat) implies !#[trigger] in_free_block(l, g) by {
                    if in_free_block(l, g) {
                        let (o, i) = choose|o: int, i: int|
                            0 <= o < 16 && 0 <= i < l[o].len() && #[trigger] l[o][i]@ <= g < l[o][i]@ + pow2(o as nat);
                        assert(blocks_placed(l, pfn@ as int, f, order as nat, f));
                    }
                }
            }
        }
        Some(pfn)
    }

    /// Gives back the block of `2 ** order` frames at `pfn`. While the block's buddy is also
    /// free (as recorded by the splitmap), the two are merged into the block of the next order:
    /// the buddy is taken off its free list. The resulting block goes onto the free list of its
    /// order.
    pub fn deallocate(&mut self, pfn: PhysFrameNum, order: usize)
        requires
            old(self).wf(),
            order < 16,
            pfn@ as int % pow2(order as nat) as int == 0,
            pfn@ < old(self).spec_max_pfn(),
        ensures
            final(self).wf(),
            final(self).spec_max_pfn() == old(self).spec_max_pfn(),
            final(self).spec_total_pages() == old(self).spec_total_pages(),
            exists|k: nat|
                #![trigger lists_after_merge(old(self).spec_lists(), pfn@, order as nat, k)]
                order <= k < 16 && {
                    let mid = lists_after_merge(old(self).spec_lists(), pfn@, order as nat, k);
                    let p = block_at(pfn@, order as nat, k);
                    &&& p <= pfn@
                    &&& p as int % pow2(k) as int == 0
                    &&& final(self).spec_lists() == mid.update(
                        k as int,
                        mid[k as int].push(PhysFrameNum::spec_new(p)),
                    )
                },
            final(self).spec_free_pages() >= old(self).spec_free_pages() + pow2(order as nat),
    {
        let ghost order0 = order;
        let mut pfn = pfn;
        let mut order = order;
        let ghost lists0 = self.spec_lists();
        let ghost pfn0 = pfn@;
        proof {
            PhysFrameNum::lemma_spec_new(pfn);
        }
        while order < ORDER_COUNT - 1
            invariant
                self.wf(),
                order < 16,
                pfn@ as int % pow2(order as nat) as int == 0,
                pfn@ <= pfn0,
                pfn0 < self.spec_max_pfn(),
                pfn@ == block_at(pfn0, order0 as nat, order as nat),
                self.spec_lists() == lists_after_merge(lists0, pfn0, order0 as nat, order as nat),
                self.spec_free_pages() + pow2(order as nat) >= old(self).spec_free_pages() + pow2(order0 as nat),
                self.spec_max_pfn() == old(self).spec_max_pfn(),
                self.spec_total_pages() == old(self).spec_total_pages(),
                lists0 == old(self).spec_lists(),
                order0 <= order,
            decreases 16 - order,
        {
            self.toggle_parent_split(pfn, order);
            if self.is_parent_split(pfn, order) {
                break;
            }
            let buddy = buddy_of(pfn, order);
            let ghost before = *self;
            self.levels[order].remove_free(buddy);
            proof {
                let lists = before.spec_lists();
                let o = order as int;
                assert(self.spec_lists() =~= lists.update(o, lists[o].remove_value(buddy)));
                lemma_free_pages_update(lists, order as nat, lists[o].remove_value(buddy), 0);
                lists[o].index_of_first_ensures(buddy);
                let len = lists[o].len() as int;
                let c = pow2(order as nat) as int;
                assert(lists[o].remove_value(buddy).len() + 1 >= len);
                vstd::arithmetic::power2::lemma_pow2_pos(order as nat);
                assert((len - 1) * c + c == len * c) by (nonlinear_arith);
                assert(lists[o].remove_value(buddy).len() * c >= (len - 1) * c) by (nonlinear_arith)
                    requires lists[o].remove_value(buddy).len() >= len - 1, c > 0;
                vstd::arithmetic::power2::lemma_pow2_unfold(order as nat + 1);
                assert forall|q: int, j: int|
                    0 <= q < 16 && 0 <= j < self.levels@[q].free_list@.len() implies {
                        let p = (#[trigger] self.levels@[q].free_list@[j])@;
                        &&& p as int % pow2(q as nat) as int == 0
                        &&& p < self.max_pfn
                    } by {
                    if q != o {
                        assert(self.levels@[q] == before.levels@[q]);
                    } else {
                        let l = lists[o];
                        let idx = l.index_of_first(buddy)->Some_0;
                        if l.contains(buddy) && j >= idx {
                            assert(self.levels@[q].free_list@[j] == l[j + 1]);
                            assert(before.levels@[q].free_list@[j + 1] == l[j + 1]);
                        } else {
                            assert(self.levels@[q].free_list@[j] == l[j]);
                            assert(before.levels@[q].free_list@[j] == l[j]);
                        }
                    }
                }
            }
            pfn = parent_of(pfn, order);
            order = order + 1;
        }
        let ghost before = *self;
        self.levels[order].push_free(pfn);
        proof {
            let lists = before.spec_lists();
            assert(self.spec_lists() =~= lists.update(order as int, lists[order as int].push(pfn)));
            lemma_free_pages_update(lists, order as nat, lists[order as int].push(pfn), 0);
            let len = lists[order as int].len() as int;
            let c = pow2(order as nat) as int;
            assert((len + 1) * c == len * c + c) by (nonlinear_arith);
            assert forall|o: int, k: int|
                0 <= o < 16 && 0 <= k < self.levels@[o].free_list@.len() implies {
                    let p = (#[trigger] self.levels@[o].free_list@[k])@;
                    &&& p as int % pow2(o as nat) as int == 0
                    &&& p < self.max_pfn
                } by {
                if o != order || k < before.levels@[o].free_list@.len() {
                    assert(self.levels@[o].free_list@[k] == before.levels@[o].free_list@[k]);
                }
            }
            vstd::arithmetic::power2::lemma_pow2_pos(order as nat);
            PhysFrameNum::lemma_spec_new(pfn);
            assert(self.spec_lists() == lists_after_merge(lists0, pfn0, order0 as nat, order as nat).update(
                order as int,
                lists_after_merge(lists0, pfn0, order0 as nat, order as nat)[order as int].push(
                    PhysFrameNum::spec_new(block_at(pfn0, order0 as nat, order as nat)),
                ),
            ));
        }
    }

    /// Adds the frames `start..end` to the free lists, as the largest aligned blocks that fit.
    pub fn add_free_range(&mut self, start: PhysFrameNum, end: PhysFrameNum)
        requires
            old(self).wf(),
            start@ <= end@ <= old(self).spec_max_pfn(),
            old(self).spec_total_pages() + (end@ - start@) <= usize::MAX,
        ensures
            final(self).wf(),
            final(self).spec_max_pfn() == old(self).spec_max_pfn(),
            final(self).spec_total_pages() == old(self).spec_total_pages() + (end@ - start@),
            final(self).spec_free_pages() >= old(self).spec_free_pages() + (end@ - start@),
    {
        let size = end.diff(start);
        let ghost start0 = start@;
        let mut start = start;
        while start.as_usize() < end.as_usize()
            invariant
                self.wf(),
                start@ <= end@ <= self.spec_max_pfn(),
                self.spec_max_pfn() == old(self).spec_max_pfn(),
                self.spec_total_pages() == old(self).spec_total_pages(),
                self.spec_free_pages() >= old(self).spec_free_pages() + (start@ - start0),
                start0 <= start@,
            decreases end@ - start@,
        {
            let remaining_order = log2(end.diff(start));
            let alignment_order = (start.as_u64().trailing_zeros()) as usize;
            let mut order = if alignment_order < remaining_order {
                alignment_order
            } else {
                remaining_order
            };
            if order > ORDER_COUNT - 1 {
                order = ORDER_COUNT - 1;
            }
            proof {
                lemma_trailing_zeros_aligned(start@ as u64, order as nat);
                lemma_pow2_le(order as nat, remaining_order as nat);
            }
            let ghost pre = *self;
            self.deallocate(start, order);
            proof {
                vstd::arithmetic::power2::lemma2_to64();
                vstd::arithmetic::power2::lemma_pow2_strictly_increases(order as nat, 17);
                vstd::bits::lemma_usize_shl_is_mul(1, order);
            }
            start = start.plus(1usize << order);
        }
        self.total_pages = self.total_pages + size;
    }

    /// The number of frames on the free lists.
    fn free_pages(&self) -> (r: usize)
        requires
            self.wf(),
            self.spec_free_pages() <= usize::MAX,
        ensures
            r == self.spec_free_pages(),
    {
        let mut total: usize = 0;
        let mut order: usize = ORDER_COUNT;
        while order > 0
            invariant
                self.wf(),
                order <= 16,
                total == spec_free_pages_from(self.spec_lists(), order as nat),
                self.spec_free_pages() <= usize::MAX,
            decreases order,
        {
            order = order - 1;
            proof {
                lemma_free_pages_bound(self.spec_lists(), order as nat);
                lemma_free_pages_monotone(self.spec_lists(), order as nat);
                vstd::arithmetic::power2::lemma2_to64();
                vstd::arithmetic::power2::lemma_pow2_strictly_increases(order as nat, 17);
                vstd::bits::lemma_usize_shl_is_mul(self.levels@[order as int].free_blocks, order);
                assert(self.levels@[order as int].free_blocks == self.spec_lists()[order as int].len());
            }
            total = total + (self.levels[order].free_blocks << order);
        }
        total
    }

    /// The frames added, in use and free, and the number of free blocks of each order.
    pub fn usage(&self) -> (r: PmmUsage)
        requires
            self.wf(),
            self.spec_free_pages() <= self.spec_total_pages(),
        ensures
            r.total_pages == self.spec_total_pages(),
            r.free_pages == self.spec_free_pages(),
            r.used_pages == self.spec_total_pages() - self.spec_free_pages(),
            r.free_blocks@.len() == 16,
            forall|o: int| 0 <= o < 16 ==> r.free_blocks@[o] == self.spec_lists()[o].len(),
    {
        let free_pages = self.free_pages();
        let mut free_blocks: Vec<usize> = Vec::new();
        let mut order: usize = 0;
        while order < ORDER_COUNT
            invariant
                self.wf(),
                order <= 16,
                free_blocks@.len() == order,
                forall|o: int| 0 <= o < order ==> free_blocks@[o] == self.spec_lists()[o].len(),
            decreases 16 - order,
        {
            free_blocks.push(self.levels[order].free_blocks);
            order = order + 1;
        }
        PmmUsage {
            total_pages: self.total_pages,
            used_pages: self.total_pages - free_pages,
            free_pages,
            free_blocks,
        }
    }
}

/// Allocates a block of `2 ** order` frames aligned to its size, returning its first frame, or
/// `None` if not enough memory is available.
pub fn allocate(pmm: &mut PhysManager, order: usize) -> (r: Option<PhysFrameNum>)
    requires
        old(pmm).wf(),
        old(pmm).split_in_range(order as nat),
    ensures
        final(pmm).wf(),
        r is None <==> (order >= 16 || spec_first_nonempty(old(pmm).spec_lists(), order as nat)
            == 16),
        r matches Some(pfn) ==> pfn@ as int % pow2(order as nat) as int == 0 && pfn@ < old(
            pmm,
        ).spec_max_pfn() && final(pmm).spec_free_pages() + pow2(order as nat) == old(
            pmm,
        ).spec_free_pages(),
{
    pmm.allocate(order)
}

/// Reports the frames added to `pmm`, those in use and those free, and the free blocks by order.
pub fn dump_usage(pmm: &PhysManager) -> (r: PmmUsage)
    requires
        pmm.wf(),
        pmm.spec_free_pages() <= pmm.spec_total_pages(),
    ensures
        r.total_pages == pmm.spec_total_pages(),
        r.free_pages == pmm.spec_free_pages(),
        r.used_pages == pmm.spec_total_pages() - pmm.spec_free_pages(),
        forall|o: int| 0 <= o < 16 ==> r.free_blocks@[o] == pmm.spec_lists()[o].len(),
{
    pmm.usage()
}

/// The frames of the free lists of the orders from `order` up bound those of each such order.
proof fn lemma_free_pages_bound(lists: Seq<Seq<PhysFrameNum>>, order: nat)
    requires
        order < 16,
    ensures
        lists[order as int].len() * pow2(order) + spec_free_pages_from(lists, order + 1)
            == spec_free_pages_from(lists, order),
{
}

/// The frames of the free lists of all orders bound those of the orders from `order` up.
proof fn lemma_free_pages_monotone(lists: Seq<Seq<PhysFrameNum>>, order: nat)
    requires
        order <= 16,
    ensures
        spec_free_pages_from(lists, order) <= spec_free_pages_from(lists, 0),
    decreases order,
{
    if order > 0 {
        lemma_free_pages_monotone(lists, (order - 1) as nat);
    }
}

/// A number with at least `a` trailing zero bits is a multiple of `2 ** a`.
proof fn lemma_trailing_zeros_aligned(x: u64, a: nat)
    requires
        a <= vstd::std_specs::bits::u64_trailing_zeros(x),
        a < 16,
    ensures
        x as int % pow2(a) as int == 0,
{
    vstd::std_specs::bits::axiom_u64_trailing_zeros(x);
    let t = vstd::std_specs::bits::u64_trailing_zeros(x) as u64;
    let aa = a as u64;
    assert(x << ((64 - t) as u64) == 0 && aa <= t && t <= 64 && aa < 16 ==> x & (((1u64 << aa) - 1) as u64) == 0) by (bit_vector);
    vstd::arithmetic::power2::lemma2_to64();
    vstd::arithmetic::power2::lemma_pow2_strictly_increases(a, 63);
    vstd::bits::lemma_u64_shl_is_mul(1, aa);
    vstd::bits::lemma_u64_low_bits_mask_is_mod(x, a);
}
impl PhysManager {
    /// Flips the splitmap bit of the pair containing the block of `order` at `pfn`.
    fn toggle_parent_split(&mut self, pfn: PhysFrameNum, order: usize)
        requires
            old(self).wf(),
            order < 16,
            pfn@ < old(self).spec_max_pfn(),
        ensures
            final(self).wf(),
            final(self).spec_lists() == old(self).spec_lists(),
            final(self).spec_max_pfn() == old(self).spec_max_pfn(),
            final(self).spec_total_pages() == old(self).spec_total_pages(),
            final(self).spec_splitmaps() == old(self).spec_splitmaps().update(
                order as int,
                old(self).spec_splitmaps()[order as int].update(
                    pfn@ as int / pow2(order as nat + 1) as int,
                    !old(self).spec_splitmaps()[order as int][pfn@ as int / pow2(order as nat + 1) as int],
                ),
            ),
    {
        let index = splitmap_index(pfn, order);
        proof {
            lemma_index_in_range(pfn@ as int, self.max_pfn as int, order as nat + 1);
        }
        let ghost before = *self;
        self.levels[order].toggle_parent_split(index);
        proof {
            assert(self.spec_lists() =~= before.spec_lists());
            assert(self.spec_splitmaps() =~= before.spec_splitmaps().update(
                order as int,
                before.spec_splitmaps()[order as int].update(
                    index as int,
                    !before.spec_splitmaps()[order as int][index as int],
                ),
            ));
            assert forall|o: int, k: int|
                0 <= o < 16 && 0 <= k < self.levels@[o].free_list@.len() implies {
                    let p = (#[trigger] self.levels@[o].free_list@[k])@;
                    &&& p as int % pow2(o as nat) as int == 0
                    &&& p < self.max_pfn
                } by {
                assert(self.levels@[o].free_list@[k] == before.levels@[o].free_list@[k]);
            }
        }
    }

    /// Whether the splitmap bit of the pair containing the block of `order` at `pfn` is set.
    fn is_parent_split(&self, pfn: PhysFrameNum, order: usize) -> (r: bool)
        requires
            self.wf(),
            order < 16,
            pfn@ < self.spec_max_pfn(),
        ensures
            r == self.spec_splitmaps()[order as int][pfn@ as int / pow2(order as nat + 1) as int],
    {
        let index = splitmap_index(pfn, order);
        proof {
            lemma_index_in_range(pfn@ as int, self.max_pfn as int, order as nat + 1);
        }
        self.levels[order].is_parent_split(index)
    }
}

/// The splitmap bit of the pair containing the block of `order` at `pfn`.
fn splitmap_index(pfn: PhysFrameNum, order: usize) -> (r: usize)
    requires
        order < 16,
    ensures
        r == pfn@ as int / pow2(order as nat + 1) as int,
{
    proof {
        vstd::bits::lemma_usize_shr_is_div(pfn@, (order + 1) as usize);
    }
    pfn.as_usize() >> (order + 1)
}

/// The buddy of the block of `order` at `pfn`: the other half of the block of the next order.
fn buddy_of(pfn: PhysFrameNum, order: usize) -> (r: PhysFrameNum)
    requires
        order < 16,
    ensures
        r == spec_buddy(pfn@, order as nat),
        pfn@ as int % pow2(order as nat + 1) as int == 0 ==> r@ == pfn@ + pow2(order as nat),
{
    proof {
        lemma_xor_bit(pfn@, order);
    }
    let r = PhysFrameNum::new(pfn.as_usize() ^ (1usize << order));
    proof {
        PhysFrameNum::lemma_spec_new(r);
    }
    r
}

/// The block of the next order containing the block of `order` at `pfn`.
fn parent_of(pfn: PhysFrameNum, order: usize) -> (r: PhysFrameNum)
    requires
        order < 16,
        pfn@ as int % pow2(order as nat) as int == 0,
    ensures
        r@ == pfn@ & !(1usize << order),
        r@ <= pfn@,
        r@ as int % pow2(order as nat + 1) as int == 0,
{
    proof {
        lemma_clear_bit(pfn@, order);
    }
    PhysFrameNum::new(pfn.as_usize() & !(1usize << order))
}

/// `1 << k` is `2 ** k` for the orders used here, and a multiple of `2 ** (k + 1)` has bit `k`
/// clear.
proof fn lemma_shift_pow2(x: usize, k: usize)
    requires
        k < 17,
    ensures
        (1usize << k) == pow2(k as nat),
        x as int % pow2(k as nat + 1) as int == 0 ==> x & (1usize << k) == 0,
        (x as int % pow2(k as nat) as int == 0) == (x & (((1usize << k) - 1) as usize) == 0),
{
    vstd::arithmetic::power2::lemma2_to64();
    vstd::arithmetic::power2::lemma_pow2_strictly_increases(k as nat, 32);
    vstd::bits::lemma_usize_shl_is_mul(1, k);
    vstd::bits::lemma_usize_low_bits_mask_is_mod(x, k as nat);
    if k + 1 < 17 {
        vstd::arithmetic::power2::lemma_pow2_strictly_increases(k as nat + 1, 32);
        vstd::bits::lemma_usize_shl_is_mul(1, (k + 1) as usize);
        vstd::bits::lemma_usize_low_bits_mask_is_mod(x, k as nat + 1);
        assert(x & (((1usize << ((k + 1) as usize)) - 1) as usize) == 0 ==> x & (1usize << k) == 0) by (bit_vector)
            requires k < 16;
    } else {
        assert(x as int % pow2(17) as int == 0 ==> x & (1usize << 16usize) == 0) by {
            vstd::arithmetic::power2::lemma_pow2_strictly_increases(17, 32);
            vstd::bits::lemma_usize_low_bits_mask_is_mod(x, 17);
            assert(x & (((1usize << 17usize) - 1) as usize) == 0 ==> x & (1usize << 16usize) == 0) by (bit_vector);
            vstd::bits::lemma_usize_shl_is_mul(1, 17);
        }
    }
}

proof fn lemma_xor_bit(x: usize, k: usize)
    requires
        k < 16,
    ensures
        x as int % pow2(k as nat + 1) as int == 0 ==> x ^ (1usize << k) == x + pow2(k as nat),
{
    lemma_shift_pow2(x, k);
    assert(x & (1usize << k) == 0 ==> x ^ (1usize << k) == x + (1usize << k)) by (bit_vector)
        requires k < 16;
}

proof fn lemma_clear_bit(x: usize, k: usize)
    requires
        k < 16,
        x as int % pow2(k as nat) as int == 0,
    ensures
        x & !(1usize << k) <= x,
        (x & !(1usize << k)) as int % pow2(k as nat + 1) as int == 0,
{
    let y = x & !(1usize << k);
    lemma_shift_pow2(x, k);
    lemma_shift_pow2(y, (k + 1) as usize);
    assert(y <= x) by (bit_vector)
        requires y == x & !(1usize << k);
    assert(x & (((1usize << k) - 1) as usize) == 0 ==> y & (((1usize << ((k + 1) as usize)) - 1) as usize) == 0) by (bit_vector)
        requires y == x & !(1usize << k), k < 16;
}

/// Every frame below the limit has its splitmap bit within the splitmap.
proof fn lemma_index_in_range(p: int, m: int, e: nat)
    requires
        0 <= p < m,
    ensures
        (p / pow2(e) as int) < (m + pow2(e) - 1) / pow2(e) as int,
{
    vstd::arithmetic::power2::lemma_pow2_pos(e);
    let d = pow2(e) as int;
    vstd::arithmetic::div_mod::lemma_div_is_ordered(p, m - 1, d);
    vstd::arithmetic::div_mod::lemma_fundamental_div_mod(m - 1, d);
    vstd::arithmetic::div_mod::lemma_mod_bound(m - 1, d);
    assert((m - 1) / d + 1 == (m - 1 + d) / d) by {
        vstd::arithmetic::div_mod::lemma_div_plus_one(m - 1, d);
    }
}

/// A multiple of `2 ** b` is a multiple of `2 ** a` for every `a <= b`.
proof fn lemma_pow2_divides(x: int, a: nat, b: nat)
    requires
        a <= b,
        x % pow2(b) as int == 0,
    ensures
        x % pow2(a) as int == 0,
{
    vstd::arithmetic::power2::lemma_pow2_pos(a);
    vstd::arithmetic::power2::lemma_pow2_adds(a, (b - a) as nat);
    assert(a + (b - a) as nat == b);
    vstd::arithmetic::power2::lemma_pow2_pos((b - a) as nat);
    vstd::arithmetic::div_mod::lemma_mod_mod(x, pow2(a) as int, pow2((b - a) as nat) as int);
    assert(pow2(b) as int == pow2(a) as int * pow2((b - a) as nat) as int);
    assert(0int % pow2(a) as int == 0) by {
        vstd::arithmetic::div_mod::lemma_small_mod(0, pow2(a));
    }
}

/// Adding `2 ** a` to a multiple of `2 ** (a + 1)` gives a multiple of `2 ** a`.
proof fn lemma_pow2_divides_add(x: int, a: nat)
    requires
        x % pow2(a + 1) as int == 0,
    ensures
        (x + pow2(a)) % pow2(a) as int == 0,
{
    lemma_pow2_divides(x, a, a + 1);
    vstd::arithmetic::power2::lemma_pow2_pos(a);
    vstd::arithmetic::div_mod::lemma_mod_adds(x, pow2(a) as int, pow2(a) as int);
    vstd::arithmetic::div_mod::lemma_mod_self_0(pow2(a) as int);
}

/// `2 ** a <= 2 ** b` whenever `a <= b`.
proof fn lemma_pow2_le(a: nat, b: nat)
    requires
        a <= b,
    ensures
        pow2(a) <= pow2(b),
{
    if a < b {
        vstd::arithmetic::power2::lemma_pow2_strictly_increases(a, b);
    }
}

/// Replacing the free list of `order` changes the frame count by the list's change in length
/// times the block size.
proof fn lemma_free_pages_update(
    lists: Seq<Seq<PhysFrameNum>>,
    order: nat,
    new_list: Seq<PhysFrameNum>,
    from: nat,
)
    requires
        lists.len() == 16,
        order < 16,
        from <= 16,
    ensures
        from <= order ==> spec_free_pages_from(lists.update(order as int, new_list), from)
            + lists[order as int].len() * pow2(order) == spec_free_pages_from(lists, from)
            + new_list.len() * pow2(order),
        from > order ==> spec_free_pages_from(lists.update(order as int, new_list), from)
            == spec_free_pages_from(lists, from),
    decreases 16 - from,
{
    if from < 16 {
        lemma_free_pages_update(lists, order, new_list, from + 1);
    }
}

impl PageTableAlloc for PhysManager {
    /// The manager can be asked for a table while its invariant holds.
    open spec fn ready(&self) -> bool {
        self.wf()
    }

    /// The frames in free blocks.
    open spec fn may_hand_out(&self, frame: usize) -> bool {
        in_free_block(self.spec_lists(), frame as int)
    }

    /// A frame handed out leaves every free block while the free blocks are disjoint; giving a
    /// block back can break that (see [`PhysManager::deallocate`]).
    open spec fn hands_out_fresh(&self) -> bool {
        free_blocks_disjoint(self.spec_lists())
    }

    /// The frames that the manager covers.
    open spec fn bounds(&self) -> (int, int) {
        (0, self.spec_max_pfn() as int)
    }

    /// The free single frames: each can be handed out without splitting a block.
    open spec fn available(&self) -> nat {
        self.spec_lists()[0].len()
    }

    /// Allocates a single frame for a page table, reporting `OutOfMemory` when none is free or
    /// when handing one out would split a block reaching past the managed frames.
    fn allocate(&mut self) -> (r: Result<PhysFrameNum>) {
        alloc_frame(self)
    }
}

/// Allocates a single frame, reporting `OutOfMemory` when none is free or when handing one out
/// would split a block reaching past the managed frames.
pub fn alloc_frame(pmm: &mut PhysManager) -> (r: Result<PhysFrameNum>)
    requires
        old(pmm).wf(),
    ensures
        final(pmm).wf(),
        final(pmm).spec_max_pfn() == old(pmm).spec_max_pfn(),
        final(pmm).spec_total_pages() == old(pmm).spec_total_pages(),
        r matches Ok(pfn) ==> pfn@ < old(pmm).spec_max_pfn() && final(pmm).spec_free_pages() + 1
            == old(pmm).spec_free_pages() && pfn@ + 0x20000 <= usize::MAX,
        r is Err ==> r == Err::<PhysFrameNum, Error>(Error::OutOfMemory),
        old(pmm).spec_lists()[0].len() > 0 ==> r is Ok && final(pmm).spec_lists()[0].len() + 1
            == old(pmm).spec_lists()[0].len(),
        old(pmm).split_in_range(0) ==> (r is Ok <==> spec_first_nonempty(old(pmm).spec_lists(), 0)
            != 16),
        free_blocks_disjoint(old(pmm).spec_lists()) ==> {
            &&& free_blocks_disjoint(final(pmm).spec_lists())
            &&& forall|g: int|
                #[trigger] in_free_block(final(pmm).spec_lists(), g) ==> in_free_block(old(pmm).spec_lists(), g)
            &&& r matches Ok(pfn) ==> in_free_block(old(pmm).spec_lists(), pfn@ as int) && !in_free_block(
                final(pmm).spec_lists(),
                pfn@ as int,
            )
        },
{
    if !pmm.split_fits(0) {
        return Err(Error::OutOfMemory);
    }
    let ghost lists0 = pmm.spec_lists();
    match pmm.allocate(0) {
        Some(pfn) => {
            proof {
                vstd::arithmetic::power2::lemma2_to64();
                if free_blocks_disjoint(lists0) {
                    assert(pfn@ <= pfn@ < pfn@ + pow2(0));
                    assert(!in_free_block(pmm.spec_lists(), pfn@ as int));
                }
            }
            Ok(pfn)
        },
        None => Err(Error::OutOfMemory),
    }
}

/// Giving back a block just handed out leaves at least as many frames free as before: `p1` is
/// `p0` after a block of `order` was handed out ([`PhysManager::allocate`]), and `p2` is `p1`
/// after the block was given back ([`PhysManager::deallocate`]), merged with whatever buddies
/// were free.
pub proof fn law_free_after_alloc_and_dealloc(p0: PhysManager, p1: PhysManager, p2: PhysManager, order: nat)
    requires
        order < 16,
        p1.spec_free_pages() + pow2(order) == p0.spec_free_pages(),
        p2.spec_free_pages() >= p1.spec_free_pages() + pow2(order),
    ensures
        p2.spec_free_pages() >= p0.spec_free_pages(),
{
}

} // verus!
