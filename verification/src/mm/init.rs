//! Memory manager initialization: interpreting the bootloader's memory map, choosing the boot
//! heap, gathering reserved frames, mapping the physmap and seeding the frame allocator.
use vstd::prelude::*;
use core::ops::Range;
use arrayvec::ArrayVec;
use crate::arch::{
    reserved_ranges as arch_reserved_ranges, spec_phys_map_base, spec_phys_map_max_pages,
    BOOTHEAP_EARLYMAP_MAX_PAGES, PAGE_SIZE,
};
use crate::err::Result;
use super::bootheap::BootHeap;
use super::early::{EarlyMapper, EarlyMapperSlot, KernelImage};
use super::physmap::mem_map_bounded;
use super::pmm::PhysManager;
use super::pt::PageTableMemory;
use super::types::{PhysAddr, PhysFrameNum};
use super::utils::{
    avoids_all, in_some_range, is_early_usable, is_usable, iter_usable_ranges,
    sorted_by_start, sorted_disjoint, within_some_range, MemoryKind, MemoryRange,
};

verus! {

/// The frames that must not be handed out: at most five ranges, sorted by their first frame.
pub type ReservedRanges = ArrayVec<Range<PhysFrameNum>, 5>;

/// The ranges held by a [`ReservedRanges`], in order.
pub uninterp spec fn reserved_items(v: ArrayVec<Range<PhysFrameNum>, 5>) -> Seq<Range<PhysFrameNum>>;

/// Creates an empty vector (`ArrayVec::new`).
#[verifier::external_body]
fn reserved_new() -> (r: ReservedRanges)
    ensures
        reserved_items(r) == Seq::<Range<PhysFrameNum>>::empty(),
{
    ArrayVec::new()
}

/// Appends `range` (`ArrayVec::push`, which panics when the vector is full).
#[verifier::external_body]
fn reserved_push(v: &mut ReservedRanges, range: Range<PhysFrameNum>)
    requires
        reserved_items(*old(v)).len() < 5,
    ensures
        reserved_items(*final(v)) == reserved_items(*old(v)).push(range),
{
    v.push(range)
}

/// The ranges held, in order (`ArrayVec::as_slice`).
#[verifier::external_body]
fn reserved_as_slice(v: &ReservedRanges) -> (r: &[Range<PhysFrameNum>])
    ensures
        r@ == reserved_items(*v),
{
    v.as_slice()
}

/// Sorts the ranges by first frame with the slice's unstable sort (`<[T]>::sort_unstable_by_key`
/// on `ArrayVec::as_mut_slice`), which leaves the same ranges in ascending order of their keys.
#[verifier::external_body]
fn sort_reserved_ranges(v: &mut ReservedRanges)
    ensures
        reserved_items(*final(v)).to_multiset() == reserved_items(*old(v)).to_multiset(),
        reserved_items(*final(v)).len() == reserved_items(*old(v)).len(),
        sorted_by_start(reserved_items(*final(v))),
{
    v.as_mut_slice().sort_unstable_by_key(|range| range.start.as_usize())
}

/// Whether `range` is exactly the frames of entry `i` of `mem_map`, an early-usable entry.
pub open spec fn frames_of_entry(mem_map: Seq<MemoryRange>, i: int, range: Range<PhysFrameNum>) -> bool {
    &&& 0 <= i < mem_map.len()
    &&& mem_map[i].kind == MemoryKind::Usable
    &&& range.start@ == mem_map[i].start_page
    &&& range.end@ == mem_map[i].start_page + mem_map[i].page_count
}

/// Whether the entries of `mem_map` are sorted in ascending order and disjoint, as the
/// bootloader hands them over.
pub open spec fn mem_map_sorted(mem_map: Seq<MemoryRange>) -> bool {
    forall|i: int, j: int|
        0 <= i < j < mem_map.len() ==> (#[trigger] mem_map[i]).start_page + mem_map[i].page_count
            <= (#[trigger] mem_map[j]).start_page
}

/// The frames of the early-usable entries of `mem_map`, one range per entry, in map order.
pub open spec fn early_ranges(mem_map: Seq<MemoryRange>) -> Seq<Range<PhysFrameNum>>
    decreases mem_map.len(),
{
    if mem_map.len() == 0 {
        Seq::empty()
    } else {
        let before = early_ranges(mem_map.drop_last());
        let last = mem_map.last();
        if last.kind == MemoryKind::Usable {
            before.push(
                Range {
                    start: PhysFrameNum::spec_new(last.start_page),
                    end: PhysFrameNum::spec_new((last.start_page + last.page_count) as usize),
                },
            )
        } else {
            before
        }
    }
}

/// Whether `range` is exactly the frames of some early-usable entry of `mem_map`.
pub open spec fn is_entry_frames(mem_map: Seq<MemoryRange>, range: Range<PhysFrameNum>) -> bool {
    exists|i: int| #[trigger] frames_of_entry(mem_map, i, range)
}

/// The ranges of `mem_map` that can be used during early boot, in map order.
pub fn early_usable_ranges(mem_map: &[MemoryRange]) -> (r: Vec<Range<PhysFrameNum>>)
    requires
        forall|i: int|
            0 <= i < mem_map@.len() ==> (#[trigger] mem_map@[i]).start_page + mem_map@[i].page_count
                <= usize::MAX,
    ensures
        r@.len() <= mem_map@.len(),
        r@ == early_ranges(mem_map@),
        forall|k: int| 0 <= k < r@.len() ==> is_entry_frames(mem_map@, #[trigger] r@[k]),
        mem_map_sorted(mem_map@) ==> sorted_disjoint(r@),
        forall|i: int, p: int|
            #![trigger mem_map@[i], in_some_range(r@, p)]
            0 <= i < mem_map@.len() && mem_map@[i].kind == MemoryKind::Usable
                && mem_map@[i].start_page <= p < mem_map@[i].start_page + mem_map@[i].page_count
                ==> in_some_range(r@, p),
{
    let mut out: Vec<Range<PhysFrameNum>> = Vec::new();
    let ghost mut entry: Seq<int> = Seq::empty();
    let mut i: usize = 0;
    while i < mem_map.len()
        invariant
            i <= mem_map@.len(),
            out@.len() <= i,
            forall|j: int|
                0 <= j < mem_map@.len() ==> (#[trigger] mem_map@[j]).start_page
                    + mem_map@[j].page_count <= usize::MAX,
            entry.len() == out@.len(),
            forall|k: int| 0 <= k < out@.len() ==> frames_of_entry(mem_map@, entry[k], #[trigger] out@[k]),
            forall|k: int| 0 <= k < entry.len() ==> #[trigger] entry[k] < i,
            forall|k1: int, k2: int| 0 <= k1 < k2 < entry.len() ==> entry[k1] < entry[k2],
            out@ == early_ranges(mem_map@.take(i as int)),
            forall|j: int, p: int|
                #![trigger mem_map@[j], in_some_range(out@, p)]
                0 <= j < i && mem_map@[j].kind == MemoryKind::Usable && mem_map@[j].start_page <= p
                    < mem_map@[j].start_page + mem_map@[j].page_count ==> in_some_range(out@, p),
        decreases mem_map@.len() - i,
    {
        let range = mem_map[i];
        let ghost old_out = out@;
        proof {
            assert(mem_map@.take(i + 1).drop_last() =~= mem_map@.take(i as int));
            assert(mem_map@.take(i + 1).last() == range);
        }
        if is_early_usable(range.kind) {
            let start = PhysFrameNum::new(range.start_page);
            let end = start.plus(range.page_count);
            proof {
                PhysFrameNum::lemma_spec_new(start);
                PhysFrameNum::lemma_spec_new(end);
            }
            out.push(start..end);
            proof {
                entry = entry.push(i as int);
            }
        }
        proof {
            assert forall|p: int| in_some_range(old_out, p) implies #[trigger] in_some_range(out@, p) by {
                let k = choose|k: int| 0 <= k < old_out.len() && old_out[k].start@ <= p < #[trigger] old_out[k].end@;
                assert(out@[k] == old_out[k]);
            }
            assert forall|j: int, p: int|
                #![trigger mem_map@[j], in_some_range(out@, p)]
                0 <= j < i + 1 && mem_map@[j].kind == MemoryKind::Usable && mem_map@[j].start_page <= p
                    < mem_map@[j].start_page + mem_map@[j].page_count implies in_some_range(out@, p) by {
                if j == i {
                    let k = out@.len() - 1;
                    assert(out@[k].start@ <= p < out@[k].end@);
                }
            }
            assert forall|k: int| 0 <= k < out@.len() implies frames_of_entry(mem_map@, entry[k], #[trigger] out@[k]) by {
                if k < old_out.len() {
                    assert(out@[k] == old_out[k]);
                }
            }
        }
        i = i + 1;
    }
    proof {
        assert(mem_map@.take(mem_map@.len() as int) =~= mem_map@);
        assert forall|k: int| 0 <= k < out@.len() implies is_entry_frames(mem_map@, #[trigger] out@[k]) by {
            assert(frames_of_entry(mem_map@, entry[k], out@[k]));
        }
        if mem_map_sorted(mem_map@) {
            assert forall|k1: int, k2: int| 0 <= k1 < k2 < out@.len() implies out@[k1].end@ <= out@[k2].start@ by {
                assert(frames_of_entry(mem_map@, entry[k1], out@[k1]));
                assert(frames_of_entry(mem_map@, entry[k2], out@[k2]));
            }
            assert forall|k: int| 0 <= k < out@.len() implies out@[k].start@ <= out@[k].end@ by {
                assert(frames_of_entry(mem_map@, entry[k], out@[k]));
            }
        }
    }
    out
}

/// Reports every part of the early-usable ranges of `mem_map` not covered by `reserved_ranges`.
pub fn iter_early_usable_ranges(
    mem_map: &[MemoryRange],
    reserved_ranges: &[Range<PhysFrameNum>],
) -> (r: Vec<Range<PhysFrameNum>>)
    requires
        forall|i: int|
            0 <= i < mem_map@.len() ==> (#[trigger] mem_map@[i]).start_page + mem_map@[i].page_count
                <= usize::MAX,
        forall|i: int|
            0 <= i < reserved_ranges@.len() ==> reserved_ranges@[i].start@ <= reserved_ranges@[i].end@,
    ensures
        forall|k: int|
            0 <= k < r@.len() ==> r@[k].start@ < r@[k].end@ && exists|i: int|
                0 <= i < mem_map@.len() && mem_map@[i].kind == MemoryKind::Usable
                    && mem_map@[i].start_page <= r@[k].start@ && r@[k].end@ <= #[trigger] (
                mem_map@[i].start_page + mem_map@[i].page_count),
        forall|i: int, p: int|
            #![trigger mem_map@[i], in_some_range(r@, p)]
            0 <= i < mem_map@.len() && mem_map@[i].kind == MemoryKind::Usable
                && mem_map@[i].start_page <= p < mem_map@[i].start_page + mem_map@[i].page_count
                && !in_some_range(reserved_ranges@, p) ==> in_some_range(r@, p),
        mem_map_sorted(mem_map@) ==> sorted_disjoint(r@),
        mem_map_sorted(mem_map@) && sorted_by_start(reserved_ranges@) ==> forall|k: int|
            0 <= k < r@.len() ==> avoids_all(#[trigger] r@[k], reserved_ranges@),
{
    let usable = early_usable_ranges(mem_map);
    let r = iter_usable_ranges(usable.as_slice(), reserved_ranges);
    proof {
        assert forall|k: int| 0 <= k < r@.len() implies r@[k].start@ < r@[k].end@ && exists|i: int|
            0 <= i < mem_map@.len() && mem_map@[i].kind == MemoryKind::Usable
                && mem_map@[i].start_page <= r@[k].start@ && r@[k].end@ <= #[trigger] (
            mem_map@[i].start_page + mem_map@[i].page_count) by {
            assert(within_some_range(usable@, r@[k]));
            let u = choose|u: int| 0 <= u < usable@.len() && usable@[u].start@ <= r@[k].start@ && r@[k].end@ <= #[trigger] usable@[u].end@;
            let i = choose|i: int| #[trigger] frames_of_entry(mem_map@, i, usable@[u]);
        }
        assert forall|i: int, p: int|
            #![trigger mem_map@[i], in_some_range(r@, p)]
            0 <= i < mem_map@.len() && mem_map@[i].kind == MemoryKind::Usable
                && mem_map@[i].start_page <= p < mem_map@[i].start_page + mem_map@[i].page_count
                && !in_some_range(reserved_ranges@, p) implies in_some_range(r@, p) by {
            assert(in_some_range(usable@, p));
            let u = choose|u: int| 0 <= u < usable@.len() && usable@[u].start@ <= p < #[trigger] usable@[u].end@;
            assert(usable@[u].start@ <= p < usable@[u].end@);
        }
    }
    r
}

/// The first frame past the highest usable frame of `mem_map`.
pub fn highest_usable_pfn(mem_map: &[MemoryRange]) -> (r: PhysFrameNum)
    requires
        forall|i: int|
            0 <= i < mem_map@.len() ==> (#[trigger] mem_map@[i]).start_page + mem_map@[i].page_count
                <= usize::MAX,
        exists|i: int| 0 <= i < mem_map@.len() && is_usable_kind(#[trigger] mem_map@[i].kind),
    ensures
        exists|i: int|
            0 <= i < mem_map@.len() && is_usable_kind(#[trigger] mem_map@[i].kind) && r@
                == mem_map@[i].start_page + mem_map@[i].page_count,
        forall|i: int|
            0 <= i < mem_map@.len() && is_usable_kind(#[trigger] mem_map@[i].kind) ==> mem_map@[i].start_page
                + mem_map@[i].page_count <= r@,
{
    let mut best: Option<usize> = None;
    let mut i: usize = 0;
    while i < mem_map.len()
        invariant
            i <= mem_map@.len(),
            forall|j: int|
                0 <= j < mem_map@.len() ==> (#[trigger] mem_map@[j]).start_page
                    + mem_map@[j].page_count <= usize::MAX,
            best is None ==> forall|j: int| 0 <= j < i ==> !is_usable_kind(#[trigger] mem_map@[j].kind),
            best matches Some(b) ==> exists|j: int|
                0 <= j < i && is_usable_kind(#[trigger] mem_map@[j].kind) && b == mem_map@[j].start_page
                    + mem_map@[j].page_count,
            best matches Some(b) ==> forall|j: int|
                0 <= j < i && is_usable_kind(#[trigger] mem_map@[j].kind) ==> mem_map@[j].start_page
                    + mem_map@[j].page_count <= b,
        decreases mem_map@.len() - i,
    {
        let range = mem_map[i];
        if is_usable(range.kind) {
            let end = range.start_page + range.page_count;
            best = match best {
                Some(b) => if end > b {
                    Some(end)
                } else {
                    Some(b)
                },
                None => Some(end),
            };
        }
        i = i + 1;
    }
    match best {
        Some(b) => PhysFrameNum::new(b),
        None => {
            proof {
                let j = choose|j: int| 0 <= j < mem_map@.len() && is_usable_kind(#[trigger] mem_map@[j].kind);
            }
            PhysFrameNum::new(0)
        },
    }
}

/// Whether memory of `kind` can be handed to the frame allocator.
pub open spec fn is_usable_kind(kind: MemoryKind) -> bool {
    kind == MemoryKind::Usable || kind == MemoryKind::FirmwareBoot
}

/// Whether frame `p` lies in an early-usable range of `mem_map` and outside every reserved range.
pub open spec fn is_free_early_frame(
    mem_map: Seq<MemoryRange>,
    reserved_ranges: Seq<Range<PhysFrameNum>>,
    p: int,
) -> bool {
    &&& exists|i: int|
        0 <= i < mem_map.len() && (#[trigger] mem_map[i]).kind == MemoryKind::Usable
            && mem_map[i].start_page <= p < mem_map[i].start_page + mem_map[i].page_count
    &&& !in_some_range(reserved_ranges, p)
}

/// Whether `r` is the longest of `runs`: runs of frames, each inside one early-usable entry of
/// `mem_map`, that together hold every early-usable frame outside `reserved_ranges`, sorted and
/// disjoint where the memory map is sorted, and clear of the reserved ranges where those are
/// sorted too.
pub open spec fn longest_free_run(
    mem_map: Seq<MemoryRange>,
    reserved_ranges: Seq<Range<PhysFrameNum>>,
    runs: Seq<Range<PhysFrameNum>>,
    r: Range<PhysFrameNum>,
) -> bool {
    &&& exists|k: int| 0 <= k < runs.len() && #[trigger] runs[k] == r
    &&& forall|k: int|
        0 <= k < runs.len() ==> (#[trigger] runs[k]).start@ < runs[k].end@ && exists|i: int|
            0 <= i < mem_map.len() && mem_map[i].kind == MemoryKind::Usable && mem_map[i].start_page
                <= runs[k].start@ && runs[k].end@ <= #[trigger] (mem_map[i].start_page + mem_map[i].page_count)
    &&& forall|p: int| is_free_early_frame(mem_map, reserved_ranges, p) ==> #[trigger] in_some_range(runs, p)
    &&& mem_map_sorted(mem_map) ==> sorted_disjoint(runs)
    &&& mem_map_sorted(mem_map) && sorted_by_start(reserved_ranges) ==> forall|k: int|
        0 <= k < runs.len() ==> avoids_all(#[trigger] runs[k], reserved_ranges)
    &&& forall|k: int| 0 <= k < runs.len() ==> (#[trigger] runs[k]).end@ - runs[k].start@ <= r.end@ - r.start@
}

/// Picks the largest range of early-usable memory not covered by `reserved_ranges` (the first
/// one, among several of the largest size), to serve as the boot heap.
pub fn largest_early_usable_range(
    mem_map: &[MemoryRange],
    reserved_ranges: &[Range<PhysFrameNum>],
) -> (r: Range<PhysFrameNum>)
    requires
        forall|i: int|
            0 <= i < mem_map@.len() ==> (#[trigger] mem_map@[i]).start_page + mem_map@[i].page_count
                <= usize::MAX,
        forall|i: int|
            0 <= i < reserved_ranges@.len() ==> reserved_ranges@[i].start@ <= reserved_ranges@[i].end@,
        exists|p: int| is_free_early_frame(mem_map@, reserved_ranges@, p),
    ensures
        r.start@ < r.end@,
        exists|i: int|
            0 <= i < mem_map@.len() && mem_map@[i].kind == MemoryKind::Usable
                && mem_map@[i].start_page <= r.start@ && r.end@ <= #[trigger] (
            mem_map@[i].start_page + mem_map@[i].page_count),
        mem_map_sorted(mem_map@) && sorted_by_start(reserved_ranges@) ==> avoids_all(r, reserved_ranges@),
        exists|runs: Seq<Range<PhysFrameNum>>| #[trigger] longest_free_run(mem_map@, reserved_ranges@, runs, r),
{
    let ranges = iter_early_usable_ranges(mem_map, reserved_ranges);
    proof {
        let p = choose|p: int| is_free_early_frame(mem_map@, reserved_ranges@, p);
        let i = choose|i: int|
            0 <= i < mem_map@.len() && (#[trigger] mem_map@[i]).kind == MemoryKind::Usable
                && mem_map@[i].start_page <= p < mem_map@[i].start_page + mem_map@[i].page_count;
        assert(in_some_range(ranges@, p));
    }
    let mut best: usize = 0;
    let mut k: usize = 1;
    while k < ranges.len()
        invariant
            0 <= best < k <= ranges@.len(),
            forall|j: int| 0 <= j < ranges@.len() ==> ranges@[j].start@ < ranges@[j].end@,
            forall|j: int|
                0 <= j < k ==> (#[trigger] ranges@[j]).end@ - ranges@[j].start@ <= ranges@[best as int].end@
                    - ranges@[best as int].start@,
        decreases ranges@.len() - k,
    {
        if ranges[k].end.diff(ranges[k].start) > ranges[best].end.diff(ranges[best].start) {
            best = k;
        }
        k = k + 1;
    }
    let r = ranges[best].start..ranges[best].end;
    proof {
        assert(ranges@[best as int] == r);
        assert forall|p: int| is_free_early_frame(mem_map@, reserved_ranges@, p) implies #[trigger] in_some_range(
            ranges@,
            p,
        ) by {
            let i = choose|i: int|
                0 <= i < mem_map@.len() && (#[trigger] mem_map@[i]).kind == MemoryKind::Usable
                    && mem_map@[i].start_page <= p < mem_map@[i].start_page + mem_map@[i].page_count;
        }
        assert(longest_free_run(mem_map@, reserved_ranges@, ranges@, r));
    }
    r
}

/// Gathers the frames that must not be handed out (the kernel image, the bootinfo and the
/// architecture's reserved frames), sorted by first frame.
pub fn gather_reserved_ranges(bootinfo_range: Range<PhysFrameNum>, kimage: KernelImage) -> (r:
    ReservedRanges)
    requires
        kimage.wf(),
    ensures
        reserved_items(r).len() == 3,
        sorted_by_start(reserved_items(r)),
        reserved_items(r).to_multiset() == seq![
            kimage_range_spec(kimage),
            bootinfo_range,
            arch_reserved_spec(),
        ].to_multiset(),
{
    let mut ret = reserved_new();
    let kimage_range = kimage.phys_range();
    proof {
        PhysFrameNum::lemma_spec_new(kimage.phys_base);
        PhysFrameNum::lemma_spec_new(kimage_range.start);
        PhysFrameNum::lemma_spec_new(kimage_range.end);
    }
    reserved_push(&mut ret, kimage_range);
    reserved_push(&mut ret, bootinfo_range);
    let (start, end) = arch_reserved_ranges();
    proof {
        PhysFrameNum::lemma_spec_new(start);
        PhysFrameNum::lemma_spec_new(end);
    }
    reserved_push(&mut ret, start..end);
    proof {
        assert(reserved_items(ret) =~= seq![
            kimage_range_spec(kimage),
            bootinfo_range,
            arch_reserved_spec(),
        ]);
    }
    sort_reserved_ranges(&mut ret);
    ret
}

/// The frames occupied by the kernel image.
pub open spec fn kimage_range_spec(kimage: KernelImage) -> Range<PhysFrameNum> {
    Range {
        start: kimage.phys_base,
        end: PhysFrameNum::spec_new((kimage.phys_base@ + kimage.total_pages) as usize),
    }
}

/// The frames that the architecture reserves.
pub open spec fn arch_reserved_spec() -> Range<PhysFrameNum> {
    Range { start: PhysFrameNum::spec_new(0), end: PhysFrameNum::spec_new(0x100) }
}

/// Adds the frames that the boot heap has handed out to `reserved_ranges`, keeping them sorted.
pub fn reserve_bootheap(reserved_ranges: &mut ReservedRanges, bootheap: BootHeap)
    requires
        reserved_items(*old(reserved_ranges)).len() < 5,
    ensures
        sorted_by_start(reserved_items(*final(reserved_ranges))),
        reserved_items(*final(reserved_ranges)).to_multiset() == reserved_items(
            *old(reserved_ranges),
        ).to_multiset().insert(
            Range {
                start: PhysFrameNum::spec_new((bootheap.spec_base() / 4096) as usize),
                end: PhysFrameNum::spec_new(((bootheap.spec_cur() + 4095) / 4096) as usize),
            },
        ),
        ranges_ordered(reserved_items(*old(reserved_ranges))) ==> ranges_ordered(
            reserved_items(*final(reserved_ranges)),
        ),
{
    let used = bootheap.used_range();
    let frames = used.start.containing_frame()..used.end.containing_tail_frame();
    proof {
        PhysFrameNum::lemma_spec_new(frames.start);
        PhysFrameNum::lemma_spec_new(frames.end);
    }
    let ghost before = reserved_items(*reserved_ranges);
    reserved_push(reserved_ranges, frames);
    proof {
        vstd::seq_lib::to_multiset_build(before, frames);
    }
    sort_reserved_ranges(reserved_ranges);
    proof {
        if ranges_ordered(before) {
            assert(ranges_ordered(before.push(frames))) by {
                assert forall|i: int| 0 <= i < before.push(frames).len() implies (#[trigger] before.push(
                    frames,
                )[i]).start@ <= before.push(frames)[i].end@ by {
                    if i < before.len() {
                        assert(before.push(frames)[i] == before[i]);
                    }
                }
            }
            lemma_ranges_ordered_perm(reserved_items(*reserved_ranges), before.push(frames));
        }
    }
}

/// Membership of a frame in a list of ranges does not depend on the order of the list.
proof fn lemma_in_some_range_perm(a: Seq<Range<PhysFrameNum>>, b: Seq<Range<PhysFrameNum>>, p: int)
    requires
        a.to_multiset() == b.to_multiset(),
    ensures
        in_some_range(a, p) == in_some_range(b, p),
{
    a.to_multiset_ensures();
    b.to_multiset_ensures();
    if in_some_range(a, p) {
        let i = choose|i: int| 0 <= i < a.len() && a[i].start@ <= p < #[trigger] a[i].end@;
        assert(a.contains(a[i]));
        assert(a.to_multiset().count(a[i]) > 0);
        assert(b.contains(a[i]));
        let j = choose|j: int| 0 <= j < b.len() && b[j] == a[i];
        assert(b[j].start@ <= p < b[j].end@);
    }
    if in_some_range(b, p) {
        let i = choose|i: int| 0 <= i < b.len() && b[i].start@ <= p < #[trigger] b[i].end@;
        assert(b.contains(b[i]));
        assert(b.to_multiset().count(b[i]) > 0);
        assert(a.contains(b[i]));
        let j = choose|j: int| 0 <= j < a.len() && a[j] == b[i];
        assert(a[j].start@ <= p < a[j].end@);
    }
}

/// Whether no range of `ranges` ends before it starts.
pub open spec fn ranges_ordered(ranges: Seq<Range<PhysFrameNum>>) -> bool {
    forall|i: int| 0 <= i < ranges.len() ==> (#[trigger] ranges[i]).start@ <= ranges[i].end@
}

/// Whether a range ends before it starts does not depend on the order of the list.
proof fn lemma_ranges_ordered_perm(a: Seq<Range<PhysFrameNum>>, b: Seq<Range<PhysFrameNum>>)
    requires
        a.to_multiset() == b.to_multiset(),
        ranges_ordered(b),
    ensures
        ranges_ordered(a),
{
    a.to_multiset_ensures();
    b.to_multiset_ensures();
    assert forall|i: int| 0 <= i < a.len() implies (#[trigger] a[i]).start@ <= a[i].end@ by {
        assert(a.contains(a[i]));
        assert(a.to_multiset().count(a[i]) > 0);
        assert(b.contains(a[i]));
    }
}

/// The number of frames in `ranges`.
pub open spec fn total_frames(ranges: Seq<Range<PhysFrameNum>>) -> int
    decreases ranges.len(),
{
    if ranges.len() == 0 {
        0
    } else {
        total_frames(ranges.drop_last()) + (ranges.last().end@ - ranges.last().start@)
    }
}

/// Sorted, disjoint ranges hold no more frames than the end of the last one.
proof fn lemma_total_frames_bounded(ranges: Seq<Range<PhysFrameNum>>)
    requires
        sorted_disjoint(ranges),
        ranges.len() > 0,
    ensures
        0 <= total_frames(ranges) <= ranges.last().end@,
    decreases ranges.len(),
{
    let init = ranges.drop_last();
    assert(ranges[ranges.len() - 1] == ranges.last());
    assert(ranges[ranges.len() - 1].start@ <= ranges[ranges.len() - 1].end@);
    if init.len() == 0 {
        assert(total_frames(init) == 0);
    } else {
        assert(sorted_disjoint(init)) by {
            assert forall|i: int| 0 <= i < init.len() implies init[i] == ranges[i] by {}
        }
        lemma_total_frames_bounded(init);
        assert(init.last() == ranges[ranges.len() - 2]);
    }
}

/// State carried from [`init_early`] to [`init_late`]: the boot heap and the frames that must not
/// be handed to the frame allocator.
pub struct InitContext {
    bootheap: BootHeap,
    reserved_ranges: ReservedRanges,
}

impl InitContext {
    /// The boot heap.
    pub closed spec fn spec_bootheap(&self) -> BootHeap {
        self.bootheap
    }

    /// The reserved ranges.
    pub closed spec fn spec_reserved(&self) -> Seq<Range<PhysFrameNum>> {
        reserved_items(self.reserved_ranges)
    }

    /// The frames that must not be handed to the frame allocator, sorted by first frame.
    pub fn reserved_ranges(&self) -> (r: &[Range<PhysFrameNum>])
        ensures
            r@ == self.spec_reserved(),
    {
        reserved_as_slice(&self.reserved_ranges)
    }

    /// The boot heap.
    pub fn bootheap(&self) -> (r: &BootHeap)
        ensures
            *r == self.spec_bootheap(),
    {
        &self.bootheap
    }

    /// There is room for the boot heap's own range among the reserved ranges.
    #[verifier::type_invariant]
    closed spec fn wf(&self) -> bool {
        &&& reserved_items(self.reserved_ranges).len() < 5
        &&& ranges_ordered(reserved_items(self.reserved_ranges))
    }
}

/// The frames holding the bootinfo, which starts at `paddr` and spans `size` bytes.
pub open spec fn bootinfo_frames(paddr: PhysAddr, size: usize) -> Range<PhysFrameNum> {
    Range {
        start: PhysFrameNum::spec_new((paddr@ / PAGE_SIZE) as usize),
        end: PhysFrameNum::spec_new(((paddr@ + size + PAGE_SIZE - 1) / PAGE_SIZE as int) as usize),
    }
}

/// The frames that [`gather_reserved_ranges`] reserves, in no particular order.
pub open spec fn reserved_set(bootinfo: Range<PhysFrameNum>, kimage: KernelImage) -> Seq<
    Range<PhysFrameNum>,
> {
    seq![kimage_range_spec(kimage), bootinfo, arch_reserved_spec()]
}

/// Maps the bootinfo, which starts at `bootinfo_paddr` and spans `bootinfo_size` bytes, with the
/// early mapper, returning the page at which it starts to be mapped.
///
/// Errors: those of [`EarlyMapper::map`].
pub fn map_bootinfo(
    mapper: &mut EarlyMapper,
    mem: &mut PageTableMemory,
    bootinfo_paddr: PhysAddr,
    bootinfo_size: usize,
) -> (r: Result<super::types::VirtPageNum>)
    requires
        old(mapper).spec_slots().len() < 5,
        bootinfo_paddr@ + 3 * bootinfo_size + 2 * PAGE_SIZE <= usize::MAX,
    ensures
        r matches Ok(vpn) ==> vpn@ == bootinfo_paddr@ as int / PAGE_SIZE as int && final(mapper).spec_slots()
            == old(mapper).spec_slots().push(
            EarlyMapperSlot {
                base: PhysFrameNum::spec_new((bootinfo_paddr@ / PAGE_SIZE) as usize),
                pages: ((bootinfo_size + PAGE_SIZE - 1) / PAGE_SIZE as int) as usize,
            },
        ),
        r is Err ==> final(mapper).spec_slots() == old(mapper).spec_slots(),
{
    let pages = crate::num_utils::div_ceil(bootinfo_size, PAGE_SIZE);
    let base = bootinfo_paddr.containing_frame();
    proof {
        PhysFrameNum::lemma_spec_new(base);
        assert(pages <= bootinfo_size + 1) by (nonlinear_arith)
            requires
                pages == (bootinfo_size + 4095) / 4096int;
        assert(base@ <= bootinfo_paddr@) by (nonlinear_arith)
            requires
                base@ == bootinfo_paddr@ as int / 4096int;
    }
    mapper.map(mem, base, pages)
}

/// Whether the boot heap `bootheap` spans the frames `frames`, and `slot` is the early mapping of
/// its start: the whole heap, or its first `BOOTHEAP_EARLYMAP_MAX_PAGES` frames when it is
/// larger.
pub open spec fn bootheap_placed(frames: Range<PhysFrameNum>, bootheap: BootHeap, slot: EarlyMapperSlot) -> bool {
    let pages = frames.end@ - frames.start@;
    &&& bootheap.spec_base() == frames.start@ * PAGE_SIZE
    &&& bootheap.spec_end() == frames.end@ * PAGE_SIZE
    &&& slot.base == frames.start
    &&& slot.pages == if pages < BOOTHEAP_EARLYMAP_MAX_PAGES { pages } else { BOOTHEAP_EARLYMAP_MAX_PAGES as int }
}

/// Performs the part of memory manager initialization that needs only the memory map: reserves
/// the kernel image, the bootinfo (`bootinfo_size` bytes at `bootinfo_paddr`) and the
/// architecture's frames, picks the largest early-usable range left as the boot heap, maps the
/// start of the boot heap with the early mapper, and builds the physmap of the page table rooted
/// at `kernel_root`, taking its page tables from the boot heap.
///
/// On success the boot heap spans the longest run of free early-usable frames
/// ([`longest_free_run`]), inside one early-usable entry of `mem_map` and outside every reserved
/// range where the memory map is sorted, and the mapper's new last slot maps its start
/// ([`bootheap_placed`]).
///
/// Errors: those of [`EarlyMapper::map`] and of [`super::physmap::init`].
pub fn init_early(
    mem_map: &[MemoryRange],
    bootinfo_paddr: PhysAddr,
    bootinfo_size: usize,
    kimage: KernelImage,
    mapper: &mut EarlyMapper,
    mem: &mut PageTableMemory,
    kernel_root: PhysFrameNum,
) -> (r: Result<InitContext>)
    requires
        usize::BITS == 64,
        kimage.wf(),
        old(mapper).spec_slots().len() < 5,
        bootinfo_paddr@ + bootinfo_size + PAGE_SIZE <= usize::MAX,
        mem_map_bounded(mem_map@, spec_phys_map_max_pages() as int),
        spec_phys_map_base() + spec_phys_map_max_pages() <= usize::MAX,
        exists|p: int|
            is_free_early_frame(
                mem_map@,
                reserved_set(bootinfo_frames(bootinfo_paddr, bootinfo_size), kimage),
                p,
            ),
    ensures
        r matches Ok(ctx) ==> {
            &&& ctx.spec_reserved().len() == 3
            &&& sorted_by_start(ctx.spec_reserved())
            &&& ctx.spec_reserved().to_multiset() == reserved_set(
                bootinfo_frames(bootinfo_paddr, bootinfo_size),
                kimage,
            ).to_multiset()
            &&& final(mapper).spec_slots().len() == old(mapper).spec_slots().len() + 1
            &&& final(mapper).spec_slots().drop_last() == old(mapper).spec_slots()
            &&& exists|frames: Range<PhysFrameNum>|
                {
                    &&& #[trigger] bootheap_placed(frames, ctx.spec_bootheap(), final(mapper).spec_slots().last())
                    &&& frames.start@ < frames.end@
                    &&& exists|i: int|
                        0 <= i < mem_map@.len() && mem_map@[i].kind == MemoryKind::Usable
                            && mem_map@[i].start_page <= frames.start@ && frames.end@ <= #[trigger] (
                        mem_map@[i].start_page + mem_map@[i].page_count)
                    &&& mem_map_sorted(mem_map@) ==> avoids_all(frames, ctx.spec_reserved())
                    &&& exists|runs: Seq<Range<PhysFrameNum>>|
                        #[trigger] longest_free_run(mem_map@, ctx.spec_reserved(), runs, frames)
                }
        },
{
    let bootinfo_range = bootinfo_paddr.containing_frame()..bootinfo_paddr.plus(
        bootinfo_size,
    ).containing_tail_frame();
    proof {
        PhysFrameNum::lemma_spec_new(bootinfo_range.start);
        PhysFrameNum::lemma_spec_new(bootinfo_range.end);
        assert(bootinfo_range == bootinfo_frames(bootinfo_paddr, bootinfo_size));
    }
    let reserved_ranges = gather_reserved_ranges(bootinfo_range, kimage);
    let reserved = reserved_as_slice(&reserved_ranges);
    proof {
        let p = choose|p: int|
            is_free_early_frame(
                mem_map@,
                reserved_set(bootinfo_frames(bootinfo_paddr, bootinfo_size), kimage),
                p,
            );
        lemma_in_some_range_perm(
            reserved@,
            reserved_set(bootinfo_frames(bootinfo_paddr, bootinfo_size), kimage),
            p,
        );
        assert(is_free_early_frame(mem_map@, reserved@, p));
        assert forall|i: int|
            0 <= i < mem_map@.len() implies (#[trigger] mem_map@[i]).start_page + mem_map@[i].page_count
            <= usize::MAX by {}
        assert forall|i: int| 0 <= i < reserved@.len() implies reserved@[i].start@ <= reserved@[i].end@ by {
            assert(reserved@.to_multiset().count(reserved@[i]) > 0) by {
                broadcast use vstd::seq_lib::group_to_multiset_ensures;
                assert(reserved@.contains(reserved@[i]));
            }
            let set = reserved_set(bootinfo_frames(bootinfo_paddr, bootinfo_size), kimage);
            assert(set.contains(reserved@[i])) by {
                broadcast use vstd::seq_lib::group_to_multiset_ensures;
            }
            PhysFrameNum::lemma_spec_new_view(0);
            PhysFrameNum::lemma_spec_new_view(0x100);
            PhysFrameNum::lemma_spec_new_view((kimage.phys_base@ + kimage.total_pages) as usize);
            PhysFrameNum::lemma_spec_new_view((bootinfo_paddr@ / PAGE_SIZE) as usize);
            PhysFrameNum::lemma_spec_new_view(((bootinfo_paddr@ + bootinfo_size + PAGE_SIZE - 1) / PAGE_SIZE as int) as usize);
            assert(bootinfo_paddr@ / 4096 <= (bootinfo_paddr@ + bootinfo_size + 4095) / 4096int) by (nonlinear_arith)
                requires bootinfo_size >= 0;
        }
    }
    proof {
        assert(ranges_ordered(reserved_items(reserved_ranges)));
    }
    let bootheap_range = largest_early_usable_range(mem_map, reserved);
    let start = bootheap_range.start;
    let end = bootheap_range.end;
    proof {
        let i = choose|i: int|
            0 <= i < mem_map@.len() && mem_map@[i].kind == MemoryKind::Usable
                && mem_map@[i].start_page <= start@ && end@ <= #[trigger] (
            mem_map@[i].start_page + mem_map@[i].page_count);
        assert(end@ < 0x4_0000_0000);
        assert(end@ * 4096 + 4096 <= usize::MAX) by (nonlinear_arith)
            requires
                end@ < 0x4_0000_0000,
                usize::BITS == 64;
        assert(start@ * 4096 <= end@ * 4096) by (nonlinear_arith)
            requires
                start@ < end@;
    }
    let bootheap_pages = end.diff(start);
    let mut bootheap = BootHeap::new(start.addr()..end.addr());
    let earlymap_pages = if bootheap_pages < BOOTHEAP_EARLYMAP_MAX_PAGES {
        bootheap_pages
    } else {
        BOOTHEAP_EARLYMAP_MAX_PAGES
    };
    mapper.map(mem, start, earlymap_pages)?;
    super::physmap::init(mem_map, mem, &mut bootheap, kernel_root)?;
    let ctx = InitContext { bootheap, reserved_ranges };
    proof {
        assert(mapper.spec_slots().last() == EarlyMapperSlot { base: start, pages: earlymap_pages });
        assert(bootheap_placed(bootheap_range, ctx.spec_bootheap(), mapper.spec_slots().last()));
        assert(reserved@ == ctx.spec_reserved());
        assert(mem_map_sorted(mem_map@) ==> avoids_all(bootheap_range, ctx.spec_reserved()));
        let i = choose|i: int|
            0 <= i < mem_map@.len() && mem_map@[i].kind == MemoryKind::Usable
                && mem_map@[i].start_page <= start@ && end@ <= #[trigger] (
            mem_map@[i].start_page + mem_map@[i].page_count);
        assert(exists|frames: Range<PhysFrameNum>|
            {
                &&& #[trigger] bootheap_placed(frames, ctx.spec_bootheap(), mapper.spec_slots().last())
                &&& frames.start@ < frames.end@
                &&& exists|i: int|
                    0 <= i < mem_map@.len() && mem_map@[i].kind == MemoryKind::Usable
                        && mem_map@[i].start_page <= frames.start@ && frames.end@ <= #[trigger] (
                    mem_map@[i].start_page + mem_map@[i].page_count)
                &&& mem_map_sorted(mem_map@) ==> avoids_all(frames, ctx.spec_reserved())
                &&& exists|runs: Seq<Range<PhysFrameNum>>|
                    #[trigger] longest_free_run(mem_map@, ctx.spec_reserved(), runs, frames)
            }) by {
            assert(mem_map@[i].start_page <= bootheap_range.start@ && bootheap_range.end@ <= mem_map@[i].start_page
                + mem_map@[i].page_count);
        }
    }
    Ok(ctx)
}

/// The number of frames of `mem_map` of kind `Usable`.
pub open spec fn usable_page_total(mem_map: Seq<MemoryRange>) -> int
    decreases mem_map.len(),
{
    if mem_map.len() == 0 {
        0
    } else {
        usable_page_total(mem_map.drop_last()) + if mem_map.last().kind == MemoryKind::Usable {
            mem_map.last().page_count as int
        } else {
            0
        }
    }
}

/// Counts the frames of `mem_map` of kind `Usable`, as reported when the memory map is printed.
pub fn usable_page_count(mem_map: &[MemoryRange]) -> (r: usize)
    requires
        usable_page_total(mem_map@) <= usize::MAX,
    ensures
        r == usable_page_total(mem_map@),
{
    let mut total: usize = 0;
    let mut i: usize = 0;
    while i < mem_map.len()
        invariant
            i <= mem_map@.len(),
            usable_page_total(mem_map@) <= usize::MAX,
            total == usable_page_total(mem_map@.take(i as int)),
        decreases mem_map@.len() - i,
    {
        proof {
            assert(mem_map@.take(i + 1).drop_last() =~= mem_map@.take(i as int));
            lemma_usable_page_total_prefix(mem_map@, i + 1);
        }
        if mem_map[i].kind == MemoryKind::Usable {
            total = total + mem_map[i].page_count;
        }
        i = i + 1;
    }
    proof {
        assert(mem_map@.take(mem_map@.len() as int) =~= mem_map@);
    }
    total
}

/// The usable frames of a prefix of a map are no more than those of the whole map.
proof fn lemma_usable_page_total_prefix(mem_map: Seq<MemoryRange>, n: int)
    requires
        0 <= n <= mem_map.len(),
    ensures
        usable_page_total(mem_map.take(n)) <= usable_page_total(mem_map),
    decreases mem_map.len() - n,
{
    if n < mem_map.len() {
        lemma_usable_page_total_prefix(mem_map, n + 1);
        assert(mem_map.take(n + 1).drop_last() =~= mem_map.take(n));
    } else {
        assert(mem_map.take(n) =~= mem_map);
    }
}

/// The frames that the boot heap has handed out, rounded out to whole frames.
pub open spec fn bootheap_used_frames(bootheap: BootHeap) -> Range<PhysFrameNum> {
    Range {
        start: PhysFrameNum::spec_new((bootheap.spec_base() / 4096) as usize),
        end: PhysFrameNum::spec_new(((bootheap.spec_cur() + 4095) / 4096) as usize),
    }
}

/// The ranges kept from the frame allocator once early boot is over: those of `context` and
/// what its boot heap handed out.
pub open spec fn late_reserved(context: InitContext) -> Seq<Range<PhysFrameNum>> {
    context.spec_reserved().push(bootheap_used_frames(context.spec_bootheap()))
}

/// Completes memory manager initialization: creates the frame allocator for every frame below
/// the highest usable one, reserves what the boot heap handed out, and hands the frame allocator
/// every early-usable frame outside the reserved ranges. Returns the allocator and the number of
/// frames handed to it: the frames of sorted, disjoint ranges that hold exactly the early-usable
/// frames outside [`late_reserved`].
pub fn init_late(context: InitContext, mem_map: &[MemoryRange]) -> (r: (PhysManager, usize))
    requires
        mem_map_sorted(mem_map@),
        forall|i: int|
            0 <= i < mem_map@.len() ==> (#[trigger] mem_map@[i]).start_page + mem_map@[i].page_count
                + 0x20000 <= usize::MAX,
        exists|i: int| 0 <= i < mem_map@.len() && is_usable_kind(#[trigger] mem_map@[i].kind),
    ensures
        r.0.wf(),
        exists|i: int|
            0 <= i < mem_map@.len() && is_usable_kind(#[trigger] mem_map@[i].kind) && r.0.spec_max_pfn()
                == mem_map@[i].start_page + mem_map@[i].page_count,
        forall|i: int|
            0 <= i < mem_map@.len() && is_usable_kind(#[trigger] mem_map@[i].kind) ==> mem_map@[i].start_page
                + mem_map@[i].page_count <= r.0.spec_max_pfn(),
        r.0.spec_total_pages() == r.1,
        r.0.spec_free_pages() >= r.1,
        r.1 <= r.0.spec_max_pfn(),
        exists|ranges: Seq<Range<PhysFrameNum>>|
            {
                &&& sorted_disjoint(ranges)
                &&& r.1 == #[trigger] total_frames(ranges)
                &&& forall|p: int|
                    #[trigger] in_some_range(ranges, p) <==> is_free_early_frame(
                        mem_map@,
                        late_reserved(context),
                        p,
                    )
            },
{
    let ghost context0 = context;
    proof {
        use_type_invariant(&context);
    }
    let InitContext { bootheap, reserved_ranges } = context;
    let mut reserved_ranges = reserved_ranges;
    let max_pfn = highest_usable_pfn(mem_map);
    let mut pmm = PhysManager::new(max_pfn);
    reserve_bootheap(&mut reserved_ranges, bootheap);
    let reserved = reserved_as_slice(&reserved_ranges);
    let ranges = iter_early_usable_ranges(mem_map, reserved);
    proof {
        assert forall|j: int| 0 <= j < ranges@.len() implies (#[trigger] ranges@[j]).start@ < ranges@[j].end@
            && ranges@[j].end@ <= max_pfn@ by {
            let i = choose|i: int|
                0 <= i < mem_map@.len() && mem_map@[i].kind == MemoryKind::Usable
                    && mem_map@[i].start_page <= ranges@[j].start@ && ranges@[j].end@ <= #[trigger] (
                mem_map@[i].start_page + mem_map@[i].page_count);
            assert(is_usable_kind(mem_map@[i].kind));
        }
    }
    let mut added: usize = 0;
    let mut k: usize = 0;
    while k < ranges.len()
        invariant
            k <= ranges@.len(),
            pmm.wf(),
            pmm.spec_max_pfn() == max_pfn@,
            pmm.spec_total_pages() == added,
            pmm.spec_free_pages() >= added,
            sorted_disjoint(ranges@),
            added == total_frames(ranges@.take(k as int)),
            k > 0 ==> added <= ranges@[k - 1].end@,
            forall|j: int|
                0 <= j < ranges@.len() ==> (#[trigger] ranges@[j]).start@ < ranges@[j].end@
                    && ranges@[j].end@ <= max_pfn@,
        decreases ranges@.len() - k,
    {
        let range_start = ranges[k].start;
        let range_end = ranges[k].end;
        proof {
            if k > 0 {
                assert(ranges@[k - 1].end@ <= ranges@[k as int].start@);
            }
            assert(ranges@.take(k + 1).drop_last() =~= ranges@.take(k as int));
            assert(ranges@.take(k + 1).last() == ranges@[k as int]);
        }
        pmm.add_free_range(range_start, range_end);
        added = added + range_end.diff(range_start);
        k = k + 1;
    }
    proof {
        assert(ranges@.take(ranges@.len() as int) =~= ranges@);
        let late = late_reserved(context0);
        vstd::seq_lib::to_multiset_build(context0.spec_reserved(), bootheap_used_frames(context0.spec_bootheap()));
        assert(reserved@.to_multiset() == late.to_multiset());
        assert forall|p: int| #[trigger] in_some_range(ranges@, p) <==> is_free_early_frame(mem_map@, late, p) by {
            lemma_in_some_range_perm(reserved@, late, p);
            if in_some_range(ranges@, p) {
                let j = choose|j: int| 0 <= j < ranges@.len() && ranges@[j].start@ <= p < #[trigger] ranges@[j].end@;
                let i = choose|i: int|
                    0 <= i < mem_map@.len() && mem_map@[i].kind == MemoryKind::Usable
                        && mem_map@[i].start_page <= ranges@[j].start@ && ranges@[j].end@ <= #[trigger] (
                    mem_map@[i].start_page + mem_map@[i].page_count);
                assert(avoids_all(ranges@[j], reserved@));
                if in_some_range(reserved@, p) {
                    let q = choose|q: int| 0 <= q < reserved@.len() && reserved@[q].start@ <= p < #[trigger] reserved@[q].end@;
                    assert(reserved@[q].end@ <= ranges@[j].start@ || ranges@[j].end@ <= reserved@[q].start@);
                }
            }
            if is_free_early_frame(mem_map@, late, p) {
                let i = choose|i: int|
                    0 <= i < mem_map@.len() && (#[trigger] mem_map@[i]).kind == MemoryKind::Usable
                        && mem_map@[i].start_page <= p < mem_map@[i].start_page + mem_map@[i].page_count;
                assert(in_some_range(ranges@, p));
            }
        }
    }
    (pmm, added)
}

} // verus!
