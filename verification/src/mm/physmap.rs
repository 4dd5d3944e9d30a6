//! The physmap: a mapping of all usable physical memory at a fixed offset in the kernel's half
//! of the address space.
use vstd::prelude::*;
use itertools::Itertools;
use crate::arch::{phys_map_base, phys_map_max_pages, spec_phys_map_base, spec_phys_map_max_pages, PAGE_SIZE};
use crate::err::Result;
use super::pt::{
    mapped_as, mapping_ready, spec_level_span, spec_lookup, spec_lookup_entry, spec_table_boundary, MappingPointer, PageTable,
    PageTableAlloc, PageTableMemory, TranslatePhys,
};
use super::types::{
    CacheMode, PageTablePerms, PhysAddr, PhysFrameNum, VirtAddr, VirtPageNum, PERMS_READ,
    PERMS_WRITE,
};
use super::utils::{is_usable, MemoryKind, MemoryRange};

verus! {

/// The virtual address through which physical address `paddr` is accessed.
pub fn paddr_to_physmap(paddr: PhysAddr) -> (r: VirtAddr)
    requires
        (spec_phys_map_base() + paddr@ as int / PAGE_SIZE as int) * PAGE_SIZE + paddr@ as int % PAGE_SIZE as int
            <= usize::MAX,
    ensures
        r@ == (spec_phys_map_base() + paddr@ as int / PAGE_SIZE as int) * PAGE_SIZE + paddr@ as int % PAGE_SIZE as int,
{
    proof {
        assert(spec_phys_map_base() + paddr@ as int / 4096int <= usize::MAX) by (nonlinear_arith)
            requires
                (spec_phys_map_base() + paddr@ as int / 4096int) * 4096 + paddr@ as int % 4096int <= usize::MAX,
                paddr@ as int % 4096int >= 0;
    }
    let vpn = pfn_to_physmap(paddr.containing_frame());
    vpn.addr().plus(paddr.frame_offset())
}

/// The physmap page through which frame `pfn` is accessed.
pub fn pfn_to_physmap(pfn: PhysFrameNum) -> (r: VirtPageNum)
    requires
        spec_phys_map_base() + pfn@ <= usize::MAX,
    ensures
        r@ == spec_phys_map_base() + pfn@,
{
    phys_map_base().plus(pfn.as_usize())
}

/// The frame accessed through physmap page `vpn`, which must lie in the physmap.
pub fn physmap_to_pfn(vpn: VirtPageNum) -> (r: PhysFrameNum)
    requires
        spec_phys_map_base() <= vpn@ < spec_phys_map_base() + spec_phys_map_max_pages(),
    ensures
        r@ == vpn@ - spec_phys_map_base(),
{
    PhysFrameNum::new(vpn.diff(phys_map_base()))
}

/// Translates frames to the pages of the physmap.
pub struct PhysmapPfnTranslator;

impl TranslatePhys for PhysmapPfnTranslator {
    open spec fn covers(&self, phys: PhysFrameNum) -> bool {
        spec_phys_map_base() + phys@ <= usize::MAX
    }

    open spec fn spec_translate(&self, phys: PhysFrameNum) -> VirtPageNum {
        VirtPageNum::spec_new((spec_phys_map_base() + phys@) as usize)
    }

    fn translate(&self, phys: PhysFrameNum) -> (r: VirtPageNum) {
        let r = pfn_to_physmap(phys);
        proof {
            VirtPageNum::lemma_spec_new(r);
        }
        r
    }
}

/// A run of frames `.0..1`.
pub type FrameSpan = (PhysFrameNum, PhysFrameNum);

/// Joins `cur` and `next` when `cur` ends where `next` starts; otherwise hands both back.
pub open spec fn spec_merge_adjacent(cur: FrameSpan, next: FrameSpan) -> core::result::Result<
    FrameSpan,
    (FrameSpan, FrameSpan),
> {
    if cur.1 == next.0 {
        Ok((cur.0, next.1))
    } else {
        Err((cur, next))
    }
}

/// Joins `cur` and `next` when `cur` ends where `next` starts; otherwise hands both back.
pub fn merge_adjacent(cur: FrameSpan, next: FrameSpan) -> (r: core::result::Result<
    FrameSpan,
    (FrameSpan, FrameSpan),
>)
    ensures
        r == spec_merge_adjacent(cur, next),
{
    if cur.1.as_usize() == next.0.as_usize() {
        proof {
            PhysFrameNum::lemma_view_injective(cur.1, next.0);
        }
        Ok((cur.0, next.1))
    } else {
        Err((cur, next))
    }
}

/// What coalescing emits when `prev` is the span kept so far and `rest` is still to come: each next
/// span is merged into the kept one when [`spec_merge_adjacent`] allows it, and otherwise the
/// kept span is emitted and the next one is kept instead; the span kept at the end is emitted.
pub open spec fn coalesce_from(prev: FrameSpan, rest: Seq<FrameSpan>) -> Seq<FrameSpan>
    decreases rest.len(),
{
    if rest.len() == 0 {
        seq![prev]
    } else {
        match spec_merge_adjacent(prev, rest[0]) {
            Ok(merged) => coalesce_from(merged, rest.drop_first()),
            Err((emitted, kept)) => seq![emitted] + coalesce_from(kept, rest.drop_first()),
        }
    }
}

/// `spans` with every run of adjacent spans joined into one.
pub open spec fn spec_coalesce(spans: Seq<FrameSpan>) -> Seq<FrameSpan> {
    if spans.len() == 0 {
        Seq::empty()
    } else {
        coalesce_from(spans[0], spans.drop_first())
    }
}

/// `Itertools::coalesce` over `spans` with [`merge_adjacent`] as the merging function, collected
/// into a vector. Its documentation describes the walk that [`coalesce_from`] states: a kept span,
/// into which each next span is merged on `Ok`, and which is emitted on `Err` (the next span being
/// kept then), the last kept span being emitted at the end.
#[verifier::external_body]
fn coalesce_spans(spans: Vec<FrameSpan>) -> (r: Vec<FrameSpan>)
    ensures
        r@ == spec_coalesce(spans@),
{
    spans.into_iter().coalesce(|cur, next| merge_adjacent(cur, next)).collect()
}

/// Whether every span of `spans` is ordered and ends below `limit`.
pub open spec fn spans_bounded(spans: Seq<FrameSpan>, limit: int) -> bool {
    forall|k: int| 0 <= k < spans.len() ==> (#[trigger] spans[k]).0@ <= spans[k].1@ < limit
}

/// Whether frame `pfn` lies in one of `spans`.
pub open spec fn in_some_span(spans: Seq<FrameSpan>, pfn: int) -> bool {
    exists|k: int| 0 <= k < spans.len() && (#[trigger] spans[k]).0@ <= pfn < spans[k].1@
}

/// Coalescing keeps spans ordered and below a common limit.
proof fn lemma_coalesce_from_bounded(prev: FrameSpan, rest: Seq<FrameSpan>, limit: int)
    requires
        prev.0@ <= prev.1@ < limit,
        spans_bounded(rest, limit),
    ensures
        spans_bounded(coalesce_from(prev, rest), limit),
    decreases rest.len(),
{
    if rest.len() > 0 {
        assert(rest[0].0@ <= rest[0].1@ < limit);
        assert(spans_bounded(rest.drop_first(), limit)) by {
            assert forall|k: int| 0 <= k < rest.drop_first().len() implies (#[trigger] rest.drop_first()[k]).0@
                <= rest.drop_first()[k].1@ < limit by {
                assert(rest.drop_first()[k] == rest[k + 1]);
            }
        }
        match spec_merge_adjacent(prev, rest[0]) {
            Ok(merged) => {
                lemma_coalesce_from_bounded(merged, rest.drop_first(), limit);
            },
            Err((emitted, kept)) => {
                lemma_coalesce_from_bounded(kept, rest.drop_first(), limit);
                let tail = coalesce_from(kept, rest.drop_first());
                assert forall|k: int| 0 <= k < (seq![emitted] + tail).len() implies (#[trigger] (seq![
                    emitted,
                ] + tail)[k]).0@ <= (seq![emitted] + tail)[k].1@ < limit by {
                    if k > 0 {
                        assert((seq![emitted] + tail)[k] == tail[k - 1]);
                    }
                }
            },
        }
    }
}

/// Coalescing loses no frame: every frame of `prev` or of a span of `rest` lies in an emitted
/// span.
proof fn lemma_coalesce_from_covers(prev: FrameSpan, rest: Seq<FrameSpan>, pfn: int)
    requires
        (prev.0@ <= pfn < prev.1@) || in_some_span(rest, pfn),
        prev.0@ <= prev.1@,
        spans_bounded(rest, usize::MAX + 1),
    ensures
        in_some_span(coalesce_from(prev, rest), pfn),
    decreases rest.len(),
{
    if rest.len() == 0 {
        assert(coalesce_from(prev, rest)[0] == prev);
    } else {
        assert(rest[0].0@ <= rest[0].1@);
        let tail_rest = rest.drop_first();
        assert(spans_bounded(tail_rest, usize::MAX + 1)) by {
            assert forall|k: int| 0 <= k < tail_rest.len() implies (#[trigger] tail_rest[k]).0@
                <= tail_rest[k].1@ < usize::MAX + 1 by {
                assert(tail_rest[k] == rest[k + 1]);
            }
        }
        let in_tail = in_some_span(tail_rest, pfn);
        if !(prev.0@ <= pfn < prev.1@) && !(rest[0].0@ <= pfn < rest[0].1@) {
            let k = choose|k: int| 0 <= k < rest.len() && (#[trigger] rest[k]).0@ <= pfn < rest[k].1@;
            assert(tail_rest[k - 1] == rest[k]);
            assert(in_tail);
        }
        match spec_merge_adjacent(prev, rest[0]) {
            Ok(merged) => {
                PhysFrameNum::lemma_view_injective(prev.1, rest[0].0);
                lemma_coalesce_from_covers(merged, tail_rest, pfn);
            },
            Err((emitted, kept)) => {
                let tail = coalesce_from(kept, tail_rest);
                if prev.0@ <= pfn < prev.1@ {
                    assert((seq![emitted] + tail)[0] == emitted);
                } else {
                    lemma_coalesce_from_covers(kept, tail_rest, pfn);
                    let k = choose|k: int| 0 <= k < tail.len() && (#[trigger] tail[k]).0@ <= pfn < tail[k].1@;
                    assert((seq![emitted] + tail)[k + 1] == tail[k]);
                }
            },
        }
    }
}

/// The frames of the usable entry `range`.
pub open spec fn span_of(range: MemoryRange) -> FrameSpan {
    (
        PhysFrameNum::spec_new(range.start_page),
        PhysFrameNum::spec_new((range.start_page + range.page_count) as usize),
    )
}

/// The frames of `mem_map` usable by the frame allocator, one span per usable entry, in map order.
pub open spec fn usable_spans(mem_map: Seq<MemoryRange>) -> Seq<FrameSpan>
    decreases mem_map.len(),
{
    if mem_map.len() == 0 {
        Seq::empty()
    } else {
        let before = usable_spans(mem_map.drop_last());
        if mem_map.last().kind == MemoryKind::Usable || mem_map.last().kind == MemoryKind::FirmwareBoot {
            before.push(span_of(mem_map.last()))
        } else {
            before
        }
    }
}

/// Whether every entry of `mem_map` fits in the address space and, when usable, ends below
/// `limit`.
pub open spec fn mem_map_bounded(mem_map: Seq<MemoryRange>, limit: int) -> bool {
    forall|i: int|
        0 <= i < mem_map.len() ==> (#[trigger] mem_map[i]).start_page + mem_map[i].page_count
            <= usize::MAX && ((mem_map[i].kind == MemoryKind::Usable || mem_map[i].kind
            == MemoryKind::FirmwareBoot) ==> mem_map[i].start_page + mem_map[i].page_count < limit)
}

/// The usable spans of a bounded map are ordered and end below the limit, and they hold every
/// frame of every usable entry.
proof fn lemma_usable_spans(mem_map: Seq<MemoryRange>, limit: int)
    requires
        mem_map_bounded(mem_map, limit),
        limit <= usize::MAX + 1,
    ensures
        spans_bounded(usable_spans(mem_map), limit),
        forall|i: int, pfn: int|
            #![trigger mem_map[i], in_some_span(usable_spans(mem_map), pfn)]
            0 <= i < mem_map.len() && (mem_map[i].kind == MemoryKind::Usable || mem_map[i].kind
                == MemoryKind::FirmwareBoot) && mem_map[i].start_page <= pfn < mem_map[i].start_page
                + mem_map[i].page_count ==> in_some_span(usable_spans(mem_map), pfn),
    decreases mem_map.len(),
{
    if mem_map.len() > 0 {
        let init = mem_map.drop_last();
        assert(mem_map_bounded(init, limit)) by {
            assert forall|i: int| 0 <= i < init.len() implies #[trigger] init[i] == mem_map[i] by {}
        }
        lemma_usable_spans(init, limit);
        let before = usable_spans(init);
        let last = mem_map.last();
        assert(mem_map[mem_map.len() - 1] == last);
        PhysFrameNum::lemma_spec_new_view(last.start_page);
        PhysFrameNum::lemma_spec_new_view((last.start_page + last.page_count) as usize);
        if last.kind == MemoryKind::Usable || last.kind == MemoryKind::FirmwareBoot {
            let after = before.push(span_of(last));
            assert forall|k: int| 0 <= k < after.len() implies (#[trigger] after[k]).0@ <= after[k].1@
                < limit by {
                if k < before.len() {
                    assert(after[k] == before[k]);
                }
            }
        }
        let spans = usable_spans(mem_map);
        assert forall|i: int, pfn: int|
            #![trigger mem_map[i], in_some_span(usable_spans(mem_map), pfn)]
            0 <= i < mem_map.len() && (mem_map[i].kind == MemoryKind::Usable || mem_map[i].kind
                == MemoryKind::FirmwareBoot) && mem_map[i].start_page <= pfn < mem_map[i].start_page
                + mem_map[i].page_count implies in_some_span(spans, pfn) by {
            if i == mem_map.len() - 1 {
                assert(spans[spans.len() - 1] == span_of(last));
            } else {
                assert(init[i] == mem_map[i]);
                assert(in_some_span(before, pfn));
                let k = choose|k: int| 0 <= k < before.len() && (#[trigger] before[k]).0@ <= pfn < before[k].1@;
                assert(spans[k] == before[k]);
            }
        }
    }
}

/// The spans of frames that the physmap maps: the usable entries of `mem_map`, in map order, with
/// every run of adjacent entries joined into one span.
pub fn physmap_spans(mem_map: &[MemoryRange]) -> (r: Vec<FrameSpan>)
    requires
        mem_map_bounded(mem_map@, usize::MAX + 1),
    ensures
        r@ == spec_coalesce(usable_spans(mem_map@)),
{
    let mut spans: Vec<FrameSpan> = Vec::new();
    let mut i: usize = 0;
    while i < mem_map.len()
        invariant
            i <= mem_map@.len(),
            mem_map_bounded(mem_map@, usize::MAX + 1),
            spans@ == usable_spans(mem_map@.take(i as int)),
        decreases mem_map@.len() - i,
    {
        let range = mem_map[i];
        proof {
            assert(mem_map@.take(i + 1).drop_last() =~= mem_map@.take(i as int));
            assert(mem_map@.take(i + 1).last() == range);
        }
        if is_usable(range.kind) {
            let start = PhysFrameNum::new(range.start_page);
            let end = start.plus(range.page_count);
            proof {
                PhysFrameNum::lemma_spec_new(start);
                PhysFrameNum::lemma_spec_new(end);
            }
            spans.push((start, end));
        }
        i = i + 1;
    }
    proof {
        assert(mem_map@.take(mem_map@.len() as int) =~= mem_map@);
    }
    coalesce_spans(spans)
}

/// The physmap holds every usable frame: each frame of each usable entry of the map lies in one
/// of the spans that [`physmap_spans`] returns, and each span is ordered and ends below any
/// bound that the usable entries respect.
pub proof fn lemma_physmap_spans_cover(mem_map: Seq<MemoryRange>, limit: int)
    requires
        mem_map_bounded(mem_map, limit),
        limit <= usize::MAX + 1,
    ensures
        spans_bounded(spec_coalesce(usable_spans(mem_map)), limit),
        forall|i: int, pfn: int|
            #![trigger mem_map[i], in_some_span(spec_coalesce(usable_spans(mem_map)), pfn)]
            0 <= i < mem_map.len() && (mem_map[i].kind == MemoryKind::Usable || mem_map[i].kind
                == MemoryKind::FirmwareBoot) && mem_map[i].start_page <= pfn < mem_map[i].start_page
                + mem_map[i].page_count ==> in_some_span(spec_coalesce(usable_spans(mem_map)), pfn),
{
    lemma_usable_spans(mem_map, limit);
    let spans = usable_spans(mem_map);
    if spans.len() > 0 {
        assert(spans[0].0@ <= spans[0].1@ < limit);
        assert(spans_bounded(spans.drop_first(), limit)) by {
            assert forall|k: int| 0 <= k < spans.drop_first().len() implies (#[trigger] spans.drop_first()[k]).0@
                <= spans.drop_first()[k].1@ < limit by {
                assert(spans.drop_first()[k] == spans[k + 1]);
            }
        }
        lemma_coalesce_from_bounded(spans[0], spans.drop_first(), limit);
    }
    assert forall|i: int, pfn: int|
        #![trigger mem_map[i], in_some_span(spec_coalesce(usable_spans(mem_map)), pfn)]
        0 <= i < mem_map.len() && (mem_map[i].kind == MemoryKind::Usable || mem_map[i].kind
            == MemoryKind::FirmwareBoot) && mem_map[i].start_page <= pfn < mem_map[i].start_page
            + mem_map[i].page_count implies in_some_span(spec_coalesce(usable_spans(mem_map)), pfn) by {
        assert(in_some_span(spans, pfn));
        let k = choose|k: int| 0 <= k < spans.len() && (#[trigger] spans[k]).0@ <= pfn < spans[k].1@;
        assert(spans_bounded(spans.drop_first(), usize::MAX + 1)) by {
            assert forall|j: int| 0 <= j < spans.drop_first().len() implies (#[trigger] spans.drop_first()[j]).0@
                <= spans.drop_first()[j].1@ < usize::MAX + 1 by {
                assert(spans.drop_first()[j] == spans[j + 1]);
            }
        }
        if k > 0 {
            assert(spans.drop_first()[k - 1] == spans[k]);
        }
        lemma_coalesce_from_covers(spans[0], spans.drop_first(), pfn);
    }
}

/// Whether the physmap page of frame `pfn` maps that frame, readable, writable and write-back
/// cached, in the page table rooted at `root` in `mem`.
pub open spec fn physmap_maps(mem: PageTableMemory, root: usize, pfn: usize) -> bool {
    let vpn = (spec_phys_map_base() + pfn) as usize;
    &&& spec_lookup(mem, root, 3, vpn) == Some(pfn as int)
    &&& mapped_as(mem, root, 3, vpn, PageTablePerms::spec_from_bits(PERMS_READ | PERMS_WRITE), CacheMode::WriteBack)
}

/// The physmap lies within the pages covered by one top-level table, so mapping a span of it
/// from its first page reaches its end.
proof fn lemma_physmap_span_in_table(start: int, end: int)
    requires
        0 <= start <= end < spec_phys_map_max_pages(),
    ensures
        spec_phys_map_base() + end <= spec_table_boundary(spec_phys_map_base() + start, 3),
{
    assert(usize::BITS == 32 ==> (0x4_0000_0000u64 as usize) == 0) by (bit_vector);
    assert(usize::BITS == 64 ==> (0x4_0000_0000u64 as usize) == 0x4_0000_0000u64 && (0xf_fff8_0000_0000u64 as usize) == 0xf_fff8_0000_0000u64) by (bit_vector);
    vstd::arithmetic::power2::lemma2_to64_rest();
    let span = spec_level_span(3) as int;
    assert(span == 0x10_0000_0000) by {
        assert(9 * 3 + 9 == 36nat);
    }
    let v = spec_phys_map_base() + start;
    vstd::arithmetic::div_mod::lemma_fundamental_div_mod_converse(v, span, 0xffff, v - 0xffff * span);
}

/// Maps every usable frame of `mem_map` readable, writable and write-back cached into the physmap
/// of the page table rooted at `root`, one coalesced span at a time, taking page tables from
/// `pt_alloc`.
///
/// Where the page table and allocator are ready for mapping ([`mapping_ready`]), every usable
/// frame is then mapped at its physmap page, and every page mapped before stays mapped as it was.
///
/// Errors: those of [`PageTable::map`], after which the spans before the failing one are mapped.
pub fn init<A: PageTableAlloc>(
    mem_map: &[MemoryRange],
    mem: &mut PageTableMemory,
    pt_alloc: &mut A,
    root: PhysFrameNum,
) -> (r: Result<()>)
    requires
        mem_map_bounded(mem_map@, spec_phys_map_max_pages() as int),
        spec_phys_map_base() + spec_phys_map_max_pages() <= usize::MAX,
        old(pt_alloc).ready(),
    ensures
        final(pt_alloc).ready(),
        final(pt_alloc).bounds() == old(pt_alloc).bounds(),
        mapping_ready(*old(mem), root@, *old(pt_alloc)) ==> {
            &&& mapping_ready(*final(mem), root@, *final(pt_alloc))
            &&& r is Ok ==> forall|i: int, pfn: usize|
                #![trigger mem_map@[i], physmap_maps(*final(mem), root@, pfn)]
                0 <= i < mem_map@.len() && (mem_map@[i].kind == MemoryKind::Usable || mem_map@[i].kind
                    == MemoryKind::FirmwareBoot) && mem_map@[i].start_page <= pfn < mem_map@[i].start_page
                    + mem_map@[i].page_count ==> physmap_maps(*final(mem), root@, pfn)
            &&& forall|vpn: usize|
                #![trigger spec_lookup(*final(mem), root@, 3, vpn)]
                spec_lookup(*old(mem), root@, 3, vpn) is Some ==> spec_lookup(*final(mem), root@, 3, vpn)
                    == spec_lookup(*old(mem), root@, 3, vpn)
        },
{
    let spans = physmap_spans(mem_map);
    proof {
        lemma_physmap_spans_cover(mem_map@, spec_phys_map_max_pages() as int);
    }
    let ghost ready = mapping_ready(*mem, root@, *pt_alloc);
    let ghost m_start = *mem;
    let mut pt = PageTable::new(root);
    let mut k: usize = 0;
    while k < spans.len()
        invariant
            k <= spans@.len(),
            spans_bounded(spans@, spec_phys_map_max_pages() as int),
            spec_phys_map_base() + spec_phys_map_max_pages() <= usize::MAX,
            pt_alloc.ready(),
            pt_alloc.bounds() == old(pt_alloc).bounds(),
            pt.spec_root() == root@,
            m_start == *old(mem),
            ready == mapping_ready(m_start, root@, *old(pt_alloc)),
            ready ==> {
                &&& mapping_ready(*mem, root@, *pt_alloc)
                &&& forall|j: int, pfn: usize|
                    #![trigger spans@[j], physmap_maps(*mem, root@, pfn)]
                    0 <= j < k && spans@[j].0@ <= pfn < spans@[j].1@ ==> physmap_maps(*mem, root@, pfn)
                &&& forall|vpn: usize|
                    #![trigger spec_lookup(*mem, root@, 3, vpn)]
                    spec_lookup(m_start, root@, 3, vpn) is Some ==> spec_lookup(*mem, root@, 3, vpn)
                        == spec_lookup(m_start, root@, 3, vpn)
            },
        decreases spans@.len() - k,
    {
        let (start, end) = spans[k];
        assert(spans@[k as int].0@ <= spans@[k as int].1@ < spec_phys_map_max_pages());
        let mut pointer = MappingPointer::new(pfn_to_physmap(start), end.diff(start));
        let ghost m0 = *mem;
        let ghost p0 = pointer;
        let res = pt.map(
            mem,
            pt_alloc,
            &mut pointer,
            start,
            PageTablePerms::from_bits(PERMS_READ | PERMS_WRITE),
            CacheMode::WriteBack,
        );
        proof {
            if ready {
                lemma_physmap_span_in_table(start@ as int, end@ as int);
                assert forall|j: int, pfn: usize|
                    #![trigger spans@[j], physmap_maps(*mem, root@, pfn)]
                    0 <= j < k && spans@[j].0@ <= pfn < spans@[j].1@ implies physmap_maps(*mem, root@, pfn) by {
                    assert(physmap_maps(m0, root@, pfn));
                    assert(spec_lookup(*mem, root@, 3, (spec_phys_map_base() + pfn) as usize) == spec_lookup(m0, root@, 3, (spec_phys_map_base() + pfn) as usize));
                    assert(spec_lookup_entry(*mem, root@, 3, (spec_phys_map_base() + pfn) as usize) == spec_lookup_entry(m0, root@, 3, (spec_phys_map_base() + pfn) as usize));
                }
                if res is Ok {
                    assert forall|j: int, pfn: usize|
                        #![trigger spans@[j], physmap_maps(*mem, root@, pfn)]
                        0 <= j < k + 1 && spans@[j].0@ <= pfn < spans@[j].1@ implies physmap_maps(*mem, root@, pfn) by {
                        if j == k {
                            let vpn = (spec_phys_map_base() + pfn) as usize;
                            assert(p0.spec_virt() <= vpn < pointer.spec_virt());
                            assert(spec_lookup(*mem, root@, 3, vpn) == Some(start@ + vpn - p0.spec_base()));
                        }
                    }
                }
            }
        }
        res?;
        k = k + 1;
    }
    proof {
        if ready {
            assert forall|i: int, pfn: usize|
                #![trigger mem_map@[i], physmap_maps(*mem, root@, pfn)]
                0 <= i < mem_map@.len() && (mem_map@[i].kind == MemoryKind::Usable || mem_map@[i].kind
                    == MemoryKind::FirmwareBoot) && mem_map@[i].start_page <= pfn < mem_map@[i].start_page
                    + mem_map@[i].page_count implies physmap_maps(*mem, root@, pfn) by {
                assert(in_some_span(spans@, pfn as int));
                let j = choose|j: int| 0 <= j < spans@.len() && (#[trigger] spans@[j]).0@ <= pfn < spans@[j].1@;
                assert(physmap_maps(*mem, root@, pfn));
            }
        }
    }
    Ok(())
}

} // verus!
