//! Helpers for walking the firmware memory map and describing memory sizes.
use vstd::prelude::*;
use core::ops::Range;
use crate::arch::PAGE_SIZE;
use crate::num_utils::div_ceil;
use super::types::PhysFrameNum;

verus! {

/// The kind of memory described by a memory map entry.
#[derive(Clone, Copy, Debug, PartialEq, Eq, Structural)]
pub enum MemoryKind {
    Reserved,
    Usable,
    FirmwareBoot,
    FirmwareRuntime,
    AcpiTables,
    Unusable,
    Other,
}

/// An entry of the memory map handed over by the bootloader.
#[derive(Clone, Copy, Debug, PartialEq, Eq, Structural)]
pub struct MemoryRange {
    pub start_page: usize,
    pub page_count: usize,
    pub kind: MemoryKind,
}

/// Whether memory of `kind` can be handed to the frame allocator. Boot services memory counts,
/// as it can be reclaimed once the data provided by the firmware has been parsed.
pub fn is_usable(kind: MemoryKind) -> (r: bool)
    ensures
        r == (kind == MemoryKind::Usable || kind == MemoryKind::FirmwareBoot),
{
    match kind {
        MemoryKind::Usable | MemoryKind::FirmwareBoot => true,
        _ => false,
    }
}

/// Whether memory of `kind` can be used during early boot. Boot services memory is excluded, as
/// data stored there may still be needed; it is reclaimed explicitly later.
pub fn is_early_usable(kind: MemoryKind) -> (r: bool)
    ensures
        r == (kind == MemoryKind::Usable),
{
    match kind {
        MemoryKind::Usable => true,
        _ => false,
    }
}

/// The number of pages needed to hold `bytes` bytes.
pub fn to_page_count(bytes: usize) -> (r: usize)
    requires
        bytes + PAGE_SIZE <= usize::MAX,
    ensures
        r == (bytes + PAGE_SIZE - 1) / PAGE_SIZE as int,
{
    div_ceil(bytes, PAGE_SIZE)
}

/// The unit in which a byte size is displayed.
#[derive(Clone, Copy, Debug, PartialEq, Eq, Structural)]
pub enum ByteUnit {
    Bytes,
    Kib,
    Mib,
    Gib,
}

/// A byte size rounded down to a whole number of its unit.
#[derive(Clone, Copy, Debug, PartialEq, Eq, Structural)]
pub struct ByteSize {
    pub amount: usize,
    pub unit: ByteUnit,
}

impl ByteSize {
    /// The suffix printed after the amount.
    pub fn suffix(&self) -> (r: &'static str)
        ensures
            r@ == match self.unit {
                ByteUnit::Bytes => "B"@,
                ByteUnit::Kib => "K"@,
                ByteUnit::Mib => "M"@,
                ByteUnit::Gib => "G"@,
            },
    {
        match self.unit {
            ByteUnit::Bytes => "B",
            ByteUnit::Kib => "K",
            ByteUnit::Mib => "M",
            ByteUnit::Gib => "G",
        }
    }
}

/// Describes `bytes` in the largest unit (bytes, KiB, MiB or GiB) of which it holds at least
/// one, rounding down.
pub fn display_byte_size(bytes: usize) -> (r: ByteSize)
    ensures
        bytes < 1024 ==> r.amount == bytes && r.unit == ByteUnit::Bytes,
        1024 <= bytes < 1048576 ==> r.amount == bytes / 1024 && r.unit == ByteUnit::Kib,
        1048576 <= bytes < 1073741824 ==> r.amount == bytes / 1048576 && r.unit == ByteUnit::Mib,
        1073741824 <= bytes ==> r.amount == bytes / 1073741824 && r.unit == ByteUnit::Gib,
{
    if bytes < 1024 {
        ByteSize { amount: bytes, unit: ByteUnit::Bytes }
    } else if bytes < 1024 * 1024 {
        ByteSize { amount: bytes / 1024, unit: ByteUnit::Kib }
    } else if bytes < 1024 * 1024 * 1024 {
        ByteSize { amount: bytes / (1024 * 1024), unit: ByteUnit::Mib }
    } else {
        ByteSize { amount: bytes / (1024 * 1024 * 1024), unit: ByteUnit::Gib }
    }
}

/// Whether the ranges are sorted in ascending order and disjoint.
pub open spec fn sorted_disjoint(ranges: Seq<Range<PhysFrameNum>>) -> bool {
    &&& forall|i: int| 0 <= i < ranges.len() ==> ranges[i].start@ <= ranges[i].end@
    &&& forall|i: int, j: int| 0 <= i < j < ranges.len() ==> ranges[i].end@ <= ranges[j].start@
}

/// Whether the ranges are sorted in ascending order of their first frames.
pub open spec fn sorted_by_start(ranges: Seq<Range<PhysFrameNum>>) -> bool {
    forall|i: int, j: int| 0 <= i < j < ranges.len() ==> ranges[i].start@ <= ranges[j].start@
}

/// Whether frame `pfn` lies in one of `ranges`.
pub open spec fn in_some_range(ranges: Seq<Range<PhysFrameNum>>, pfn: int) -> bool {
    exists|i: int| 0 <= i < ranges.len() && ranges[i].start@ <= pfn < #[trigger] ranges[i].end@
}

/// Whether `range` is non-empty and lies within one of `ranges`.
pub open spec fn within_some_range(ranges: Seq<Range<PhysFrameNum>>, range: Range<PhysFrameNum>) -> bool {
    &&& range.start@ < range.end@
    &&& exists|i: int|
        0 <= i < ranges.len() && ranges[i].start@ <= range.start@ && range.end@
            <= #[trigger] ranges[i].end@
}

/// Whether no frame of `range` lies in a range of `reserved_ranges`.
pub open spec fn avoids_all(range: Range<PhysFrameNum>, reserved_ranges: Seq<Range<PhysFrameNum>>) -> bool {
    forall|j: int|
        0 <= j < reserved_ranges.len() ==> (#[trigger] reserved_ranges[j]).end@ <= range.start@
            || range.end@ <= reserved_ranges[j].start@
}

/// Reports every part of the ranges in `usable_ranges` that is not covered by `reserved_ranges`,
/// in ascending order, carving holes out of the usable ranges where reserved ranges intersect
/// them.
///
/// Both inputs are expected to be sorted in ascending order, the usable ranges disjoint; the
/// frames reported are then exactly those of the usable ranges that no reserved range covers
/// (reserved ranges sorted by their first frames may even overlap). A reserved range is consumed
/// once the walk has passed its end, whether it intersects a usable range or lies in a gap
/// between them.
pub fn iter_usable_ranges(
    usable_ranges: &[Range<PhysFrameNum>],
    reserved_ranges: &[Range<PhysFrameNum>],
) -> (r: Vec<Range<PhysFrameNum>>)
    requires
        forall|i: int|
            0 <= i < reserved_ranges@.len() ==> reserved_ranges@[i].start@ <= reserved_ranges@[i].end@,
    ensures
        forall|k: int|
            0 <= k < r@.len() ==> within_some_range(usable_ranges@, #[trigger] r@[k]),
        forall|i: int, p: int|
            #![trigger usable_ranges@[i], in_some_range(r@, p)]
            0 <= i < usable_ranges@.len() && usable_ranges@[i].start@ <= p < usable_ranges@[i].end@
                && !in_some_range(reserved_ranges@, p) ==> in_some_range(r@, p),
        sorted_disjoint(usable_ranges@) ==> sorted_disjoint(r@),
        sorted_disjoint(usable_ranges@) && sorted_by_start(reserved_ranges@) ==> forall|k: int|
            0 <= k < r@.len() ==> avoids_all(#[trigger] r@[k], reserved_ranges@),
{
    let ghost well = sorted_disjoint(usable_ranges@) && sorted_by_start(reserved_ranges@);
    let mut out: Vec<Range<PhysFrameNum>> = Vec::new();
    let mut next_reserved: usize = 0;
    let mut u: usize = 0;
    while u < usable_ranges.len()
        invariant
            u <= usable_ranges@.len(),
            next_reserved <= reserved_ranges@.len(),
            well == (sorted_disjoint(usable_ranges@) && sorted_by_start(reserved_ranges@)),
            forall|i: int|
                0 <= i < reserved_ranges@.len() ==> reserved_ranges@[i].start@
                    <= reserved_ranges@[i].end@,
            forall|k: int|
                0 <= k < out@.len() ==> within_some_range(usable_ranges@, #[trigger] out@[k]),
            forall|i: int, p: int|
                #![trigger usable_ranges@[i], in_some_range(out@, p)]
                0 <= i < u && usable_ranges@[i].start@ <= p < usable_ranges@[i].end@
                    && !in_some_range(reserved_ranges@, p) ==> in_some_range(out@, p),
            sorted_disjoint(usable_ranges@) ==> sorted_disjoint(out@),
            sorted_disjoint(usable_ranges@) && u < usable_ranges@.len() ==> forall|k: int|
                0 <= k < out@.len() ==> (#[trigger] out@[k]).end@ <= usable_ranges@[u as int].start@,
            well ==> forall|k: int| 0 <= k < out@.len() ==> avoids_all(#[trigger] out@[k], reserved_ranges@),
            well && u > 0 ==> forall|j: int|
                0 <= j < next_reserved ==> (#[trigger] reserved_ranges@[j]).end@
                    <= usable_ranges@[u - 1].end@,
            u == 0 ==> next_reserved == 0,
        decreases usable_ranges@.len() - u,
    {
        let ghost ui = u as int;
        let mut start = usable_ranges[u].start;
        let end = usable_ranges[u].end;
        let mut covered = false;
        proof {
            if well {
                if u > 0 {
                    assert(usable_ranges@[ui - 1].end@ <= usable_ranges@[ui].start@);
                }
            }
        }
        while next_reserved < reserved_ranges.len()
            invariant_except_break
                !covered,
            invariant
                ui == u,
                u < usable_ranges@.len(),
                end == usable_ranges@[ui].end,
                usable_ranges@[ui].start@ <= start@,
                covered ==> start@ >= end@,
                next_reserved <= reserved_ranges@.len(),
                well == (sorted_disjoint(usable_ranges@) && sorted_by_start(reserved_ranges@)),
                well && !covered ==> start@ <= end@,
                forall|i: int|
                    0 <= i < reserved_ranges@.len() ==> reserved_ranges@[i].start@
                        <= reserved_ranges@[i].end@,
                forall|k: int|
                    0 <= k < out@.len() ==> within_some_range(usable_ranges@, #[trigger] out@[k]),
                forall|i: int, p: int|
                    #![trigger usable_ranges@[i], in_some_range(out@, p)]
                    0 <= i < u && usable_ranges@[i].start@ <= p < usable_ranges@[i].end@
                        && !in_some_range(reserved_ranges@, p) ==> in_some_range(out@, p),
                forall|p: int|
                    usable_ranges@[ui].start@ <= p < start@ && p < end@ && !in_some_range(
                        reserved_ranges@,
                        p,
                    ) ==> #[trigger] in_some_range(out@, p),
                sorted_disjoint(usable_ranges@) ==> sorted_disjoint(out@),
                sorted_disjoint(usable_ranges@) ==> forall|k: int|
                    0 <= k < out@.len() ==> (#[trigger] out@[k]).end@ <= start@ && out@[k].end@
                        <= end@,
                well ==> forall|k: int| 0 <= k < out@.len() ==> avoids_all(#[trigger] out@[k], reserved_ranges@),
                well ==> forall|j: int|
                    0 <= j < next_reserved ==> (#[trigger] reserved_ranges@[j]).end@ <= start@
                        && reserved_ranges@[j].end@ <= end@,
            ensures
                !covered && next_reserved < reserved_ranges@.len() ==> reserved_ranges@[next_reserved as int].start@
                    >= end@,
            decreases reserved_ranges@.len() - next_reserved, end@ - start@,
        {
            let reserved = &reserved_ranges[next_reserved];
            if reserved.end.as_usize() < start.as_usize() {
                next_reserved = next_reserved + 1;
                continue;
            }
            if reserved.start.as_usize() >= end.as_usize() {
                break;
            }
            let ghost old_out = out@;
            let ghost old_start = start@;
            let ghost n = next_reserved as int;
            if reserved.start.as_usize() > start.as_usize() {
                out.push(start..reserved.start);
                assert(out@[out@.len() - 1].end@ <= usable_ranges@[ui].end@);
                proof {
                    if well {
                        assert forall|j: int| 0 <= j < reserved_ranges@.len() implies (#[trigger] reserved_ranges@[j]).end@
                            <= out@[out@.len() - 1].start@ || out@[out@.len() - 1].end@
                            <= reserved_ranges@[j].start@ by {
                            if j > n {
                                assert(reserved_ranges@[n].start@ <= reserved_ranges@[j].start@);
                            }
                        }
                    }
                }
            }
            proof {
                assert forall|p: int| in_some_range(old_out, p) implies #[trigger] in_some_range(out@, p) by {
                    let i = choose|i: int| 0 <= i < old_out.len() && old_out[i].start@ <= p < #[trigger] old_out[i].end@;
                    assert(out@[i] == old_out[i]);
                }
                assert forall|p: int|
                    old_start <= p < reserved.end@ && !in_some_range(reserved_ranges@, p)
                    implies #[trigger] in_some_range(out@, p) by {
                    if p >= reserved.start@ {
                        assert(reserved_ranges@[n].start@ <= p < reserved_ranges@[n].end@);
                    } else {
                        let k = out@.len() - 1;
                        assert(out@[k].start@ <= p < out@[k].end@);
                    }
                }
            }
            start = reserved.end;
            if start.as_usize() <= end.as_usize() {
                next_reserved = next_reserved + 1;
            }
            if start.as_usize() >= end.as_usize() {
                covered = true;
                break;
            }
        }
        let ghost old_out = out@;
        if !covered && start.as_usize() < end.as_usize() {
            out.push(start..end);
            assert(out@[out@.len() - 1].end@ <= usable_ranges@[ui].end@);
            proof {
                if well {
                    let last = out@[out@.len() - 1];
                    assert forall|j: int| 0 <= j < reserved_ranges@.len() implies (#[trigger] reserved_ranges@[j]).end@
                        <= last.start@ || last.end@ <= reserved_ranges@[j].start@ by {
                        if j >= next_reserved {
                            let n = next_reserved as int;
                            assert(reserved_ranges@[n].start@ >= end@);
                            if j > n {
                                assert(reserved_ranges@[n].start@ <= reserved_ranges@[j].start@);
                            }
                        }
                    }
                }
            }
        }
        proof {
            assert forall|p: int| in_some_range(old_out, p) implies #[trigger] in_some_range(out@, p) by {
                let i = choose|i: int| 0 <= i < old_out.len() && old_out[i].start@ <= p < #[trigger] old_out[i].end@;
                assert(out@[i] == old_out[i]);
            }
            assert forall|i: int, p: int|
                #![trigger usable_ranges@[i], in_some_range(out@, p)]
                0 <= i < u + 1 && usable_ranges@[i].start@ <= p < usable_ranges@[i].end@
                    && !in_some_range(reserved_ranges@, p) implies in_some_range(out@, p) by {
                if i == u && p >= start@ {
                    let k = out@.len() - 1;
                    assert(out@[k].start@ <= p < out@[k].end@);
                }
            }
            if sorted_disjoint(usable_ranges@) && u + 1 < usable_ranges@.len() {
                assert(usable_ranges@[ui].end@ <= usable_ranges@[ui + 1].start@);
            }
        }
        u = u + 1;
    }
    out
}

/// The name under which memory of `kind` is listed when the memory map is printed.
pub fn memory_kind_name(kind: MemoryKind) -> (r: &'static str)
    ensures
        r@ == match kind {
            MemoryKind::Reserved => "reserved"@,
            MemoryKind::Usable => "usable"@,
            MemoryKind::FirmwareBoot => "firmware (boot)"@,
            MemoryKind::FirmwareRuntime => "firmware (runtime)"@,
            MemoryKind::AcpiTables => "ACPI tables"@,
            MemoryKind::Unusable => "unusable"@,
            MemoryKind::Other => "other"@,
        },
{
    match kind {
        MemoryKind::Reserved => "reserved",
        MemoryKind::Usable => "usable",
        MemoryKind::FirmwareBoot => "firmware (boot)",
        MemoryKind::FirmwareRuntime => "firmware (runtime)",
        MemoryKind::AcpiTables => "ACPI tables",
        MemoryKind::Unusable => "unusable",
        MemoryKind::Other => "other",
    }
}

/// The byte addresses `start..end` that `range` spans, as the memory map is printed.
pub fn range_bytes(range: MemoryRange) -> (r: (usize, usize))
    requires
        (range.start_page + range.page_count) * PAGE_SIZE <= usize::MAX,
    ensures
        r.0 == range.start_page * PAGE_SIZE,
        r.1 == (range.start_page + range.page_count) * PAGE_SIZE,
{
    proof {
        assert(range.start_page * PAGE_SIZE <= (range.start_page + range.page_count) * PAGE_SIZE) by (nonlinear_arith);
    }
    (range.start_page * PAGE_SIZE, (range.start_page + range.page_count) * PAGE_SIZE)
}

} // verus!
