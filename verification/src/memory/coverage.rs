//! What is captured of the memory of a process: nothing that can be had is left out, and
//! nothing else is taken.

use vstd::prelude::*;

use crate::error::AppError;
use crate::memory::images::{
    dropped_total, groups_of, groups_selected, hidden_selected, images_selected, kept_bases,
    lowest, part_end, scan_of, with_request, ImageGroupView, ImageRequest, PlannedRead,
    SelectionView,
};
use crate::memory::{allows_execute, allows_read, allows_write, page_count, MemoryRegion};
use crate::order::{in_order, law_in_order_lists_the_set};
use crate::pe::rebuild::clipped;
use crate::pe::RegionEvidence;

verus! {

/// Whether the address lies in the image and in the region.
pub open spec fn shared(region: MemoryRegion, base: u64, image_end: u64, address: int) -> bool {
    base <= address < image_end && region.base <= address < region.base + region.size
}

/// How many bytes of the region lie in the image.
pub open spec fn shared_bytes(region: MemoryRegion, base: u64, image_end: u64) -> int {
    let start = if region.base >= base {
        region.base
    } else {
        base
    };
    let end = if region.base + region.size <= image_end {
        region.base + region.size
    } else {
        image_end as int
    };
    if start < end {
        end - start
    } else {
        0
    }
}

/// Whether the read takes in the address and puts its byte where it belongs in the image.
pub open spec fn reads_byte(read: PlannedRead, base: u64, address: int) -> bool {
    &&& read.address <= address < read.address + read.length
    &&& read.offset + (address - read.address) == address - base
}

/// Whether the evidence speaks of the address, with the access that the protection gives.
pub open spec fn shows_byte(
    evidence: RegionEvidence,
    base: u64,
    address: int,
    protect: u32,
) -> bool {
    &&& evidence.offset <= address - base < evidence.offset + evidence.size
    &&& evidence.readable == allows_read(protect)
    &&& evidence.writable == allows_write(protect)
    &&& evidence.executable == allows_execute(protect)
}

/// Every byte of the image that lies in a committed region is accounted for: it is read
/// where the region can be read, to its place in the image, and in any case the evidence
/// shows it with the access that the region gives.
pub proof fn law_every_readable_byte_is_read(
    regions: Seq<MemoryRegion>,
    base: u64,
    image_end: u64,
    length: usize,
    count: int,
    index: int,
    address: int,
)
    requires
        0 <= index < count <= regions.len(),
        regions[index].committed(),
        shared(regions[index], base, image_end, address),
    ensures
        scan_of(regions, base, image_end, length as int, count) matches Ok(scan) ==> {
            &&& allows_read(regions[index].protect) ==> exists|r: int|
                0 <= r < scan.reads.len() && reads_byte(#[trigger] scan.reads[r], base, address)
            &&& exists|e: int|
                0 <= e < scan.evidence.len() && shows_byte(
                    #[trigger] scan.evidence[e],
                    base,
                    address,
                    regions[index].protect,
                )
        },
    decreases count,
{
    if let Ok(scan) = scan_of(regions, base, image_end, length as int, count) {
        let before = scan_of(regions, base, image_end, length as int, count - 1)->Ok_0;
        if index < count - 1 {
            law_every_readable_byte_is_read(
                regions,
                base,
                image_end,
                length,
                count - 1,
                index,
                address,
            );
            let e = choose|e: int|
                0 <= e < before.evidence.len() && shows_byte(
                    #[trigger] before.evidence[e],
                    base,
                    address,
                    regions[index].protect,
                );
            assert(scan.evidence[e] == before.evidence[e]);
            if allows_read(regions[index].protect) {
                let r = choose|r: int|
                    0 <= r < before.reads.len() && reads_byte(
                        #[trigger] before.reads[r],
                        base,
                        address,
                    );
                assert(scan.reads[r] == before.reads[r]);
            }
        } else {
            let e = scan.evidence.len() - 1;
            assert(shows_byte(scan.evidence[e], base, address, regions[index].protect));
            if allows_read(regions[index].protect) {
                let r = scan.reads.len() - 1;
                assert(reads_byte(scan.reads[r], base, address));
            }
        }
    }
}

/// Whether the read is that of a committed, readable region, and of no more of it than lies
/// in the image.
pub open spec fn read_of(
    read: PlannedRead,
    region: MemoryRegion,
    base: u64,
    image_end: u64,
) -> bool {
    &&& region.committed() && allows_read(region.protect)
    &&& read.length > 0
    &&& region.base <= read.address && read.address + read.length <= region.base + region.size
    &&& base <= read.address && read.address + read.length <= image_end
    &&& read.offset == read.address - base
}

/// Whether the evidence is that of a committed region.
pub open spec fn evidence_of(
    evidence: RegionEvidence,
    region: MemoryRegion,
    base: u64,
    image_end: u64,
) -> bool {
    &&& region.committed()
    &&& evidence.size > 0
    &&& region.base <= base + evidence.offset && base + evidence.offset + evidence.size
        <= region.base + region.size
    &&& base + evidence.offset + evidence.size <= image_end
    &&& evidence.readable == allows_read(region.protect)
    &&& evidence.writable == allows_write(region.protect)
    &&& evidence.executable == allows_execute(region.protect)
}

/// Nothing is read but what lies in the image and in a committed, readable region, and there
/// is no evidence but that of committed regions.
pub proof fn law_nothing_else_is_read(
    regions: Seq<MemoryRegion>,
    base: u64,
    image_end: u64,
    length: usize,
    count: int,
)
    requires
        0 <= count <= regions.len(),
    ensures
        scan_of(regions, base, image_end, length as int, count) matches Ok(scan) ==> {
            &&& forall|r: int|
                0 <= r < scan.reads.len() ==> exists|i: int|
                    0 <= i < count && read_of(
                        #[trigger] scan.reads[r],
                        #[trigger] regions[i],
                        base,
                        image_end,
                    )
            &&& forall|e: int|
                0 <= e < scan.evidence.len() ==> exists|i: int|
                    0 <= i < count && evidence_of(
                        #[trigger] scan.evidence[e],
                        #[trigger] regions[i],
                        base,
                        image_end,
                    )
        },
    decreases count,
{
    if count > 0 {
        law_nothing_else_is_read(regions, base, image_end, length, count - 1);
        if let Ok(scan) = scan_of(regions, base, image_end, length as int, count) {
            let before = scan_of(regions, base, image_end, length as int, count - 1)->Ok_0;
            let region = regions[count - 1];
            assert forall|r: int| 0 <= r < scan.reads.len() implies exists|i: int|
                0 <= i < count && read_of(
                    #[trigger] scan.reads[r],
                    #[trigger] regions[i],
                    base,
                    image_end,
                ) by {
                if r < before.reads.len() {
                    assert(scan.reads[r] == before.reads[r]);
                } else {
                    assert(read_of(scan.reads[r], regions[count - 1], base, image_end));
                }
            }
            assert forall|e: int| 0 <= e < scan.evidence.len() implies exists|i: int|
                0 <= i < count && evidence_of(
                    #[trigger] scan.evidence[e],
                    #[trigger] regions[i],
                    base,
                    image_end,
                ) by {
                if e < before.evidence.len() {
                    assert(scan.evidence[e] == before.evidence[e]);
                } else {
                    assert(evidence_of(scan.evidence[e], regions[count - 1], base, image_end));
                }
            }
        }
    }
}

/// The pages of the first `count` regions that are committed but cannot be read, as far as
/// they lie in the image.
pub open spec fn lost_pages(
    regions: Seq<MemoryRegion>,
    base: u64,
    image_end: u64,
    count: int,
) -> int
    decreases count,
{
    if count <= 0 {
        0
    } else {
        let region = regions[count - 1];
        lost_pages(regions, base, image_end, count - 1) + if region.committed() && !allows_read(
            region.protect,
        ) {
            (shared_bytes(region, base, image_end) + 4_095) / 4_096
        } else {
            0
        }
    }
}

/// Every page that is committed but cannot be read is counted, each once for its region, and
/// no other is.
pub proof fn law_unreadable_pages_are_counted(
    regions: Seq<MemoryRegion>,
    base: u64,
    image_end: u64,
    length: usize,
    count: int,
)
    requires
        0 <= count <= regions.len(),
    ensures
        0 <= lost_pages(regions, base, image_end, count),
        scan_of(regions, base, image_end, length as int, count) matches Ok(scan)
            ==> scan.unreadable_pages == clipped(lost_pages(regions, base, image_end, count)),
        scan_of(regions, base, image_end, length as int, count) matches Ok(scan)
            ==> scan.image_backed == forall|i: int|
            0 <= i < count && (#[trigger] regions[i]).committed() ==> regions[i].of_image(),
    decreases count,
{
    if count > 0 {
        law_unreadable_pages_are_counted(regions, base, image_end, length, count - 1);
        if let Ok(scan) = scan_of(regions, base, image_end, length as int, count) {
            let before = scan_of(regions, base, image_end, length as int, count - 1)->Ok_0;
            assert(scan.image_backed == (before.image_backed && (regions[count - 1].committed()
                ==> regions[count - 1].of_image())));
        }
    }
}

/// A plan is made wherever it can be: it fails only for a committed region that leaves the
/// address space, or whose part in the image leaves the buffer, and says which of the two
/// came first.
pub proof fn law_planning_fails_only_outside(
    regions: Seq<MemoryRegion>,
    base: u64,
    image_end: u64,
    length: usize,
    count: int,
)
    requires
        0 <= count <= regions.len(),
    ensures
        match scan_of(regions, base, image_end, length as int, count) {
            Ok(_) => forall|i: int|
                0 <= i < count && (#[trigger] regions[i]).committed() ==> regions[i].base
                    + regions[i].size <= u64::MAX && forall|address: int|
                    #[trigger] shared(regions[i], base, image_end, address) ==> address - base
                        < length,
            Err(error) => exists|i: int|
                0 <= i < count && (#[trigger] regions[i]).committed() && (if regions[i].base
                    + regions[i].size > u64::MAX {
                    error == AppError::ImageRegionOverflow
                } else {
                    error == AppError::ImageRegionOutside && exists|address: int|
                        #[trigger] shared(regions[i], base, image_end, address) && address - base
                            >= length
                }),
        },
    decreases count,
{
    if count > 0 {
        law_planning_fails_only_outside(regions, base, image_end, length, count - 1);
        let region = regions[count - 1];
        match scan_of(regions, base, image_end, length as int, count) {
            Ok(_) => {},
            Err(error) => {
                if scan_of(regions, base, image_end, length as int, count - 1) is Ok {
                    if region.base + region.size <= u64::MAX {
                        let last = part_end(region, image_end) - 1;
                        assert(shared(region, base, image_end, last));
                    }
                    assert(regions[count - 1].committed());
                }
            },
        }
    }
}

/// The number of pages is the least that holds the size.
pub proof fn law_pages_hold_the_size(size: int)
    requires
        0 <= size,
    ensures
        size <= page_count(size) * 0x1000 < size + 0x1000,
{
}

/// The images that are kept are images that there are. All are kept where there are no more
/// than allowed; else as many as allowed, and none that is kept lies above one that is not,
/// but for that of the program itself, which is always kept.
pub proof fn law_lowest_images_are_kept(bases: Set<u64>, main_base: Option<u64>)
    requires
        bases.finite(),
    ensures
        kept_bases(bases, main_base).subset_of(bases),
        bases.len() <= 4_096 ==> kept_bases(bases, main_base) == bases,
        main_base matches Some(main) ==> (bases.contains(main) ==> kept_bases(
            bases,
            main_base,
        ).contains(main)),
        forall|low: u64, high: u64|
            bases.contains(low) && #[trigger] kept_bases(bases, main_base).contains(high)
                && !#[trigger] kept_bases(bases, main_base).contains(low) && main_base != Some(high)
                ==> high < low,
        bases.len() > 4_096 ==> kept_bases(bases, None).len() == 4_096,
        dropped_total(bases, main_base) == bases.len() - kept_bases(bases, main_base).len(),
{
    let all = in_order(bases);
    let kept = kept_bases(bases, main_base);
    law_in_order_lists_the_set(bases);
    assert(all.to_set() =~= bases) by {
        assert forall|base: u64| all.to_set().contains(base) == bases.contains(base) by {
            assert(bases.contains(base) <==> all.contains(base));
        }
    }
    assert(all.no_duplicates());
    all.unique_seq_to_set();
    assert(lowest(bases).no_duplicates());
    lowest(bases).unique_seq_to_set();
    assert forall|base: u64| kept.contains(base) implies bases.contains(base) by {
        if lowest(bases).contains(base) {
            let i = choose|i: int| 0 <= i < lowest(bases).len() && lowest(bases)[i] == base;
            assert(all[i] == base);
            assert(all.contains(base));
        }
    }
    if bases.len() <= 4_096 {
        assert(kept =~= bases) by {
            assert forall|base: u64| bases.contains(base) implies kept.contains(base) by {
                assert(all.contains(base));
            }
        }
    }
    assert forall|low: u64, high: u64|
        bases.contains(low) && #[trigger] kept.contains(high) && !#[trigger] kept.contains(low)
            && main_base != Some(high) implies high < low by {
        assert(lowest(bases).contains(high));
        let h = choose|h: int| 0 <= h < lowest(bases).len() && lowest(bases)[h] == high;
        assert(all.contains(low));
        let l = choose|l: int| 0 <= l < all.len() && all[l] == low;
        if l < lowest(bases).len() {
            assert(lowest(bases)[l] == low);
            assert(lowest(bases).contains(low));
        }
        assert(all[h] == high);
    }
}

/// Whether the first `count` regions hold one of the image.
pub open spec fn has_region(regions: Seq<MemoryRegion>, base: u64, count: int) -> bool {
    exists|i: int| 0 <= i < count && (#[trigger] regions[i]).allocation_base == base
}

/// Regions are grouped by image: an image that is kept has a group where it has a region at
/// all, the group has every region of the image and no other, in order, and it ends where
/// the region ends that reaches furthest. It fails only for a region of such an image that
/// leaves the address space.
pub proof fn law_groups_have_the_regions_of_their_image(
    regions: Seq<MemoryRegion>,
    kept: Set<u64>,
    count: int,
    base: u64,
)
    requires
        0 <= count <= regions.len(),
    ensures
        match groups_of(regions, kept, count) {
            Ok(groups) => {
                &&& groups.dom().contains(base) <==> kept.contains(base) && has_region(
                    regions,
                    base,
                    count,
                )
                &&& groups.dom().contains(base) ==> groups[base].regions == regions.take(
                    count,
                ).filter(|region: MemoryRegion| region.allocation_base == base)
                &&& groups.dom().contains(base) ==> forall|i: int|
                    0 <= i < count && (#[trigger] regions[i]).allocation_base == base
                        ==> regions[i].base + regions[i].size <= groups[base].end
                &&& groups.dom().contains(base) ==> exists|i: int|
                    0 <= i < count && (#[trigger] regions[i]).allocation_base == base
                        && regions[i].base + regions[i].size == groups[base].end
            },
            Err(error) => error == AppError::ImageGroupOverflow && exists|i: int|
                0 <= i < count && kept.contains((#[trigger] regions[i]).allocation_base)
                    && regions[i].base + regions[i].size > u64::MAX,
        },
    decreases count,
{
    let chosen = |region: MemoryRegion| region.allocation_base == base;
    if count > 0 {
        law_groups_have_the_regions_of_their_image(regions, kept, count - 1, base);
        let region = regions[count - 1];
        assert(regions.take(count) =~= regions.take(count - 1).push(region));
        reveal(Seq::filter);
        assert(regions.take(count).drop_last() =~= regions.take(count - 1));
        match groups_of(regions, kept, count) {
            Ok(groups) => {
                let before = groups_of(regions, kept, count - 1)->Ok_0;
                if region.allocation_base == base {
                    assert(regions[count - 1].allocation_base == base);
                    if kept.contains(base) && !before.dom().contains(base) {
                        lemma_filter_of_none(regions, base, count - 1);
                    }
                    if before.dom().contains(base) && groups[base].end == before[base].end {
                        let i = choose|i: int|
                            0 <= i < count - 1 && (#[trigger] regions[i]).allocation_base == base
                                && regions[i].base + regions[i].size == before[base].end;
                        assert(regions[i].allocation_base == base);
                    }
                } else if before.dom().contains(base) {
                    let i = choose|i: int|
                        0 <= i < count - 1 && (#[trigger] regions[i]).allocation_base == base
                            && regions[i].base + regions[i].size == before[base].end;
                    assert(regions[i].allocation_base == base);
                }
                if has_region(regions, base, count - 1) {
                    let i = choose|i: int|
                        0 <= i < count - 1 && (#[trigger] regions[i]).allocation_base == base;
                    assert(regions[i].allocation_base == base);
                }
            },
            Err(_) => {
                if groups_of(regions, kept, count - 1) is Ok {
                    assert(kept.contains(regions[count - 1].allocation_base));
                }
            },
        }
    }
}

proof fn lemma_filter_of_none(regions: Seq<MemoryRegion>, base: u64, count: int)
    requires
        0 <= count <= regions.len(),
        !has_region(regions, base, count),
    ensures
        regions.take(count).filter(|region: MemoryRegion| region.allocation_base == base)
            == Seq::<MemoryRegion>::empty(),
    decreases count,
{
    reveal(Seq::filter);
    if count > 0 {
        lemma_filter_of_none(regions, base, count - 1);
        assert(regions.take(count).drop_last() =~= regions.take(count - 1));
        assert(regions[count - 1].allocation_base != base);
    }
}

/// How many bytes the requests ask for.
pub open spec fn requested_bytes(requests: Seq<ImageRequest>) -> int
    decreases requests.len(),
{
    if requests.len() == 0 {
        0
    } else {
        requested_bytes(requests.drop_last()) + requests.last().size
    }
}

/// Whether an image is asked for, or there was no room for it in the budget.
pub open spec fn asked_or_no_room(requests: Seq<ImageRequest>, request: ImageRequest) -> bool {
    requests.contains(request) || requested_bytes(requests) + request.size > 0x1_0000_0000
}

/// Whether a selection goes on from another: what was asked for still is, first and in order.
pub open spec fn goes_on_from(before: SelectionView, after: SelectionView) -> bool {
    &&& before.requests.len() <= after.requests.len()
    &&& after.requests.take(before.requests.len() as int) == before.requests
    &&& requested_bytes(before.requests) <= requested_bytes(after.requests)
}

proof fn lemma_with_request_asks(
    selection: SelectionView,
    request: ImageRequest,
    mandatory: bool,
)
    requires
        selection.total <= requested_bytes(selection.requests),
    ensures
        ({
            let after = with_request(selection, request, mandatory);
            &&& goes_on_from(selection, after)
            &&& after.total <= requested_bytes(after.requests)
            &&& asked_or_no_room(after.requests, request)
            &&& mandatory ==> after.requests.contains(request)
            &&& after.requests.len() + after.skipped == selection.requests.len()
                + selection.skipped + 1
            &&& forall|other: ImageRequest| #[trigger]
                after.requests.contains(other) ==> selection.requests.contains(other) || other
                    == request
        }),
{
    let after = with_request(selection, request, mandatory);
    if after.requests != selection.requests {
        assert(after.requests.drop_last() =~= selection.requests);
        assert(after.requests.last() == request);
        assert(after.requests.take(selection.requests.len() as int) =~= selection.requests);
        assert forall|other: ImageRequest| #[trigger]
            after.requests.contains(other) implies selection.requests.contains(other) || other
            == request by {
            let i = choose|i: int| 0 <= i < after.requests.len() && after.requests[i] == other;
            if i < selection.requests.len() {
                assert(selection.requests[i] == other);
            }
        }
    } else {
        assert(selection.requests.take(selection.requests.len() as int) =~= selection.requests);
    }
}

proof fn lemma_asked_stays(before: SelectionView, after: SelectionView, request: ImageRequest)
    requires
        goes_on_from(before, after),
    ensures
        asked_or_no_room(before.requests, request) ==> asked_or_no_room(after.requests, request),
        before.requests.contains(request) ==> after.requests.contains(request),
{
    if before.requests.contains(request) {
        let i = choose|i: int| 0 <= i < before.requests.len() && before.requests[i] == request;
        assert(after.requests.take(before.requests.len() as int)[i] == request);
        assert(after.requests[i] == request);
    }
}

/// Whether the image at `base` can be captured: it is not empty and not too large.
pub open spec fn capturable(groups: Map<u64, ImageGroupView>, base: u64) -> bool {
    base < groups[base].end && groups[base].end - base <= 0x4000_0000
}

/// What is asked for to capture the image at `base`.
pub open spec fn mapped_request(groups: Map<u64, ImageGroupView>, base: u64) -> ImageRequest {
    ImageRequest { base, size: (groups[base].end - base) as u64, hidden: false }
}

/// What is asked for to capture a hidden image.
pub open spec fn hidden_request(hidden: (u64, u64)) -> ImageRequest {
    ImageRequest { base: hidden.0, size: hidden.1, hidden: true }
}

/// How many of the first `count` images can be captured.
pub open spec fn capturable_count(
    groups: Map<u64, ImageGroupView>,
    order: Seq<u64>,
    count: int,
) -> int
    decreases count,
{
    if count <= 0 {
        0
    } else {
        capturable_count(groups, order, count - 1) + if capturable(groups, order[count - 1]) {
            1int
        } else {
            0
        }
    }
}

proof fn lemma_groups_asked(
    groups: Map<u64, ImageGroupView>,
    order: Seq<u64>,
    main_base: Option<u64>,
    count: int,
)
    requires
        0 <= count <= order.len(),
    ensures
        ({
            let after = groups_selected(groups, order, main_base, count);
            &&& after.total <= requested_bytes(after.requests)
            &&& forall|i: int|
                0 <= i < count && capturable(groups, #[trigger] order[i]) ==> asked_or_no_room(
                    after.requests,
                    mapped_request(groups, order[i]),
                )
            &&& forall|request: ImageRequest| #[trigger]
                after.requests.contains(request) ==> exists|i: int|
                    0 <= i < count && capturable(groups, #[trigger] order[i]) && request
                        == mapped_request(groups, order[i])
            &&& after.requests.len() + after.skipped == capturable_count(groups, order, count)
        }),
    decreases count,
{
    if count > 0 {
        lemma_groups_asked(groups, order, main_base, count - 1);
        let before = groups_selected(groups, order, main_base, count - 1);
        let after = groups_selected(groups, order, main_base, count);
        let base = order[count - 1];
        if capturable(groups, base) {
            lemma_with_request_asks(
                before,
                mapped_request(groups, base),
                main_base == Some(base),
            );
        } else {
            assert(after == before);
            assert(before.requests.take(before.requests.len() as int) =~= before.requests);
        }
        assert forall|i: int|
            0 <= i < count && capturable(groups, #[trigger] order[i]) implies asked_or_no_room(
            after.requests,
            mapped_request(groups, order[i]),
        ) by {
            if i < count - 1 {
                lemma_asked_stays(before, after, mapped_request(groups, order[i]));
            }
        }
        assert forall|request: ImageRequest| #[trigger]
            after.requests.contains(request) implies exists|i: int|
            0 <= i < count && capturable(groups, #[trigger] order[i]) && request == mapped_request(
                groups,
                order[i],
            ) by {
            if before.requests.contains(request) {
                let i = choose|i: int|
                    0 <= i < count - 1 && capturable(groups, #[trigger] order[i]) && request
                        == mapped_request(groups, order[i]);
                assert(capturable(groups, order[i]));
            } else {
                assert(capturable(groups, order[count - 1]));
            }
        }
    }
}

proof fn lemma_hidden_asked(selection: SelectionView, hidden: Seq<(u64, u64)>, count: int)
    requires
        0 <= count <= hidden.len(),
        selection.total <= requested_bytes(selection.requests),
    ensures
        ({
            let after = hidden_selected(selection, hidden, count);
            &&& goes_on_from(selection, after)
            &&& after.total <= requested_bytes(after.requests)
            &&& forall|i: int|
                0 <= i < count ==> asked_or_no_room(
                    after.requests,
                    hidden_request(#[trigger] hidden[i]),
                )
            &&& forall|request: ImageRequest| #[trigger]
                after.requests.contains(request) ==> selection.requests.contains(request) || exists|
                    i: int,
                |
                    0 <= i < count && request == hidden_request(#[trigger] hidden[i])
            &&& after.requests.len() + after.skipped == selection.requests.len()
                + selection.skipped + count
        }),
    decreases count,
{
    if count > 0 {
        lemma_hidden_asked(selection, hidden, count - 1);
        let before = hidden_selected(selection, hidden, count - 1);
        let after = hidden_selected(selection, hidden, count);
        lemma_with_request_asks(before, hidden_request(hidden[count - 1]), false);
        assert(after.requests.take(selection.requests.len() as int) =~= before.requests.take(
            selection.requests.len() as int,
        )) by {
            assert forall|i: int| 0 <= i < selection.requests.len() implies after.requests[i]
                == before.requests[i] by {
                assert(after.requests.take(before.requests.len() as int)[i] == before.requests[i]);
            }
        }
        assert forall|i: int| 0 <= i < count implies asked_or_no_room(
            after.requests,
            hidden_request(#[trigger] hidden[i]),
        ) by {
            if i < count - 1 {
                lemma_asked_stays(before, after, hidden_request(hidden[i]));
            }
        }
        assert forall|request: ImageRequest| #[trigger]
            after.requests.contains(request) implies selection.requests.contains(request) || exists|
            i: int,
        |
            0 <= i < count && request == hidden_request(#[trigger] hidden[i]) by {
            if !before.requests.contains(request) {
                assert(request == hidden_request(hidden[count - 1]));
            } else if !selection.requests.contains(request) {
                let i = choose|i: int|
                    0 <= i < count - 1 && request == hidden_request(#[trigger] hidden[i]);
                assert(request == hidden_request(hidden[i]));
            }
        }
    } else {
        assert(selection.requests.take(selection.requests.len() as int) =~= selection.requests);
    }
}

/// Every image that can be captured is asked for, from its base to where its last region
/// ends, and so is every hidden one, unless the budget had no room for it; nothing else is
/// asked for, and what is not asked for is counted.
pub proof fn law_every_image_is_asked_for(
    groups: Map<u64, ImageGroupView>,
    hidden: Seq<(u64, u64)>,
    main_base: Option<u64>,
)
    ensures
        ({
            let after = images_selected(groups, hidden, main_base);
            let order = in_order(groups.dom());
            &&& forall|base: u64| #[trigger]
                groups.dom().contains(base) && capturable(groups, base) ==> asked_or_no_room(
                    after.requests,
                    mapped_request(groups, base),
                )
            &&& forall|i: int|
                0 <= i < hidden.len() ==> asked_or_no_room(
                    after.requests,
                    hidden_request(#[trigger] hidden[i]),
                )
            &&& forall|request: ImageRequest| #[trigger]
                after.requests.contains(request) ==> (groups.dom().contains(request.base)
                    && capturable(groups, request.base) && request == mapped_request(
                    groups,
                    request.base,
                )) || exists|i: int|
                    0 <= i < hidden.len() && request == hidden_request(#[trigger] hidden[i])
            &&& after.requests.len() + after.skipped == capturable_count(
                groups,
                order,
                order.len() as int,
            ) + hidden.len()
        }),
{
    let order = in_order(groups.dom());
    let mapped = groups_selected(groups, order, main_base, order.len() as int);
    let after = images_selected(groups, hidden, main_base);
    law_in_order_lists_the_set(groups.dom());
    lemma_groups_asked(groups, order, main_base, order.len() as int);
    lemma_hidden_asked(mapped, hidden, hidden.len() as int);
    assert forall|base: u64| #[trigger]
        groups.dom().contains(base) && capturable(groups, base) implies asked_or_no_room(
        after.requests,
        mapped_request(groups, base),
    ) by {
        assert(order.contains(base));
        let i = choose|i: int| 0 <= i < order.len() && order[i] == base;
        assert(capturable(groups, order[i]));
        lemma_asked_stays(mapped, after, mapped_request(groups, base));
    }
    assert forall|request: ImageRequest| #[trigger]
        after.requests.contains(request) implies (groups.dom().contains(request.base)
        && capturable(groups, request.base) && request == mapped_request(groups, request.base))
        || exists|i: int|
        0 <= i < hidden.len() && request == hidden_request(#[trigger] hidden[i]) by {
        if mapped.requests.contains(request) {
            let i = choose|i: int|
                0 <= i < order.len() && capturable(groups, #[trigger] order[i]) && request
                    == mapped_request(groups, order[i]);
            assert(order.contains(order[i]));
        }
    }
}

} // verus!
