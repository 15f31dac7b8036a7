//! Which images are captured, and what is read of each.

use std::collections::{BTreeMap, BTreeSet};
use vstd::prelude::*;

use crate::error::AppError;
use crate::memory::regions::claim_image_budget;
use crate::memory::{
    allows_execute, allows_read, allows_write, clipped_address, has_main, is_executable,
    is_readable, is_writable, main_image_is_missing, page_count, pages_of, CapturedImage,
    MemoryRegion, MAX_IMAGES, MAX_IMAGE_SIZE, MAX_TOTAL_IMAGE_BYTES, MEM_COMMIT, MEM_IMAGE,
};
use crate::order::{ascending, ascending_keys, in_order, law_in_order_lists_the_set};
use crate::pe::exports::optional_text;
use crate::pe::RegionEvidence;

verus! {

broadcast use {
    vstd::std_specs::btree::group_btree_axioms,
    vstd::laws_cmp::group_laws_cmp,
};

/// The regions of an image and where the last of them ends.
pub struct ImageGroup {
    pub regions: Vec<MemoryRegion>,
    pub end: u64,
}

/// The regions of an image, as contracts speak of them.
pub ghost struct ImageGroupView {
    pub regions: Seq<MemoryRegion>,
    pub end: u64,
}

impl View for ImageGroup {
    type V = ImageGroupView;

    open spec fn view(&self) -> ImageGroupView {
        ImageGroupView { regions: self.regions@, end: self.end }
    }
}

/// The groups of a map, as contracts speak of them.
pub open spec fn groups_view(groups: Map<u64, ImageGroup>) -> Map<u64, ImageGroupView> {
    groups.map_values(|group: ImageGroup| group@)
}

/// The lowest addresses of the set, as many as are kept.
pub open spec fn lowest(bases: Set<u64>) -> Seq<u64> {
    let all = in_order(bases);
    if all.len() <= 4_096 {
        all
    } else {
        all.take(4_096)
    }
}

/// The images that are kept: the lowest, and that of the program itself.
pub open spec fn kept_bases(bases: Set<u64>, main_base: Option<u64>) -> Set<u64> {
    match main_base {
        Some(base) => if bases.contains(base) {
            lowest(bases).to_set().insert(base)
        } else {
            lowest(bases).to_set()
        },
        None => lowest(bases).to_set(),
    }
}

/// `groups` with a region, which ends at `end`.
pub open spec fn with_region(
    groups: Map<u64, ImageGroupView>,
    region: MemoryRegion,
    end: u64,
) -> Map<u64, ImageGroupView> {
    let group = if groups.dom().contains(region.allocation_base) {
        groups[region.allocation_base]
    } else {
        ImageGroupView { regions: Seq::empty(), end: 0 }
    };
    groups.insert(
        region.allocation_base,
        ImageGroupView {
            regions: group.regions.push(region),
            end: if group.end >= end {
                group.end
            } else {
                end
            },
        },
    )
}

/// Those of the first `count` regions that belong to the images, by image.
pub open spec fn groups_of(regions: Seq<MemoryRegion>, kept: Set<u64>, count: int) -> Result<
    Map<u64, ImageGroupView>,
    AppError,
>
    decreases count,
{
    if count <= 0 {
        Ok(Map::empty())
    } else {
        match groups_of(regions, kept, count - 1) {
            Err(error) => Err(error),
            Ok(groups) => {
                let region = regions[count - 1];
                if !kept.contains(region.allocation_base) {
                    Ok(groups)
                } else if region.base + region.size > u64::MAX {
                    Err(AppError::ImageGroupOverflow)
                } else {
                    Ok(with_region(groups, region, (region.base + region.size) as u64))
                }
            },
        }
    }
}

proof fn lemma_groups_error(regions: Seq<MemoryRegion>, kept: Set<u64>, count: int, total: int)
    requires
        groups_of(regions, kept, count) is Err,
        count <= total,
    ensures
        groups_of(regions, kept, total) == groups_of(regions, kept, count),
    decreases total - count,
{
    if count < total {
        lemma_groups_error(regions, kept, count, total - 1);
    }
}

/// Adds a region to its image.
fn note_region(groups: &mut BTreeMap<u64, ImageGroup>, region: MemoryRegion, end: u64)
    ensures
        groups_view(final(groups)@) == with_region(groups_view(old(groups)@), region, end),
{
    let ghost before = groups@;
    let mut group: ImageGroup = match groups.remove(&region.allocation_base) {
        Some(group) => group,
        None => ImageGroup { regions: Vec::new(), end: 0 },
    };
    let ghost first = group@;
    assert(before.dom().contains(region.allocation_base) ==> first
        == before[region.allocation_base]@);
    group.regions.push(region);
    if group.end < end {
        group.end = end;
    }
    groups.insert(region.allocation_base, group);
    assert(groups_view(groups@) =~= with_region(groups_view(before), region, end));
}

/// Keeps the lowest images and that of the program itself.
fn keep_bases(bases: &BTreeSet<u64>, main_base: Option<u64>) -> (kept: BTreeSet<u64>)
    ensures
        kept@ == kept_bases(bases@, main_base),
{
    let list = ascending(bases);
    let mut kept: BTreeSet<u64> = BTreeSet::new();
    let mut index: usize = 0;
    assert(list@.take(0).to_set() =~= Set::<u64>::empty());
    while index < list.len() && index < MAX_IMAGES
        invariant
            index <= list@.len(),
            index <= MAX_IMAGES,
            kept@ == list@.take(index as int).to_set(),
        decreases list@.len() - index,
    {
        let ghost before = list@.take(index as int);
        kept.insert(list[index]);
        proof {
            let after = list@.take(index + 1);
            assert(after =~= before.push(list@[index as int]));
            assert(after.to_set() =~= before.to_set().insert(list@[index as int])) by {
                assert forall|base: u64| after.to_set().contains(base) <==> before.to_set().insert(
                    list@[index as int],
                ).contains(base) by {
                    if before.contains(base) {
                        let i: int = choose|i: int| 0 <= i < before.len() && before[i] == base;
                        assert(after[i] == base);
                    }
                    if base == list@[index as int] {
                        assert(after[index as int] == base);
                    }
                }
            }
        }
        index = index + 1;
    }
    assert(list@.take(index as int) =~= lowest(bases@));
    if let Some(base) = main_base {
        if bases.contains(&base) {
            kept.insert(base);
        }
    }
    kept
}

/// How many images are not kept.
pub open spec fn dropped_total(bases: Set<u64>, main_base: Option<u64>) -> int {
    let kept = kept_bases(bases, main_base).len() as int;
    if bases.len() >= kept {
        bases.len() - kept
    } else {
        0
    }
}

/// Groups the regions of the images that are kept, and counts the images that are not.
pub fn group_images(
    regions: &[MemoryRegion],
    bases: &BTreeSet<u64>,
    main_base: Option<u64>,
) -> (result: Result<(BTreeMap<u64, ImageGroup>, usize), AppError>)
    ensures
        match groups_of(regions@, kept_bases(bases@, main_base), regions@.len() as int) {
            Ok(groups) => result matches Ok((found, skipped)) && groups_view(found@) == groups
                && skipped == dropped_total(bases@, main_base),
            Err(error) => result matches Err(found) && found == error,
        },
{
    let kept = keep_bases(bases, main_base);
    let skipped: usize = bases.len().saturating_sub(kept.len());
    let mut groups: BTreeMap<u64, ImageGroup> = BTreeMap::new();
    let mut index: usize = 0;
    assert(groups_view(groups@) =~= Map::<u64, ImageGroupView>::empty());
    while index < regions.len()
        invariant
            index <= regions@.len(),
            kept@ == kept_bases(bases@, main_base),
            groups_of(regions@, kept@, index as int) == Ok::<Map<u64, ImageGroupView>, AppError>(
                groups_view(groups@),
            ),
        decreases regions@.len() - index,
    {
        let region = regions[index];
        if kept.contains(&region.allocation_base) {
            match region.base.checked_add(region.size) {
                Some(end) => {
                    note_region(&mut groups, region, end);
                },
                None => {
                    proof {
                        lemma_groups_error(
                            regions@,
                            kept@,
                            index + 1,
                            regions@.len() as int,
                        );
                    }
                    return Err(AppError::ImageGroupOverflow);
                },
            }
        }
        index = index + 1;
    }
    Ok((groups, skipped))
}

/// An image that is captured.
#[derive(Clone, Copy, Debug, PartialEq, Eq, Structural)]
pub struct ImageRequest {
    pub base: u64,
    pub size: u64,
    pub hidden: bool,
}

/// The images that are captured, and how many there was no budget for.
pub struct ImageSelection {
    pub requests: Vec<ImageRequest>,
    pub skipped: usize,
}

/// The images that are captured, as contracts speak of them.
pub ghost struct SelectionView {
    pub requests: Seq<ImageRequest>,
    pub total: int,
    pub skipped: int,
}

/// `selection` with an image, where the budget allows it or the image is mandatory.
pub open spec fn with_request(
    selection: SelectionView,
    request: ImageRequest,
    mandatory: bool,
) -> SelectionView {
    if mandatory || selection.total + request.size <= MAX_TOTAL_IMAGE_BYTES {
        SelectionView {
            requests: selection.requests.push(request),
            total: clipped_address(selection.total + request.size),
            ..selection
        }
    } else {
        SelectionView { skipped: selection.skipped + 1, ..selection }
    }
}

/// The size of an image: from its base to where its last region ends.
pub open spec fn group_size(base: u64, group: ImageGroupView) -> int {
    if group.end > base {
        group.end - base
    } else {
        0
    }
}

/// `selection` with the image at `base`, unless it is empty or too large.
pub open spec fn with_group(
    selection: SelectionView,
    base: u64,
    group: ImageGroupView,
    main_base: Option<u64>,
) -> SelectionView {
    let size = group_size(base, group);
    if size == 0 || size > MAX_IMAGE_SIZE {
        selection
    } else {
        with_request(
            selection,
            ImageRequest { base, size: size as u64, hidden: false },
            main_base == Some(base),
        )
    }
}

/// The images that are captured of the first `count` addresses.
pub open spec fn groups_selected(
    groups: Map<u64, ImageGroupView>,
    order: Seq<u64>,
    main_base: Option<u64>,
    count: int,
) -> SelectionView
    decreases count,
{
    if count <= 0 {
        SelectionView { requests: Seq::empty(), total: 0, skipped: 0 }
    } else {
        with_group(
            groups_selected(groups, order, main_base, count - 1),
            order[count - 1],
            groups[order[count - 1]],
            main_base,
        )
    }
}

/// `selection` with the first `count` hidden images, as far as the budget allows.
pub open spec fn hidden_selected(
    selection: SelectionView,
    hidden: Seq<(u64, u64)>,
    count: int,
) -> SelectionView
    decreases count,
{
    if count <= 0 {
        selection
    } else {
        with_request(
            hidden_selected(selection, hidden, count - 1),
            ImageRequest {
                base: hidden[count - 1].0,
                size: hidden[count - 1].1,
                hidden: true,
            },
            false,
        )
    }
}

/// The images that are captured: the mapped ones by address, then the hidden ones.
pub open spec fn images_selected(
    groups: Map<u64, ImageGroupView>,
    hidden: Seq<(u64, u64)>,
    main_base: Option<u64>,
) -> SelectionView {
    let order = in_order(groups.dom());
    hidden_selected(
        groups_selected(groups, order, main_base, order.len() as int),
        hidden,
        hidden.len() as int,
    )
}

/// Selects the images that are captured.
pub fn select_images(
    groups: &BTreeMap<u64, ImageGroup>,
    hidden: &[(u64, u64)],
    main_base: Option<u64>,
) -> (selection: ImageSelection)
    requires
        groups@.dom().len() + hidden@.len() <= usize::MAX,
    ensures
        ({
            let expected = images_selected(groups_view(groups@), hidden@, main_base);
            selection.requests@ == expected.requests && selection.skipped == expected.skipped
        }),
{
    let ghost view = groups_view(groups@);
    let list = ascending_keys(groups);
    assert(view.dom() =~= groups@.dom());
    proof {
        law_in_order_lists_the_set(groups@.dom());
    }
    let mut requests: Vec<ImageRequest> = Vec::new();
    let mut total: u64 = 0;
    let mut skipped: usize = 0;
    let mut index: usize = 0;
    while index < list.len()
        invariant
            index <= list@.len(),
            list@ == in_order(groups@.dom()),
            view == groups_view(groups@),
            skipped <= index,
            forall|base: u64| groups@.dom().contains(base) <==> #[trigger] list@.contains(base),
            (SelectionView {
                requests: requests@,
                total: total as int,
                skipped: skipped as int,
            }) == groups_selected(view, list@, main_base, index as int),
        decreases list@.len() - index,
    {
        let base: u64 = list[index];
        assert(list@.contains(base));
        if let Some(group) = groups.get(&base) {
            assert(view[base] == group@);
            let size: u64 = group.end.saturating_sub(base);
            if size != 0 && size <= MAX_IMAGE_SIZE {
                let mandatory = match main_base {
                    Some(main) => main == base,
                    None => false,
                };
                if claim_image_budget(&mut total, size, mandatory) {
                    requests.push(ImageRequest { base, size, hidden: false });
                } else {
                    skipped = skipped + 1;
                }
            }
        }
        index = index + 1;
    }
    let ghost mapped = groups_selected(view, list@, main_base, list@.len() as int);
    let mut next: usize = 0;
    while next < hidden.len()
        invariant
            next <= hidden@.len(),
            list@.len() + hidden@.len() <= usize::MAX,
            skipped <= list@.len() + next,
            (SelectionView {
                requests: requests@,
                total: total as int,
                skipped: skipped as int,
            }) == hidden_selected(mapped, hidden@, next as int),
        decreases hidden@.len() - next,
    {
        let (base, size): (u64, u64) = hidden[next];
        if claim_image_budget(&mut total, size, false) {
            requests.push(ImageRequest { base, size, hidden: true });
        } else {
            skipped = skipped + 1;
        }
        next = next + 1;
    }
    ImageSelection { requests, skipped }
}

proof fn lemma_groups_selected(
    groups: Map<u64, ImageGroupView>,
    order: Seq<u64>,
    main: u64,
    index: int,
    count: int,
)
    requires
        0 <= index < count <= order.len(),
        order[index] == main,
        0 < group_size(main, groups[main]) <= MAX_IMAGE_SIZE,
    ensures
        groups_selected(groups, order, Some(main), count).requests.contains(
            ImageRequest {
                base: main,
                size: group_size(main, groups[main]) as u64,
                hidden: false,
            },
        ),
    decreases count,
{
    let request = ImageRequest {
        base: main,
        size: group_size(main, groups[main]) as u64,
        hidden: false,
    };
    let before = groups_selected(groups, order, Some(main), count - 1);
    let after = groups_selected(groups, order, Some(main), count);
    if index < count - 1 {
        lemma_groups_selected(groups, order, main, index, count - 1);
        let i: int = choose|i: int| 0 <= i < before.requests.len() && before.requests[i] == request;
        assert(after.requests[i] == request);
    } else {
        assert(after.requests[after.requests.len() - 1] == request);
    }
}

proof fn lemma_hidden_selected(
    selection: SelectionView,
    hidden: Seq<(u64, u64)>,
    count: int,
    request: ImageRequest,
)
    requires
        selection.requests.contains(request),
    ensures
        hidden_selected(selection, hidden, count).requests.contains(request),
    decreases count,
{
    if count > 0 {
        lemma_hidden_selected(selection, hidden, count - 1, request);
        let before = hidden_selected(selection, hidden, count - 1);
        let after = hidden_selected(selection, hidden, count);
        let i: int = choose|i: int| 0 <= i < before.requests.len() && before.requests[i] == request;
        assert(after.requests[i] == request);
    }
}

/// The image of the program itself is kept however many images there are, and captured
/// however little of the budget is left, unless it is empty or too large.
pub proof fn law_main_image_is_captured(
    bases: Set<u64>,
    groups: Map<u64, ImageGroupView>,
    hidden: Seq<(u64, u64)>,
    main: u64,
)
    ensures
        bases.contains(main) ==> kept_bases(bases, Some(main)).contains(main),
        groups.dom().contains(main) && 0 < group_size(main, groups[main]) <= MAX_IMAGE_SIZE
            ==> images_selected(groups, hidden, Some(main)).requests.contains(
            ImageRequest {
                base: main,
                size: group_size(main, groups[main]) as u64,
                hidden: false,
            },
        ),
{
    if groups.dom().contains(main) && 0 < group_size(main, groups[main]) <= MAX_IMAGE_SIZE {
        let order = in_order(groups.dom());
        law_in_order_lists_the_set(groups.dom());
        assert(order.contains(main));
        let index: int = choose|index: int| 0 <= index < order.len() && order[index] == main;
        lemma_groups_selected(groups, order, main, index, order.len() as int);
        lemma_hidden_selected(
            groups_selected(groups, order, Some(main), order.len() as int),
            hidden,
            hidden.len() as int,
            ImageRequest {
                base: main,
                size: group_size(main, groups[main]) as u64,
                hidden: false,
            },
        );
    }
}

/// How many bytes the selected images take that are not mandatory.
pub open spec fn optional_bytes(requests: Seq<ImageRequest>, main_base: Option<u64>) -> int
    decreases requests.len(),
{
    if requests.len() == 0 {
        0
    } else {
        optional_bytes(requests.drop_last(), main_base) + if main_base == Some(
            requests.last().base,
        ) && !requests.last().hidden {
            0
        } else {
            requests.last().size as int
        }
    }
}

proof fn lemma_with_request(
    selection: SelectionView,
    request: ImageRequest,
    main_base: Option<u64>,
)
    requires
        0 <= optional_bytes(selection.requests, main_base) <= selection.total <= u64::MAX,
        optional_bytes(selection.requests, main_base) <= MAX_TOTAL_IMAGE_BYTES,
    ensures
        ({
            let mandatory = main_base == Some(request.base) && !request.hidden;
            let next = with_request(selection, request, mandatory);
            &&& 0 <= optional_bytes(next.requests, main_base) <= next.total <= u64::MAX
            &&& optional_bytes(next.requests, main_base) <= MAX_TOTAL_IMAGE_BYTES
        }),
{
    assert(selection.requests.push(request).drop_last() =~= selection.requests);
}

proof fn lemma_groups_within_budget(
    groups: Map<u64, ImageGroupView>,
    order: Seq<u64>,
    main_base: Option<u64>,
    count: int,
)
    ensures
        ({
            let selection = groups_selected(groups, order, main_base, count);
            &&& 0 <= optional_bytes(selection.requests, main_base) <= selection.total <= u64::MAX
            &&& optional_bytes(selection.requests, main_base) <= MAX_TOTAL_IMAGE_BYTES
        }),
    decreases count,
{
    if count > 0 {
        lemma_groups_within_budget(groups, order, main_base, count - 1);
        let base = order[count - 1];
        let size = group_size(base, groups[base]);
        lemma_with_request(
            groups_selected(groups, order, main_base, count - 1),
            ImageRequest { base, size: size as u64, hidden: false },
            main_base,
        );
    }
}

proof fn lemma_hidden_within_budget(
    selection: SelectionView,
    hidden: Seq<(u64, u64)>,
    main_base: Option<u64>,
    count: int,
)
    requires
        0 <= optional_bytes(selection.requests, main_base) <= selection.total <= u64::MAX,
        optional_bytes(selection.requests, main_base) <= MAX_TOTAL_IMAGE_BYTES,
    ensures
        ({
            let last = hidden_selected(selection, hidden, count);
            &&& 0 <= optional_bytes(last.requests, main_base) <= last.total <= u64::MAX
            &&& optional_bytes(last.requests, main_base) <= MAX_TOTAL_IMAGE_BYTES
        }),
    decreases count,
{
    if count > 0 {
        lemma_hidden_within_budget(selection, hidden, main_base, count - 1);
        lemma_with_request(
            hidden_selected(selection, hidden, count - 1),
            ImageRequest {
                base: hidden[count - 1].0,
                size: hidden[count - 1].1,
                hidden: true,
            },
            main_base,
        );
    }
}

/// The images that are captured beside that of the program itself take no more bytes than
/// the budget has.
pub proof fn law_images_keep_to_the_budget(
    groups: Map<u64, ImageGroupView>,
    hidden: Seq<(u64, u64)>,
    main_base: Option<u64>,
)
    ensures
        optional_bytes(images_selected(groups, hidden, main_base).requests, main_base)
            <= MAX_TOTAL_IMAGE_BYTES,
{
    let order = in_order(groups.dom());
    lemma_groups_within_budget(groups, order, main_base, order.len() as int);
    lemma_hidden_within_budget(
        groups_selected(groups, order, main_base, order.len() as int),
        hidden,
        main_base,
        hidden.len() as int,
    );
}

/// Memory that is read into an image.
#[derive(Clone, Copy, Debug, PartialEq, Eq, Structural)]
pub struct PlannedRead {
    pub address: u64,
    pub offset: usize,
    pub length: usize,
}

/// What is read into an image, and what its regions show.
pub struct RegionScan {
    pub evidence: Vec<RegionEvidence>,
    pub reads: Vec<PlannedRead>,
    pub unreadable_pages: usize,
    pub image_backed: bool,
}

/// What is read into an image, as contracts speak of it.
pub ghost struct ScanView {
    pub evidence: Seq<RegionEvidence>,
    pub reads: Seq<PlannedRead>,
    pub unreadable_pages: int,
    pub image_backed: bool,
}

impl View for RegionScan {
    type V = ScanView;

    open spec fn view(&self) -> ScanView {
        ScanView {
            evidence: self.evidence@,
            reads: self.reads@,
            unreadable_pages: self.unreadable_pages as int,
            image_backed: self.image_backed,
        }
    }
}

/// Where the part of the region starts that lies in the image.
pub open spec fn part_start(region: MemoryRegion, base: u64) -> int {
    if region.base >= base {
        region.base as int
    } else {
        base as int
    }
}

/// Where the part of the region ends that lies in the image.
pub open spec fn part_end(region: MemoryRegion, image_end: u64) -> int {
    if region.base + region.size <= image_end {
        region.base + region.size
    } else {
        image_end as int
    }
}

/// `scan` with the part of a region that lies in the image: it is evidence, and it is read
/// where it can be, else its pages are unreadable.
pub open spec fn with_part(
    scan: ScanView,
    region: MemoryRegion,
    base: u64,
    image_end: u64,
) -> ScanView {
    let start = part_start(region, base);
    let length = part_end(region, image_end) - start;
    let evidence = scan.evidence.push(
        RegionEvidence {
            offset: (start - base) as usize,
            size: length as usize,
            readable: allows_read(region.protect),
            writable: allows_write(region.protect),
            executable: allows_execute(region.protect),
        },
    );
    if allows_read(region.protect) {
        ScanView {
            evidence,
            reads: scan.reads.push(
                PlannedRead {
                    address: start as u64,
                    offset: (start - base) as usize,
                    length: length as usize,
                },
            ),
            ..scan
        }
    } else {
        ScanView {
            evidence,
            unreadable_pages: crate::pe::rebuild::clipped(
                scan.unreadable_pages + page_count(length),
            ),
            ..scan
        }
    }
}

/// What is read of the first `count` regions into an image with a buffer of `length` bytes.
pub open spec fn scan_of(
    regions: Seq<MemoryRegion>,
    base: u64,
    image_end: u64,
    length: int,
    count: int,
) -> Result<ScanView, AppError>
    decreases count,
{
    if count <= 0 {
        Ok(
            ScanView {
                evidence: Seq::empty(),
                reads: Seq::empty(),
                unreadable_pages: 0,
                image_backed: true,
            },
        )
    } else {
        match scan_of(regions, base, image_end, length, count - 1) {
            Err(error) => Err(error),
            Ok(before) => {
                let region = regions[count - 1];
                let scan = ScanView {
                    image_backed: before.image_backed && region.of_image(),
                    ..before
                };
                if !region.committed() {
                    Ok(before)
                } else if region.base + region.size > u64::MAX {
                    Err(AppError::ImageRegionOverflow)
                } else if part_start(region, base) >= part_end(region, image_end) {
                    Ok(scan)
                } else if part_end(region, image_end) - base > length {
                    Err(AppError::ImageRegionOutside)
                } else {
                    Ok(with_part(scan, region, base, image_end))
                }
            },
        }
    }
}

proof fn lemma_scan_error(
    regions: Seq<MemoryRegion>,
    base: u64,
    image_end: u64,
    length: int,
    count: int,
    total: int,
)
    requires
        scan_of(regions, base, image_end, length, count) is Err,
        count <= total,
    ensures
        scan_of(regions, base, image_end, length, total) == scan_of(
            regions,
            base,
            image_end,
            length,
            count,
        ),
    decreases total - count,
{
    if count < total {
        lemma_scan_error(regions, base, image_end, length, count, total - 1);
    }
}

/// Plans what is read into an image whose buffer has `length` bytes.
pub fn read_image_regions(
    length: usize,
    base: u64,
    image_end: u64,
    regions: &[MemoryRegion],
) -> (result: Result<RegionScan, AppError>)
    ensures
        match scan_of(regions@, base, image_end, length as int, regions@.len() as int) {
            Ok(scan) => result matches Ok(found) && found@ == scan,
            Err(error) => result matches Err(found) && found == error,
        },
{
    let mut scan = RegionScan {
        evidence: Vec::new(),
        reads: Vec::new(),
        unreadable_pages: 0,
        image_backed: true,
    };
    let mut index: usize = 0;
    assert(scan@.evidence =~= Seq::empty());
    assert(scan@.reads =~= Seq::empty());
    while index < regions.len()
        invariant
            index <= regions@.len(),
            scan_of(regions@, base, image_end, length as int, index as int) == Ok::<
                ScanView,
                AppError,
            >(scan@),
        decreases regions@.len() - index,
    {
        let region = regions[index];
        if region.state == MEM_COMMIT {
            if region.kind != MEM_IMAGE {
                scan.image_backed = false;
            }
            let region_end: u64 = match region.base.checked_add(region.size) {
                Some(end) => end,
                None => {
                    proof {
                        lemma_scan_error(
                            regions@,
                            base,
                            image_end,
                            length as int,
                            index + 1,
                            regions@.len() as int,
                        );
                    }
                    return Err(AppError::ImageRegionOverflow);
                },
            };
            let start: u64 = if region.base >= base {
                region.base
            } else {
                base
            };
            let end: u64 = if region_end <= image_end {
                region_end
            } else {
                image_end
            };
            if start < end {
                if end - base > length as u64 {
                    proof {
                        lemma_scan_error(
                            regions@,
                            base,
                            image_end,
                            length as int,
                            index + 1,
                            regions@.len() as int,
                        );
                    }
                    return Err(AppError::ImageRegionOutside);
                }
                let offset: usize = (start - base) as usize;
                let size: usize = (end - start) as usize;
                let readable = is_readable(region.protect);
                scan.evidence.push(
                    RegionEvidence {
                        offset,
                        size,
                        readable,
                        writable: is_writable(region.protect),
                        executable: is_executable(region.protect),
                    },
                );
                if readable {
                    scan.reads.push(PlannedRead { address: start, offset, length: size });
                } else {
                    let pages: u64 = pages_of(end - start);
                    scan.unreadable_pages = scan.unreadable_pages.saturating_add(pages as usize);
                }
            }
        }
        index = index + 1;
    }
    Ok(scan)
}

/// Everything that is read into an image stays inside its buffer.
pub proof fn law_reads_stay_in_the_buffer(
    regions: Seq<MemoryRegion>,
    base: u64,
    image_end: u64,
    length: usize,
    count: int,
)
    requires
        0 <= count <= regions.len(),
    ensures
        scan_of(regions, base, image_end, length as int, count) matches Ok(scan) ==> {
            &&& forall|i: int|
                0 <= i < scan.reads.len() ==> (#[trigger] scan.reads[i]).offset
                    + scan.reads[i].length <= length && scan.reads[i].address == base
                    + scan.reads[i].offset
            &&& forall|i: int|
                0 <= i < scan.evidence.len() ==> (#[trigger] scan.evidence[i]).offset
                    + scan.evidence[i].size <= length
        },
    decreases count,
{
    if count > 0 {
        law_reads_stay_in_the_buffer(regions, base, image_end, length, count - 1);
    }
}

/// Where an image ends.
pub fn image_end(base: u64, size: u64) -> (result: Result<u64, AppError>)
    ensures
        result == (if base + size > u64::MAX {
            Err::<u64, AppError>(AppError::ImageAddressOverflow)
        } else {
            Ok((base + size) as u64)
        }),
{
    match base.checked_add(size) {
        Some(end) => Ok(end),
        None => Err(AppError::ImageAddressOverflow),
    }
}

/// Whether the image of the program itself is missing among those that were captured, of
/// which there has to be one.
pub fn check_captured(images: &[CapturedImage]) -> (result: Result<bool, AppError>)
    ensures
        result == (if images@.len() == 0 {
            Err::<bool, AppError>(AppError::NoImages)
        } else {
            Ok(!has_main(images@))
        }),
{
    if images.len() == 0 {
        return Err(AppError::NoImages);
    }
    Ok(main_image_is_missing(images))
}

/// Whether the file of an image may lend it headers: its memory is still backed by a file,
/// and that is the file that it is listed as.
pub open spec fn may_borrow_headers(image: CapturedImage) -> bool {
    image.image_backed && !image.path_mismatch && image.path is Some
}

/// Whether the file of an image may lend it headers.
pub fn disk_headers_allowed(image: &CapturedImage) -> (result: bool)
    ensures
        result == may_borrow_headers(*image),
{
    image.image_backed && !image.path_mismatch && image.path.is_some()
}

/// A module that the system lists.
pub struct ModuleInfo {
    pub base: u64,
    pub name: String,
    pub path: String,
}

/// The first module from `index` on that starts at an address.
pub open spec fn module_at(modules: Seq<ModuleInfo>, base: u64, index: int) -> Option<int>
    decreases modules.len() - index,
{
    if index >= modules.len() {
        None
    } else if modules[index].base == base {
        Some(index)
    } else {
        module_at(modules, base, index + 1)
    }
}

fn find_module(modules: &[ModuleInfo], base: u64) -> (result: Option<usize>)
    ensures
        match module_at(modules@, base, 0) {
            Some(index) => result == Some(index as usize) && 0 <= index < modules@.len(),
            None => result is None,
        },
{
    let mut index: usize = 0;
    while index < modules.len()
        invariant
            index <= modules@.len(),
            module_at(modules@, base, 0) == module_at(modules@, base, index as int),
        decreases modules@.len() - index,
    {
        if modules[index].base == base {
            return Some(index);
        }
        index = index + 1;
    }
    None
}

/// Puts an image together from what was read of it; `unreadable_pages` counts the pages
/// that could not be read.
pub fn read_image(
    request: ImageRequest,
    bytes: Vec<u8>,
    scan: RegionScan,
    unreadable_pages: usize,
    modules: &[ModuleInfo],
    main_base: Option<u64>,
) -> (image: CapturedImage)
    ensures
        image.base == request.base,
        image.bytes == bytes,
        image.regions == scan.evidence,
        image.unreadable_pages == crate::pe::rebuild::clipped(
            scan.unreadable_pages + unreadable_pages,
        ),
        match module_at(modules@, request.base, 0) {
            Some(index) => image.linked && optional_text(image.name) == Some(modules@[index].name@)
                && optional_text(image.path) == Some(modules@[index].path@),
            None => !image.linked && image.name is None && image.path is None,
        },
        image.is_main == (main_base == Some(request.base)),
        image.hidden == request.hidden,
        image.image_backed == scan.image_backed,
        !image.path_mismatch,
        image.resident_pages == 0,
        image.private_pages == 0,
        image.page_flags@.len() == 0,
{
    let (name, path): (Option<String>, Option<String>) = match find_module(modules, request.base) {
        Some(index) => (Some(modules[index].name.clone()), Some(modules[index].path.clone())),
        None => (None, None),
    };
    let linked = name.is_some();
    let is_main = match main_base {
        Some(main) => main == request.base,
        None => false,
    };
    CapturedImage {
        base: request.base,
        bytes,
        regions: scan.evidence,
        unreadable_pages: scan.unreadable_pages.saturating_add(unreadable_pages),
        name,
        path,
        is_main,
        hidden: request.hidden,
        linked,
        image_backed: scan.image_backed,
        path_mismatch: false,
        resident_pages: 0,
        private_pages: 0,
        page_flags: Vec::new(),
    }
}

} // verus!
