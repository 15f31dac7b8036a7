//! What is watched, searched and measured of the memory of a process.

use vstd::prelude::*;

use crate::memory::allocations::{extents_among, first_bases, pending_allocations, AllocationView};
use crate::memory::names::{dos_path, letters_of, main_address, path_wanted, wanted_by_path};
use crate::memory::pages::{image_ends, measured_images};
use crate::memory::regions::{
    claimed_allocations, code_allocations, data_allocations, known_bases, loose_code, loose_data,
    region_at, unmapped,
};
use crate::memory::stability::{
    counted_pages, looked, page_of_sample, pages_before, place_of_page, sample_total,
    sampled_pages, telling, total_pages, StabilityWatch,
};
use crate::memory::{
    allows_execute, allows_read, allows_write, clipped_address, page_count, MemoryRegion,
};
use crate::order::{in_order, law_in_order_lists_the_set};
use crate::pe::rebuild::reported::count_where;
use crate::text::same_text;

verus! {

/// What is known after several looks at memory.
pub open spec fn watched(signatures: Seq<u64>) -> StabilityWatch
    decreases signatures.len(),
{
    if signatures.len() == 0 {
        StabilityWatch { previous: None, matches: 0, polls: 0 }
    } else {
        looked(watched(signatures.drop_last()), signatures.last())
    }
}

/// Whether the last `count` looks were the same.
pub open spec fn same_at_the_end(signatures: Seq<u64>, count: int) -> bool {
    count <= signatures.len() && forall|i: int|
        signatures.len() - count <= i < signatures.len() ==> #[trigger] signatures[i]
            == signatures.last()
}

/// Looks are counted, and so are those in a row that were the same as the one before: memory
/// looked the same `count` times more exactly where the last `count` looks and the one before
/// them agree.
pub proof fn law_matches_count_equal_looks(signatures: Seq<u64>, count: int)
    requires
        0 <= count,
        0 < signatures.len() <= usize::MAX,
    ensures
        watched(signatures).polls == signatures.len(),
        watched(signatures).previous == Some(signatures.last()),
        watched(signatures).matches < signatures.len(),
        watched(signatures).matches >= count <==> same_at_the_end(signatures, count + 1),
    decreases signatures.len(),
{
    let rest = signatures.drop_last();
    if rest.len() > 0 {
        law_matches_count_equal_looks(
            rest,
            if count > 0 {
                count - 1
            } else {
                0
            },
        );
        assert(forall|i: int| 0 <= i < rest.len() ==> #[trigger] rest[i] == signatures[i]);
        if rest.last() == signatures.last() {
            if count > 0 {
                if same_at_the_end(rest, count) {
                    assert forall|i: int|
                        signatures.len() - (count + 1) <= i < signatures.len() implies
                        #[trigger] signatures[i] == signatures.last() by {
                        if i < rest.len() {
                            assert(rest[i] == rest.last());
                        }
                    }
                }
                if same_at_the_end(signatures, count + 1) {
                    assert forall|i: int| rest.len() - count <= i < rest.len() implies
                        #[trigger] rest[i] == rest.last() by {
                        assert(signatures[i] == signatures.last());
                    }
                }
            }
        } else if count > 0 && count + 1 <= signatures.len() {
            assert(signatures[signatures.len() - 2] != signatures.last());
        }
    } else {
        assert(watched(rest).previous is None);
    }
}

/// Whether the region shows whether a program still unpacks itself: it is committed and
/// readable, and executable or writable memory of an image.
pub open spec fn shows_unpacking(region: MemoryRegion) -> bool {
    &&& region.committed()
    &&& allows_read(region.protect)
    &&& allows_execute(region.protect) || (region.of_image() && allows_write(region.protect))
}

/// The address and the length of a page of a region: the last one ends with the region.
pub open spec fn page_in(region: MemoryRegion, page: int) -> (int, int) {
    (
        region.base + 0x1000 * page,
        if 0x1000 * page + 0x1000 <= region.size {
            0x1000
        } else {
            region.size - 0x1000 * page
        },
    )
}

proof fn lemma_pages_grow(regions: Seq<MemoryRegion>, from: int, to: int)
    requires
        0 <= from <= to <= regions.len(),
    ensures
        0 <= pages_before(regions, from) <= pages_before(regions, to),
    decreases to,
{
    if from < to {
        lemma_pages_grow(regions, from, to - 1);
    } else if from > 0 {
        lemma_pages_grow(regions, from - 1, from - 1);
    }
}

proof fn lemma_place_in(regions: Seq<MemoryRegion>, at: int, index: int, page: int)
    requires
        0 <= at <= index < regions.len(),
        0 <= page < counted_pages(regions[index]),
    ensures
        place_of_page(
            regions,
            at,
            pages_before(regions, index) - pages_before(regions, at) + page,
        ) == place_of_page(regions, index, page),
    decreases index - at,
{
    if at < index {
        lemma_pages_grow(regions, at + 1, index);
        lemma_place_in(regions, at + 1, index, page);
    }
}

/// Where no more pages show whether a program still unpacks itself than are sampled, each of
/// them is sampled.
pub proof fn law_few_pages_are_all_sampled(regions: Seq<MemoryRegion>, index: int, page: int)
    requires
        0 <= index < regions.len(),
        shows_unpacking(regions[index]),
        regions[index].base + regions[index].size <= u64::MAX,
        0 <= page && 0x1000 * page < regions[index].size,
        pages_before(regions, regions.len() as int) <= 256,
    ensures
        exists|s: int|
            0 <= s < sampled_pages(regions).len() && (#[trigger] sampled_pages(regions)[s]).0
                == page_in(regions[index], page).0 && sampled_pages(regions)[s].1 == page_in(
                regions[index],
                page,
            ).1,
{
    let total = pages_before(regions, regions.len() as int);
    let s = pages_before(regions, index) + page;
    assert(telling(regions[index]));
    assert(page < page_count(regions[index].size as int));
    lemma_pages_grow(regions, index + 1, regions.len() as int);
    lemma_pages_grow(regions, 0, index);
    lemma_place_in(regions, 0, index, page);
    assert(0 <= s < total);
    assert(page_of_sample(s, total, total) == s) by {
        if total > 1 {
            vstd::arithmetic::div_mod::lemma_div_multiples_vanish(s, total - 1);
            vstd::arithmetic::mul::lemma_mul_is_commutative(s, total - 1);
        }
    }
    assert(sampled_pages(regions)[s] == place_of_page(regions, 0, s));
}

proof fn lemma_place_is_telling(regions: Seq<MemoryRegion>, at: int, page: int)
    requires
        0 <= at <= regions.len(),
        0 <= page < pages_before(regions, regions.len() as int) - pages_before(regions, at),
        forall|i: int|
            0 <= i < regions.len() ==> (#[trigger] regions[i]).base + regions[i].size <= u64::MAX,
    ensures
        exists|i: int, k: int|
            0 <= i < regions.len() && shows_unpacking(regions[i]) && 0 <= k && 0x1000 * k
                < regions[i].size && place_of_page(regions, at, page).0 == (#[trigger] page_in(
                regions[i],
                k,
            )).0 && place_of_page(regions, at, page).1 == page_in(regions[i], k).1,
    decreases regions.len() - at,
{
    if at < regions.len() {
        lemma_pages_grow(regions, at, at);
        if page >= counted_pages(regions[at]) {
            lemma_place_is_telling(regions, at + 1, page - counted_pages(regions[at]));
        } else {
            assert(regions[at].base + regions[at].size <= u64::MAX);
            assert(place_of_page(regions, at, page).0 == page_in(regions[at], page).0);
        }
    }
}

/// Every page that is sampled shows whether a program still unpacks itself, and there are as
/// many as there are such pages, up to the limit.
pub proof fn law_samples_are_telling_pages(regions: Seq<MemoryRegion>, sample: int)
    requires
        0 <= sample < sampled_pages(regions).len(),
        pages_before(regions, regions.len() as int) <= u64::MAX,
        forall|i: int|
            0 <= i < regions.len() ==> (#[trigger] regions[i]).base + regions[i].size <= u64::MAX,
    ensures
        sampled_pages(regions).len() == if pages_before(regions, regions.len() as int) <= 256 {
            pages_before(regions, regions.len() as int)
        } else {
            256
        },
        exists|i: int, k: int|
            0 <= i < regions.len() && shows_unpacking(regions[i]) && 0 <= k && 0x1000 * k
                < regions[i].size && sampled_pages(regions)[sample].0 == (#[trigger] page_in(
                regions[i],
                k,
            )).0 && sampled_pages(regions)[sample].1 == page_in(regions[i], k).1,
{
    let total = total_pages(regions);
    let count = sample_total(regions);
    lemma_pages_grow(regions, 0, regions.len() as int);
    crate::memory::stability::law_samples_climb(sample, sample, total, count);
    lemma_place_is_telling(regions, 0, page_of_sample(sample, total, count));
}

/// How many bytes the committed ones of the first `count` regions of an allocation have.
pub open spec fn committed_bytes(regions: Seq<MemoryRegion>, base: u64, count: int) -> int
    decreases count,
{
    if count <= 0 {
        0
    } else {
        let region = regions[count - 1];
        committed_bytes(regions, base, count - 1) + if region.committed() && region.allocation_base
            == base {
            region.size as int
        } else {
            0
        }
    }
}

/// Whether the region is committed memory of the allocation.
pub open spec fn committed_in(region: MemoryRegion, base: u64) -> bool {
    region.committed() && region.allocation_base == base
}

/// What is known of an allocation is what its committed regions add up to: it is known where
/// it is wanted and has such a region; it ends where the furthest of them ends; its size is
/// theirs together; and it is executable where one of them is.
pub proof fn law_extents_add_up(
    regions: Seq<MemoryRegion>,
    allocations: Set<u64>,
    count: int,
    base: u64,
)
    requires
        0 <= count <= regions.len(),
        forall|i: int|
            0 <= i < regions.len() ==> (#[trigger] regions[i]).base + regions[i].size <= u64::MAX,
    ensures
        ({
            let extents = extents_among(regions, allocations, count);
            &&& extents.dom().contains(base) <==> allocations.contains(base) && exists|i: int|
                0 <= i < count && committed_in(#[trigger] regions[i], base)
            &&& 0 <= committed_bytes(regions, base, count)
            &&& extents.dom().contains(base) ==> {
                &&& forall|i: int|
                    0 <= i < count && committed_in(#[trigger] regions[i], base) ==> regions[i].base
                        + regions[i].size <= extents[base].end
                &&& extents[base].end == 0 || exists|i: int|
                    0 <= i < count && committed_in(#[trigger] regions[i], base) && regions[i].base
                        + regions[i].size == extents[base].end
                &&& extents[base].committed == clipped_address(
                    committed_bytes(regions, base, count),
                )
                &&& extents[base].executable <==> exists|i: int|
                    0 <= i < count && committed_in(#[trigger] regions[i], base) && allows_execute(
                        regions[i].protect,
                    )
            }
            &&& !(exists|i: int| 0 <= i < count && committed_in(#[trigger] regions[i], base))
                ==> committed_bytes(regions, base, count) == 0
        }),
    decreases count,
{
    if count > 0 {
        law_extents_add_up(regions, allocations, count - 1, base);
        let region = regions[count - 1];
        let before = extents_among(regions, allocations, count - 1);
        let after = extents_among(regions, allocations, count);
        assert(region.base + region.size <= u64::MAX);
        if committed_in(region, base) {
            assert(committed_in(regions[count - 1], base));
        }
        assert forall|i: int| 0 <= i < count - 1 && committed_in(#[trigger] regions[i], base) implies
            committed_in(regions[i], base) && i < count by {}
        if before.dom().contains(base) {
            if before[base].end != 0 {
                let i = choose|i: int|
                    0 <= i < count - 1 && committed_in(#[trigger] regions[i], base)
                        && regions[i].base + regions[i].size == before[base].end;
                assert(committed_in(regions[i], base));
            }
            if before[base].executable {
                let i = choose|i: int|
                    0 <= i < count - 1 && committed_in(#[trigger] regions[i], base)
                        && allows_execute(regions[i].protect);
                assert(committed_in(regions[i], base));
            }
        }
    }
}

/// Where there are no more allocations than are looked at, each that is known is, once; the
/// next one is read whole where the budget allows, else as far as it goes.
pub proof fn law_allocations_are_looked_at(
    regions: Seq<MemoryRegion>,
    allocations: Set<u64>,
    base: u64,
)
    requires
        ({
            let extents = extents_among(regions, allocations, regions.len() as int);
            &&& extents.dom().contains(base)
            &&& in_order(extents.dom()).len() <= 4_096
        }),
    ensures
        pending_allocations(regions, allocations).contains(
            (base, extents_among(regions, allocations, regions.len() as int)[base]),
        ),
        pending_allocations(regions, allocations).len() == in_order(
            extents_among(regions, allocations, regions.len() as int).dom(),
        ).len(),
{
    let extents = extents_among(regions, allocations, regions.len() as int);
    law_in_order_lists_the_set(extents.dom());
    let list = first_bases(extents);
    assert(list.contains(base));
    let i = choose|i: int| 0 <= i < list.len() && list[i] == base;
    assert(pending_allocations(regions, allocations)[i] == (base, extents[base]));
}

/// An allocation is read from its base to its end where the budget allows, else as far as the
/// budget goes; what is read is taken off the budget, and what is committed but not read is
/// counted.
pub proof fn law_allocations_are_read_whole(view: AllocationView, read: bool)
    requires
        0 <= view.next < view.pending.len(),
        0 <= view.remaining,
        view.pending[view.next].0 <= view.pending[view.next].1.end,
    ensures
        ({
            let (base, extent) = view.pending[view.next];
            let after = view.after(read);
            &&& extent.end - base <= view.remaining ==> base + view.size() == extent.end
            &&& extent.end - base > view.remaining ==> view.size() == view.remaining
            &&& after.next == view.next + 1 && after.pending == view.pending
            &&& read ==> after.remaining == view.remaining - view.size()
            &&& !read ==> after.remaining == view.remaining && after.skipped == clipped_address(
                view.skipped + extent.committed,
            )
            &&& read && view.size() > 0 && extent.committed <= view.size() && view.skipped
                <= u64::MAX ==> after.skipped == view.skipped
            &&& read && view.size() > 0 && extent.committed > view.size() ==> after.skipped
                == clipped_address(view.skipped + (extent.committed - view.size()))
        }),
{
}

/// Candidates that no file is mapped to are kept, and no others.
pub proof fn law_unmapped_candidates_are_kept(
    candidates: Seq<u64>,
    mapped: Seq<bool>,
    count: int,
    base: u64,
)
    requires
        0 <= count <= candidates.len(),
        candidates.len() == mapped.len(),
    ensures
        unmapped(candidates, mapped, count).contains(base) <==> exists|i: int|
            0 <= i < count && #[trigger] candidates[i] == base && !mapped[i],
    decreases count,
{
    if count > 0 {
        law_unmapped_candidates_are_kept(candidates, mapped, count - 1, base);
        if unmapped(candidates, mapped, count - 1).contains(base) {
            let i = choose|i: int|
                0 <= i < count - 1 && #[trigger] candidates[i] == base && !mapped[i];
            assert(candidates[i] == base);
        }
        if !mapped[count - 1] && candidates[count - 1] == base {
            assert(unmapped(candidates, mapped, count).contains(base));
        }
    }
}

proof fn lemma_region_at(regions: Seq<MemoryRegion>, base: u64, from: int)
    requires
        0 <= from <= regions.len(),
    ensures
        region_at(regions, base, from) matches Some(region) ==> region.base == base && exists|
            i: int,
        |
            from <= i < regions.len() && #[trigger] regions[i] == region && forall|j: int|
                from <= j < i ==> (#[trigger] regions[j]).base != base,
        region_at(regions, base, from) is None ==> forall|j: int|
            from <= j < regions.len() ==> (#[trigger] regions[j]).base != base,
    decreases regions.len() - from,
{
    if from < regions.len() {
        lemma_region_at(regions, base, from + 1);
        if regions[from].base != base {
            if let Some(region) = region_at(regions, base, from) {
                let i = choose|i: int|
                    from + 1 <= i < regions.len() && #[trigger] regions[i] == region && forall|
                        j: int,
                    |
                        from + 1 <= j < i ==> (#[trigger] regions[j]).base != base;
                assert(regions[i] == region);
            }
        }
    }
}

/// An allocation is claimed exactly where a hidden image starts with one of its regions, the
/// first that is listed for that address.
pub proof fn law_hidden_images_claim_their_allocations(
    regions: Seq<MemoryRegion>,
    hidden: Seq<(u64, u64)>,
    count: int,
    allocation: u64,
)
    requires
        0 <= count <= hidden.len(),
    ensures
        claimed_allocations(regions, hidden, count).contains(allocation) <==> exists|
            h: int,
            i: int,
        |
            0 <= h < count && 0 <= i < regions.len() && #[trigger] starts_region(
                regions,
                hidden[h].0,
                i,
            ) && regions[i].allocation_base == allocation,
    decreases count,
{
    if count > 0 {
        law_hidden_images_claim_their_allocations(regions, hidden, count - 1, allocation);
        let base = hidden[count - 1].0;
        lemma_region_at(regions, base, 0);
        if let Some(region) = region_at(regions, base, 0) {
            let i = choose|i: int|
                0 <= i < regions.len() && #[trigger] regions[i] == region && forall|j: int|
                    0 <= j < i ==> (#[trigger] regions[j]).base != base;
            assert(starts_region(regions, hidden[count - 1].0, i));
            assert forall|other: int| starts_region(regions, base, other) implies other == i by {
                if other < i {
                    assert(regions[other].base != base);
                } else if other > i {
                    assert(regions[i].base != base);
                }
            }
        }
        if claimed_allocations(regions, hidden, count - 1).contains(allocation) {
            let (h, i) = choose|h: int, i: int|
                0 <= h < count - 1 && 0 <= i < regions.len() && #[trigger] starts_region(
                    regions,
                    hidden[h].0,
                    i,
                ) && regions[i].allocation_base == allocation;
            assert(starts_region(regions, hidden[h].0, i));
        }
    }
}

/// Whether the region is the first that starts at the address.
pub open spec fn starts_region(regions: Seq<MemoryRegion>, base: u64, index: int) -> bool {
    &&& 0 <= index < regions.len()
    &&& regions[index].base == base
    &&& forall|j: int| 0 <= j < index ==> (#[trigger] regions[j]).base != base
}

/// Whether the region is committed memory of the image.
pub open spec fn image_part(region: MemoryRegion, base: u64) -> bool {
    region.committed() && region.of_image() && region.allocation_base == base
}

/// A mapped image is measured from its base to where the furthest of its committed regions
/// ends, and only mapped images are.
pub proof fn law_image_ends_are_the_furthest(regions: Seq<MemoryRegion>, count: int, base: u64)
    requires
        0 <= count <= regions.len(),
        forall|i: int|
            0 <= i < regions.len() ==> (#[trigger] regions[i]).base + regions[i].size <= u64::MAX,
    ensures
        ({
            let ends = image_ends(regions, count);
            &&& ends.dom().contains(base) <==> base != 0 && exists|i: int|
                0 <= i < count && image_part(#[trigger] regions[i], base)
            &&& ends.dom().contains(base) ==> forall|i: int|
                0 <= i < count && image_part(#[trigger] regions[i], base) ==> regions[i].base
                    + regions[i].size <= ends[base]
            &&& ends.dom().contains(base) ==> exists|i: int|
                0 <= i < count && image_part(#[trigger] regions[i], base) && regions[i].base
                    + regions[i].size == ends[base]
        }),
    decreases count,
{
    if count > 0 {
        law_image_ends_are_the_furthest(regions, count - 1, base);
        let region = regions[count - 1];
        let before = image_ends(regions, count - 1);
        let after = image_ends(regions, count);
        assert(region.base + region.size <= u64::MAX);
        if image_part(region, base) {
            assert(image_part(regions[count - 1], base));
        }
        if before.dom().contains(base) {
            let i = choose|i: int|
                0 <= i < count - 1 && image_part(#[trigger] regions[i], base) && regions[i].base
                    + regions[i].size == before[base];
            assert(image_part(regions[i], base));
        }
    }
}

/// Where there are no more mapped images than are measured, each is.
pub proof fn law_every_image_is_measured(regions: Seq<MemoryRegion>, base: u64)
    requires
        image_ends(regions, regions.len() as int).dom().contains(base),
        in_order(image_ends(regions, regions.len() as int).dom()).len() <= 4_096,
        base <= image_ends(regions, regions.len() as int)[base],
    ensures
        measured_images(regions).contains(
            (base, (image_ends(regions, regions.len() as int)[base] - base) as u64),
        ),
{
    let ends = image_ends(regions, regions.len() as int);
    let list = in_order(ends.dom());
    law_in_order_lists_the_set(ends.dom());
    assert(list.contains(base));
    let i = choose|i: int| 0 <= i < list.len() && list[i] == base;
    assert(measured_images(regions)[i] == (base, (ends[base] - base) as u64));
}

/// Whether the path starts with the device and goes on with a backslash.
pub open spec fn starts_with_device(path: Seq<char>, device: Seq<char>) -> bool {
    device.len() < path.len() && device.is_prefix_of(path) && path[device.len() as int] == '\\'
}

proof fn lemma_dos_path(path: Seq<char>, drives: Seq<(String, String)>, from: int, index: int)
    requires
        0 <= from <= index < drives.len(),
        starts_with_device(path, drives[index].0@),
        forall|j: int| from <= j < index ==> !starts_with_device(path, (#[trigger] drives[j]).0@),
    ensures
        dos_path(path, drives, from) == Some(
            drives[index].1@ + path.subrange(
                drives[index].0@.len() as int,
                path.len() as int,
            ),
        ),
    decreases index - from,
{
    assert forall|device: Seq<char>| #[trigger] starts_with_device(path, device) ==
        crate::memory::names::on_device(path, device) by {
        if device.len() <= path.len() {
            let head = path.take(device.len() as int);
            if device.is_prefix_of(path) {
                assert(head =~= device);
            }
            if head == device {
                assert(path.subrange(0, device.len() as int) =~= device);
            }
        }
    }
    assert(starts_with_device(path, drives[from].0@) == (from == index));
    if from < index {
        lemma_dos_path(path, drives, from + 1, index);
    }
}

/// A path on a device gets the letter of the first drive with that device in its place, and
/// what follows stays as it is.
pub proof fn law_devices_become_drive_letters(
    path: Seq<char>,
    drives: Seq<(String, String)>,
    index: int,
    rest: Seq<char>,
)
    requires
        0 <= index < drives.len(),
        path == drives[index].0@ + rest,
        rest.len() > 0 && rest[0] == '\\',
        forall|j: int| 0 <= j < index ==> !starts_with_device(path, (#[trigger] drives[j]).0@),
    ensures
        dos_path(path, drives, 0) == Some(drives[index].1@ + rest),
{
    let device = drives[index].0@;
    assert(path.subrange(0, device.len() as int) =~= device);
    assert(path.subrange(device.len() as int, path.len() as int) =~= rest);
    lemma_dos_path(path, drives, 0, index);
}

/// The letters of drives are those whose bit is set, in order: the letter of bit `k` is there
/// where the bit is, and letters climb.
pub proof fn law_drive_letters_follow_the_bits(mask: u32, count: int, letter: u8)
    requires
        0 <= count <= 26,
    ensures
        letters_of(mask, count).contains(letter) <==> 0x41 <= letter < 0x41 + count && mask & (1u32
            << ((letter - 0x41) as u32)) != 0,
        forall|i: int, j: int|
            0 <= i < j < letters_of(mask, count).len() ==> #[trigger] letters_of(mask, count)[i]
                < #[trigger] letters_of(mask, count)[j],
        forall|i: int|
            0 <= i < letters_of(mask, count).len() ==> #[trigger] letters_of(mask, count)[i] < 0x41
                + count,
    decreases count,
{
    if count > 0 {
        law_drive_letters_follow_the_bits(mask, count - 1, letter);
        let before = letters_of(mask, count - 1);
        let after = letters_of(mask, count);
        if before.contains(letter) {
            let i = choose|i: int| 0 <= i < before.len() && before[i] == letter;
            assert(after[i] == letter);
        }
        if after.len() > before.len() {
            assert(after[before.len() as int] == (0x41 + (count - 1)) as u8);
            assert(after.drop_last() =~= before);
            if after.contains(letter) {
                let i = choose|i: int| 0 <= i < after.len() && after[i] == letter;
                if i < before.len() {
                    assert(before[i] == letter);
                }
            }
        }
    }
}

/// What a protection allows is told by its lowest byte, unless it guards the memory or bars
/// access: all but the bits of an empty and of an execute-only protection can be read, those
/// with copies or write access can be written, and those from execute-only on can be run.
pub proof fn law_protections_allow_what_they_name(protect: u32)
    ensures
        protect & 0x101 != 0 ==> !allows_read(protect) && !allows_write(protect)
            && !allows_execute(protect),
        protect & 0x101 == 0 ==> {
            let base = protect & 0xff;
            &&& allows_read(protect) == (base == 0x02 || base == 0x04 || base == 0x08 || base == 0x20
                || base == 0x40 || base == 0x80)
            &&& allows_write(protect) == (base == 0x04 || base == 0x08 || base == 0x40 || base
                == 0x80)
            &&& allows_execute(protect) == (base == 0x10 || base == 0x20 || base == 0x40 || base
                == 0x80)
        },
{
    assert(0x100u32 | 0x001u32 == 0x101u32) by (bit_vector);
}

/// The allocations of loose code are found: that of every committed, executable region that
/// belongs to no image and has one, and no others. So are those of loose data that can be
/// read, where they have no code, and the images that are mapped or listed.
pub proof fn law_allocations_are_told_apart(
    regions: Seq<MemoryRegion>,
    executable: Set<u64>,
    modules: Seq<u64>,
    base: u64,
)
    ensures
        code_allocations(regions).contains(base) <==> base != 0 && exists|i: int|
            0 <= i < regions.len() && (#[trigger] regions[i]).allocation_base == base
                && regions[i].state == 0x1000 && regions[i].kind != 0x100_0000 && allows_execute(
                regions[i].protect,
            ),
        data_allocations(regions, executable).contains(base) <==> base != 0 && !executable.contains(
            base,
        ) && exists|i: int|
            0 <= i < regions.len() && (#[trigger] regions[i]).allocation_base == base
                && regions[i].state == 0x1000 && regions[i].kind != 0x100_0000 && allows_read(
                regions[i].protect,
            ) && !allows_execute(regions[i].protect),
        known_bases(regions, modules).contains(base) <==> base != 0 && (modules.contains(base)
            || exists|i: int|
            0 <= i < regions.len() && (#[trigger] regions[i]).allocation_base == base
                && regions[i].kind == 0x100_0000),
{
    if code_allocations(regions).contains(base) {
        let i = choose|i: int|
            0 <= i < regions.len() && loose_code(#[trigger] regions[i])
                && regions[i].allocation_base == base;
        assert(regions[i].allocation_base == base);
    }
    if data_allocations(regions, executable).contains(base) {
        let i = choose|i: int|
            0 <= i < regions.len() && loose_data(#[trigger] regions[i])
                && regions[i].allocation_base == base;
        assert(regions[i].allocation_base == base);
    }
    if exists|i: int|
        0 <= i < regions.len() && (#[trigger] regions[i]).allocation_base == base
            && regions[i].kind == 0x100_0000 {
        let i = choose|i: int|
            0 <= i < regions.len() && (#[trigger] regions[i]).allocation_base == base
                && regions[i].kind == 0x100_0000;
        assert(regions[i].of_image());
    }
}

/// Whether the address is that of one of the first `count` mapped files whose path is wanted.
pub open spec fn address_of_wanted(
    mapped: Seq<(u64, String)>,
    drives: Seq<(String, String)>,
    wanted: Seq<char>,
    count: int,
    address: u64,
) -> bool {
    exists|i: int|
        0 <= i < count && path_wanted((#[trigger] mapped[i]).1@, drives, wanted) && mapped[i].0
            == address
}

proof fn lemma_wanted_by_path(
    mapped: Seq<(u64, String)>,
    drives: Seq<(String, String)>,
    wanted: Seq<char>,
    count: int,
)
    requires
        0 <= count <= mapped.len(),
    ensures
        wanted_by_path(mapped, drives, wanted, count).len() == count_where(
            count,
            |i: int| path_wanted(mapped[i].1@, drives, wanted),
        ),
        forall|k: int|
            0 <= k < wanted_by_path(mapped, drives, wanted, count).len() ==> address_of_wanted(
                mapped,
                drives,
                wanted,
                count,
                #[trigger] wanted_by_path(mapped, drives, wanted, count)[k],
            ),
    decreases count,
{
    let chosen = |i: int| path_wanted(mapped[i].1@, drives, wanted);
    if count > 0 {
        lemma_wanted_by_path(mapped, drives, wanted, count - 1);
        let before = wanted_by_path(mapped, drives, wanted, count - 1);
        let found = wanted_by_path(mapped, drives, wanted, count);
        assert(chosen(count - 1) == path_wanted(mapped[count - 1].1@, drives, wanted));
        assert forall|k: int| 0 <= k < found.len() implies address_of_wanted(
            mapped,
            drives,
            wanted,
            count,
            #[trigger] found[k],
        ) by {
            if k < before.len() {
                assert(before[k] == found[k]);
                let i = choose|i: int|
                    0 <= i < count - 1 && path_wanted((#[trigger] mapped[i]).1@, drives, wanted)
                        && mapped[i].0 == before[k];
                assert(mapped[i].0 == found[k]);
            } else {
                assert(mapped[count - 1].0 == found[k]);
            }
        }
    }
}

/// Whether the file at the path has the wanted path, once the device has its drive letter.
pub open spec fn has_path(
    device: Seq<char>,
    drives: Seq<(String, String)>,
    wanted: Seq<char>,
) -> bool {
    dos_path(device, drives, 0) matches Some(path) && same_text(path, wanted)
}

/// The address of the program itself is that of its module where one is listed. Else it is
/// that of a mapped file with its path, where there is only one, and there is none where
/// there are several.
pub proof fn law_main_address_is_that_of_the_path(
    listed: Option<u64>,
    mapped: Seq<(u64, String)>,
    drives: Seq<(String, String)>,
    wanted: Seq<char>,
    name: Seq<char>,
)
    ensures
        ({
            let found = main_address(listed, mapped, drives, wanted, name);
            let matching = count_where(
                mapped.len() as int,
                |i: int| has_path(mapped[i].1@, drives, wanted),
            );
            &&& listed is Some ==> found == listed
            &&& listed is None && matching > 1 ==> found is None
            &&& listed is None && matching == 1 ==> exists|i: int|
                0 <= i < mapped.len() && has_path((#[trigger] mapped[i]).1@, drives, wanted)
                    && found == Some(mapped[i].0)
        }),
{
    let count = mapped.len() as int;
    lemma_wanted_by_path(mapped, drives, wanted, count);
    let left = |i: int| path_wanted(mapped[i].1@, drives, wanted);
    let right = |i: int| has_path(mapped[i].1@, drives, wanted);
    assert forall|i: int| 0 <= i < count implies #[trigger] left(i) == right(i) by {}
    crate::pe::rebuild::reported::lemma_count_same(count, left, right);
    let by_path = wanted_by_path(mapped, drives, wanted, count);
    if listed is None && by_path.len() == 1 {
        assert(address_of_wanted(mapped, drives, wanted, count, by_path[0]));
        let i = choose|i: int|
            0 <= i < count && path_wanted((#[trigger] mapped[i]).1@, drives, wanted) && mapped[i].0
                == by_path[0];
        assert(has_path(mapped[i].1@, drives, wanted));
    }
}

} // verus!
