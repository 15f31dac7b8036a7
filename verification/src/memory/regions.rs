//! Regions and allocations.

use std::collections::{BTreeMap, BTreeSet};
use vstd::prelude::*;

use crate::error::AppError;
use crate::memory::{
    allows_execute, allows_read, clipped_address, is_executable, is_readable, MemoryRegion,
    MAX_MEMORY_REGIONS, MAX_TOTAL_IMAGE_BYTES, MEM_COMMIT, MEM_IMAGE,
};
use crate::order::{ascending, in_order};

verus! {

broadcast use {
    vstd::std_specs::btree::group_btree_axioms,
    vstd::laws_cmp::group_laws_cmp,
};

/// Whether the region is executable memory that belongs to no image.
pub open spec fn loose_code(region: MemoryRegion) -> bool {
    region.committed() && !region.of_image() && allows_execute(region.protect)
}

/// The allocations with executable memory that belongs to no image.
pub open spec fn code_allocations(regions: Seq<MemoryRegion>) -> Set<u64> {
    Set::new(
        |base: u64|
            base != 0 && exists|i: int|
                0 <= i < regions.len() && loose_code(#[trigger] regions[i])
                    && regions[i].allocation_base == base,
    )
}

/// Finds the allocations with executable memory that belongs to no image.
pub fn executable_non_image_allocations(regions: &[MemoryRegion]) -> (allocations: BTreeSet<u64>)
    ensures
        allocations@ == code_allocations(regions@),
{
    let mut allocations: BTreeSet<u64> = BTreeSet::new();
    let mut index: usize = 0;
    while index < regions.len()
        invariant
            index <= regions@.len(),
            forall|base: u64|
                #[trigger] allocations@.contains(base) <==> base != 0 && exists|i: int|
                    0 <= i < index && loose_code(#[trigger] regions@[i])
                        && regions@[i].allocation_base == base,
        decreases regions@.len() - index,
    {
        let region = regions[index];
        let ghost before = allocations@;
        if region.state == MEM_COMMIT && region.kind != MEM_IMAGE && is_executable(region.protect)
            && region.allocation_base != 0 {
            assert(loose_code(regions@[index as int]));
            allocations.insert(region.allocation_base);
        }
        assert forall|base: u64| #[trigger] allocations@.contains(base) <==> base != 0
            && exists|i: int|
            0 <= i < index + 1 && loose_code(#[trigger] regions@[i])
                && regions@[i].allocation_base == base by {
            assert(before.contains(base) || !before.contains(base));
        }
        index = index + 1;
    }
    assert(allocations@ =~= code_allocations(regions@));
    allocations
}

/// Whether the region is readable data that belongs to no image.
pub open spec fn loose_data(region: MemoryRegion) -> bool {
    region.committed() && !region.of_image() && region.allocation_base != 0 && allows_read(
        region.protect,
    ) && !allows_execute(region.protect)
}

/// The allocations with readable data that belongs to no image, but for those with code.
pub open spec fn data_allocations(regions: Seq<MemoryRegion>, executable: Set<u64>) -> Set<u64> {
    Set::new(
        |base: u64|
            !executable.contains(base) && exists|i: int|
                0 <= i < regions.len() && loose_data(#[trigger] regions[i])
                    && regions[i].allocation_base == base,
    )
}

/// Finds the allocations with readable data that belongs to no image, but for those with
/// code.
pub fn readable_candidates(regions: &[MemoryRegion], executable: &BTreeSet<u64>) -> (allocations:
    BTreeSet<u64>)
    ensures
        allocations@ == data_allocations(regions@, executable@),
{
    let mut allocations: BTreeSet<u64> = BTreeSet::new();
    let mut index: usize = 0;
    while index < regions.len()
        invariant
            index <= regions@.len(),
            forall|base: u64|
                #[trigger] allocations@.contains(base) <==> !executable@.contains(base)
                    && exists|i: int|
                    0 <= i < index && loose_data(#[trigger] regions@[i])
                        && regions@[i].allocation_base == base,
        decreases regions@.len() - index,
    {
        let region = regions[index];
        let ghost before = allocations@;
        if region.state == MEM_COMMIT && region.kind != MEM_IMAGE && region.allocation_base != 0
            && is_readable(region.protect) && !is_executable(region.protect)
            && !executable.contains(&region.allocation_base) {
            assert(loose_data(regions@[index as int]));
            allocations.insert(region.allocation_base);
        }
        assert forall|base: u64| #[trigger] allocations@.contains(base) <==> !executable@.contains(
            base,
        ) && exists|i: int|
            0 <= i < index + 1 && loose_data(#[trigger] regions@[i])
                && regions@[i].allocation_base == base by {
            assert(before.contains(base) || !before.contains(base));
        }
        index = index + 1;
    }
    assert(allocations@ =~= data_allocations(regions@, executable@));
    allocations
}

/// Those of the first `count` candidates, in order, that no file is mapped to.
pub open spec fn unmapped(candidates: Seq<u64>, mapped: Seq<bool>, count: int) -> Set<u64>
    decreases count,
{
    if count <= 0 {
        Set::empty()
    } else if mapped[count - 1] {
        unmapped(candidates, mapped, count - 1)
    } else {
        unmapped(candidates, mapped, count - 1).insert(candidates[count - 1])
    }
}

/// Keeps the candidates that no file is mapped to; `mapped` says of each, in ascending
/// order, whether one is.
pub fn readable_non_image_allocations(candidates: &BTreeSet<u64>, mapped: &[bool]) -> (allocations:
    BTreeSet<u64>)
    requires
        mapped@.len() == candidates@.len(),
    ensures
        allocations@ == unmapped(
            in_order(candidates@),
            mapped@,
            in_order(candidates@).len() as int,
        ),
{
    let list = ascending(candidates);
    let mut allocations: BTreeSet<u64> = BTreeSet::new();
    let mut index: usize = 0;
    while index < list.len()
        invariant
            index <= list@.len(),
            list@ == in_order(candidates@),
            mapped@.len() == list@.len(),
            allocations@ == unmapped(in_order(candidates@), mapped@, index as int),
        decreases list@.len() - index,
    {
        if !mapped[index] {
            allocations.insert(list[index]);
        }
        index = index + 1;
    }
    allocations
}

/// The first region from `index` on that starts at an address.
pub open spec fn region_at(regions: Seq<MemoryRegion>, base: u64, index: int) -> Option<
    MemoryRegion,
>
    decreases regions.len() - index,
{
    if index >= regions.len() {
        None
    } else if regions[index].base == base {
        Some(regions[index])
    } else {
        region_at(regions, base, index + 1)
    }
}

/// The allocations that the first `count` hidden images were found in.
pub open spec fn claimed_allocations(
    regions: Seq<MemoryRegion>,
    hidden: Seq<(u64, u64)>,
    count: int,
) -> Set<u64>
    decreases count,
{
    if count <= 0 {
        Set::empty()
    } else {
        let before = claimed_allocations(regions, hidden, count - 1);
        match region_at(regions, hidden[count - 1].0, 0) {
            Some(region) => before.insert(region.allocation_base),
            None => before,
        }
    }
}

/// The executable allocations in which no hidden image was found.
pub open spec fn unclaimed(
    regions: Seq<MemoryRegion>,
    executable: Set<u64>,
    hidden: Seq<(u64, u64)>,
) -> Set<u64> {
    executable.difference(claimed_allocations(regions, hidden, hidden.len() as int))
}

fn find_region(regions: &[MemoryRegion], base: u64) -> (result: Option<MemoryRegion>)
    ensures
        result == region_at(regions@, base, 0),
{
    let mut index: usize = 0;
    while index < regions.len()
        invariant
            index <= regions@.len(),
            region_at(regions@, base, 0) == region_at(regions@, base, index as int),
        decreases regions@.len() - index,
    {
        if regions[index].base == base {
            return Some(regions[index]);
        }
        index = index + 1;
    }
    None
}

/// Finds the executable allocations in which no hidden image was found.
pub fn unclaimed_executable_allocations(
    regions: &[MemoryRegion],
    executable: &BTreeSet<u64>,
    hidden: &[(u64, u64)],
) -> (allocations: BTreeSet<u64>)
    ensures
        allocations@ == unclaimed(regions@, executable@, hidden@),
{
    let mut claimed: BTreeSet<u64> = BTreeSet::new();
    let mut next: usize = 0;
    while next < hidden.len()
        invariant
            next <= hidden@.len(),
            claimed@ == claimed_allocations(regions@, hidden@, next as int),
        decreases hidden@.len() - next,
    {
        if let Some(region) = find_region(regions, hidden[next].0) {
            claimed.insert(region.allocation_base);
        }
        next = next + 1;
    }
    let list = ascending(executable);
    proof {
        crate::order::law_in_order_lists_the_set(executable@);
    }
    let mut allocations: BTreeSet<u64> = BTreeSet::new();
    let mut index: usize = 0;
    while index < list.len()
        invariant
            index <= list@.len(),
            forall|base: u64|
                #[trigger] allocations@.contains(base) <==> !claimed@.contains(base)
                    && list@.take(index as int).contains(base),
        decreases list@.len() - index,
    {
        let base: u64 = list[index];
        let ghost before = allocations@;
        if !claimed.contains(&base) {
            allocations.insert(base);
        }
        assert forall|other: u64| #[trigger] allocations@.contains(other) <==> !claimed@.contains(
            other,
        ) && list@.take(index + 1).contains(other) by {
            assert(list@.take(index + 1) =~= list@.take(index as int).push(base));
            assert(before.contains(other) <==> !claimed@.contains(other) && list@.take(
                index as int,
            ).contains(other));
            if list@.take(index as int).contains(other) {
                let i: int = choose|i: int|
                    0 <= i < index && list@.take(index as int)[i] == other;
                assert(list@.take(index + 1)[i] == other);
            }
            if other == base {
                assert(list@.take(index + 1)[index as int] == other);
            }
        }
        index = index + 1;
    }
    assert(list@.take(index as int) =~= list@);
    assert(allocations@ =~= unclaimed(regions@, executable@, hidden@));
    allocations
}

/// The addresses that images start at: those of mapped images and those of modules.
pub open spec fn known_bases(regions: Seq<MemoryRegion>, modules: Seq<u64>) -> Set<u64> {
    Set::new(
        |base: u64|
            base != 0 && (exists|i: int|
                0 <= i < regions.len() && (#[trigger] regions[i]).of_image()
                    && regions[i].allocation_base == base) || base != 0 && modules.contains(base),
    )
}

/// Finds the addresses that images start at.
pub fn image_bases(regions: &[MemoryRegion], modules: &[u64]) -> (bases: BTreeSet<u64>)
    ensures
        bases@ == known_bases(regions@, modules@),
{
    let mut bases: BTreeSet<u64> = BTreeSet::new();
    let mut index: usize = 0;
    while index < regions.len()
        invariant
            index <= regions@.len(),
            forall|base: u64|
                #[trigger] bases@.contains(base) <==> base != 0 && exists|i: int|
                    0 <= i < index && (#[trigger] regions@[i]).of_image()
                        && regions@[i].allocation_base == base,
        decreases regions@.len() - index,
    {
        let region = regions[index];
        let ghost before = bases@;
        if region.kind == MEM_IMAGE && region.allocation_base != 0 {
            assert(regions@[index as int].of_image());
            bases.insert(region.allocation_base);
        }
        assert forall|base: u64| #[trigger] bases@.contains(base) <==> base != 0 && exists|i: int|
            0 <= i < index + 1 && (#[trigger] regions@[i]).of_image()
                && regions@[i].allocation_base == base by {
            assert(before.contains(base) || !before.contains(base));
        }
        index = index + 1;
    }
    let ghost of_regions = bases@;
    let mut next: usize = 0;
    while next < modules.len()
        invariant
            next <= modules@.len(),
            forall|base: u64|
                #[trigger] bases@.contains(base) <==> of_regions.contains(base) || base != 0
                    && exists|i: int| 0 <= i < next && #[trigger] modules@[i] == base,
        decreases modules@.len() - next,
    {
        let base: u64 = modules[next];
        let ghost before = bases@;
        if base != 0 {
            bases.insert(base);
        }
        assert forall|other: u64| #[trigger] bases@.contains(other) <==> of_regions.contains(other)
            || other != 0 && exists|i: int| 0 <= i < next + 1 && #[trigger] modules@[i]
            == other by {
            assert(before.contains(other) || !before.contains(other));
            assert(modules@[next as int] == base);
        }
        next = next + 1;
    }
    assert forall|base: u64| #[trigger] bases@.contains(base) <==> known_bases(
        regions@,
        modules@,
    ).contains(base) by {
        assert(of_regions.contains(base) || !of_regions.contains(base));
    }
    assert(bases@ =~= known_bases(regions@, modules@));
    bases
}

/// `ends` with an allocation that reaches at least to `end`.
pub open spec fn with_end(ends: Map<u64, u64>, allocation: u64, end: u64) -> Map<u64, u64> {
    if ends.dom().contains(allocation) && ends[allocation] >= end {
        ends
    } else {
        ends.insert(allocation, end)
    }
}

/// Where those of the first `count` regions that belong to the allocations end, by
/// allocation.
pub open spec fn extents_of(
    regions: Seq<MemoryRegion>,
    allocations: Set<u64>,
    count: int,
) -> Result<Map<u64, u64>, AppError>
    decreases count,
{
    if count <= 0 {
        Ok(Map::empty())
    } else {
        match extents_of(regions, allocations, count - 1) {
            Err(error) => Err(error),
            Ok(ends) => {
                let region = regions[count - 1];
                if !allocations.contains(region.allocation_base) {
                    Ok(ends)
                } else if region.base + region.size > u64::MAX {
                    Err(AppError::AllocationOverflow)
                } else {
                    Ok(
                        with_end(
                            ends,
                            region.allocation_base,
                            (region.base + region.size) as u64,
                        ),
                    )
                }
            },
        }
    }
}

proof fn lemma_extents_error(
    regions: Seq<MemoryRegion>,
    allocations: Set<u64>,
    count: int,
    total: int,
)
    requires
        extents_of(regions, allocations, count) is Err,
        count <= total,
    ensures
        extents_of(regions, allocations, total) == extents_of(regions, allocations, count),
    decreases total - count,
{
    if count < total {
        lemma_extents_error(regions, allocations, count, total - 1);
    }
}

/// Records the end of a region of an allocation.
fn note_end(ends: &mut BTreeMap<u64, u64>, allocation: u64, end: u64)
    ensures
        final(ends)@ == with_end(old(ends)@, allocation, end),
{
    if let Some(current) = ends.get(&allocation) {
        if *current >= end {
            return;
        }
    }
    ends.insert(allocation, end);
}

/// Finds where allocations end.
pub fn allocation_extents(regions: &[MemoryRegion], executable_allocations: &BTreeSet<u64>) -> (
    result: Result<BTreeMap<u64, u64>, AppError>)
    ensures
        match extents_of(regions@, executable_allocations@, regions@.len() as int) {
            Ok(ends) => result matches Ok(found) && found@ == ends,
            Err(error) => result matches Err(found) && found == error,
        },
{
    let mut ends: BTreeMap<u64, u64> = BTreeMap::new();
    let mut index: usize = 0;
    while index < regions.len()
        invariant
            index <= regions@.len(),
            extents_of(regions@, executable_allocations@, index as int) == Ok::<
                Map<u64, u64>,
                AppError,
            >(ends@),
        decreases regions@.len() - index,
    {
        let region = regions[index];
        if executable_allocations.contains(&region.allocation_base) {
            match region.base.checked_add(region.size) {
                Some(end) => {
                    note_end(&mut ends, region.allocation_base, end);
                },
                None => {
                    proof {
                        lemma_extents_error(
                            regions@,
                            executable_allocations@,
                            index + 1,
                            regions@.len() as int,
                        );
                    }
                    return Err(AppError::AllocationOverflow);
                },
            }
        }
        index = index + 1;
    }
    Ok(ends)
}

/// The end of an allocation is at least that of each of its regions, and is that of one of
/// them.
pub proof fn law_extents_are_the_furthest_ends(
    regions: Seq<MemoryRegion>,
    allocations: Set<u64>,
    count: int,
)
    requires
        0 <= count <= regions.len(),
    ensures
        extents_of(regions, allocations, count) matches Ok(ends) ==> {
            &&& forall|i: int|
                0 <= i < count && allocations.contains((#[trigger] regions[i]).allocation_base)
                    ==> ends.dom().contains(regions[i].allocation_base) && regions[i].base
                    + regions[i].size <= ends[regions[i].allocation_base]
            &&& forall|base: u64| #[trigger]
                ends.dom().contains(base) ==> exists|i: int|
                    0 <= i < count && (#[trigger] regions[i]).allocation_base == base
                        && regions[i].base + regions[i].size == ends[base]
        },
    decreases count,
{
    if count > 0 {
        law_extents_are_the_furthest_ends(regions, allocations, count - 1);
        if let Ok(ends) = extents_of(regions, allocations, count) {
            let before = extents_of(regions, allocations, count - 1)->Ok_0;
            let region = regions[count - 1];
            assert forall|base: u64| #[trigger] ends.dom().contains(base) implies exists|i: int|
                0 <= i < count && (#[trigger] regions[i]).allocation_base == base
                    && regions[i].base + regions[i].size == ends[base] by {
                if before.dom().contains(base) && ends[base] == before[base] {
                    let i: int = choose|i: int|
                        0 <= i < count - 1 && (#[trigger] regions[i]).allocation_base == base
                            && regions[i].base + regions[i].size == before[base];
                    assert(regions[i].allocation_base == base);
                } else {
                    assert(regions[count - 1].allocation_base == base);
                }
            }
        }
    }
}

/// Whether the region has an address between `base` and `end`.
pub open spec fn meets(region: MemoryRegion, base: u64, end: int) -> bool {
    region.base < end && region.end() > base
}

/// Those of the first `count` regions that have an address between `base` and `end`.
pub open spec fn regions_meeting(
    regions: Seq<MemoryRegion>,
    base: u64,
    end: int,
    count: int,
) -> Seq<MemoryRegion>
    decreases count,
{
    if count <= 0 {
        Seq::empty()
    } else if meets(regions[count - 1], base, end) {
        regions_meeting(regions, base, end, count - 1).push(regions[count - 1])
    } else {
        regions_meeting(regions, base, end, count - 1)
    }
}

/// Finds the regions that a range of addresses meets.
pub fn regions_in_range(regions: &[MemoryRegion], base: u64, size: u64) -> (result: Result<
    Vec<MemoryRegion>,
    AppError,
>)
    ensures
        if base + size > u64::MAX {
            result matches Err(error) && error == AppError::HiddenRangeOverflow
        } else {
            result matches Ok(found) && found@ == regions_meeting(
                regions@,
                base,
                base + size,
                regions@.len() as int,
            )
        },
{
    let end: u64 = match base.checked_add(size) {
        Some(end) => end,
        None => {
            return Err(AppError::HiddenRangeOverflow);
        },
    };
    let mut found: Vec<MemoryRegion> = Vec::new();
    let mut index: usize = 0;
    while index < regions.len()
        invariant
            index <= regions@.len(),
            found@ == regions_meeting(regions@, base, end as int, index as int),
        decreases regions@.len() - index,
    {
        let region = regions[index];
        if region.base < end && region.base.saturating_add(region.size) > base {
            found.push(region);
        }
        index = index + 1;
    }
    Ok(found)
}

/// The regions that are found for a range are those that have an address in it, and no
/// others.
pub proof fn law_found_regions_are_those_in_the_range(
    regions: Seq<MemoryRegion>,
    base: u64,
    end: int,
    count: int,
)
    requires
        0 <= count <= regions.len(),
    ensures
        forall|i: int|
            0 <= i < count && meets(#[trigger] regions[i], base, end) ==> regions_meeting(
                regions,
                base,
                end,
                count,
            ).contains(regions[i]),
        forall|j: int|
            0 <= j < regions_meeting(regions, base, end, count).len() ==> meets(
                #[trigger] regions_meeting(regions, base, end, count)[j],
                base,
                end,
            ),
    decreases count,
{
    if count > 0 {
        law_found_regions_are_those_in_the_range(regions, base, end, count - 1);
        let before = regions_meeting(regions, base, end, count - 1);
        let after = regions_meeting(regions, base, end, count);
        assert forall|i: int|
            0 <= i < count && meets(#[trigger] regions[i], base, end) implies after.contains(
            regions[i],
        ) by {
            if i < count - 1 {
                assert(before.contains(regions[i]));
                let k: int = choose|k: int| 0 <= k < before.len() && before[k] == regions[i];
                assert(after[k] == regions[i]);
            } else {
                assert(after[after.len() - 1] == regions[i]);
            }
        }
    }
}

/// Takes the size of an image off the budget for all images, unless it is spent. A
/// mandatory image is always taken.
pub fn claim_image_budget(total: &mut u64, size: u64, mandatory: bool) -> (claimed: bool)
    ensures
        claimed == (mandatory || *old(total) + size <= MAX_TOTAL_IMAGE_BYTES),
        *final(total) == (if claimed {
            clipped_address(*old(total) + size)
        } else {
            *old(total) as int
        }),
{
    let next: u64 = (*total).saturating_add(size);
    if !mandatory && next > MAX_TOTAL_IMAGE_BYTES {
        return false;
    }
    *total = next;
    true
}

/// The regions that were listed so far, and the address behind the last.
pub struct RegionList {
    pub regions: Vec<MemoryRegion>,
    pub address: u64,
}

impl RegionList {
    pub fn new() -> (list: RegionList)
        ensures
            list.regions@ == Seq::<MemoryRegion>::empty(),
            list.address == 0,
    {
        RegionList { regions: Vec::new(), address: 0 }
    }

    /// Adds the region that the system gave for the address. It has to lead on, and there
    /// must not be too many.
    pub fn add(&mut self, region: MemoryRegion) -> (result: Result<(), AppError>)
        requires
            old(self).regions@.len() < MAX_MEMORY_REGIONS,
        ensures
            result == (if region.base + region.size > u64::MAX {
                Err::<(), AppError>(AppError::RegionAddressOverflow)
            } else if region.size == 0 || region.base + region.size <= old(self).address {
                Err(AppError::RegionRepeated)
            } else if old(self).regions@.len() + 1 == MAX_MEMORY_REGIONS {
                Err(AppError::TooManyRegions)
            } else {
                Ok(())
            }),
            result is Ok ==> final(self).regions@ == old(self).regions@.push(region)
                && final(self).address == region.base + region.size
                && final(self).regions@.len() < MAX_MEMORY_REGIONS,
            result is Err ==> final(self).regions@ == old(self).regions@ && final(self).address
                == old(self).address,
    {
        let next: u64 = match region.base.checked_add(region.size) {
            Some(next) => next,
            None => {
                return Err(AppError::RegionAddressOverflow);
            },
        };
        if region.size == 0 || next <= self.address {
            return Err(AppError::RegionRepeated);
        }
        if self.regions.len() + 1 == MAX_MEMORY_REGIONS {
            return Err(AppError::TooManyRegions);
        }
        self.regions.push(region);
        self.address = next;
        Ok(())
    }
}

} // verus!
