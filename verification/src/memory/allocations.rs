//! Memory that belongs to no image: how much of which allocation is read.

use std::collections::{BTreeMap, BTreeSet};
use vstd::prelude::*;

use crate::memory::{
    allows_execute, clipped_address, is_executable, MemoryRegion, MAX_IMAGES, MEM_COMMIT,
};
use crate::order::{ascending_keys, in_order, law_in_order_lists_the_set};

verus! {

broadcast use {
    vstd::std_specs::btree::group_btree_axioms,
    vstd::laws_cmp::group_laws_cmp,
};

pub const MAX_NON_IMAGE_RW_BYTES: u64 = 0x1000_0000;

pub const MAX_RAW_REGION_BYTES: u64 = 0x2000_0000;

/// What the committed regions of an allocation add up to: where they end, how large they
/// are, and how they are protected.
#[derive(Clone, Copy, Debug, PartialEq, Eq, Structural)]
pub struct AllocationExtent {
    pub end: u64,
    pub committed: u64,
    pub protections: u32,
    pub executable: bool,
}

/// An allocation without regions.
pub open spec fn no_extent() -> AllocationExtent {
    AllocationExtent { end: 0, committed: 0, protections: 0, executable: false }
}

/// `extent` with one more region.
pub open spec fn extent_with(extent: AllocationExtent, region: MemoryRegion) -> AllocationExtent {
    AllocationExtent {
        end: if extent.end >= region.end() {
            extent.end
        } else {
            region.end() as u64
        },
        committed: clipped_address(extent.committed + region.size) as u64,
        protections: extent.protections | region.protect,
        executable: extent.executable || allows_execute(region.protect),
    }
}

/// `extents` with one more region.
pub open spec fn extents_with(
    extents: Map<u64, AllocationExtent>,
    region: MemoryRegion,
) -> Map<u64, AllocationExtent> {
    extents.insert(
        region.allocation_base,
        extent_with(
            if extents.dom().contains(region.allocation_base) {
                extents[region.allocation_base]
            } else {
                no_extent()
            },
            region,
        ),
    )
}

/// What the committed ones of the first `count` regions add up to, by allocation.
pub open spec fn extents_among(
    regions: Seq<MemoryRegion>,
    allocations: Set<u64>,
    count: int,
) -> Map<u64, AllocationExtent>
    decreases count,
{
    if count <= 0 {
        Map::empty()
    } else {
        let before = extents_among(regions, allocations, count - 1);
        let region = regions[count - 1];
        if region.committed() && allocations.contains(region.allocation_base) {
            extents_with(before, region)
        } else {
            before
        }
    }
}

/// The first addresses, as many as are looked at.
pub open spec fn first_bases(extents: Map<u64, AllocationExtent>) -> Seq<u64> {
    let all = in_order(extents.dom());
    if all.len() <= 4_096 {
        all
    } else {
        all.take(4_096)
    }
}

/// The allocations that are looked at, by address.
pub open spec fn pending_allocations(regions: Seq<MemoryRegion>, allocations: Set<u64>) -> Seq<
    (u64, AllocationExtent),
> {
    let extents = extents_among(regions, allocations, regions.len() as int);
    first_bases(extents).map_values(|base: u64| (base, extents[base]))
}

/// An allocation of which `size` bytes are to be read.
#[derive(Clone, Copy, Debug, PartialEq, Eq, Structural)]
pub struct AllocationRead {
    pub base: u64,
    pub size: u64,
    pub extent: AllocationExtent,
}

/// Allocations that are read one after the other, as far as a budget goes, and how many
/// bytes were not read.
pub struct AllocationScan {
    pub pending: Vec<(u64, AllocationExtent)>,
    pub next: usize,
    pub remaining: u64,
    pub skipped: u64,
}

/// Allocations that are read, as contracts speak of them.
pub ghost struct AllocationView {
    pub pending: Seq<(u64, AllocationExtent)>,
    pub next: int,
    pub remaining: int,
    pub skipped: int,
}

impl View for AllocationScan {
    type V = AllocationView;

    open spec fn view(&self) -> AllocationView {
        AllocationView {
            pending: self.pending@,
            next: self.next as int,
            remaining: self.remaining as int,
            skipped: self.skipped as int,
        }
    }
}

impl AllocationView {
    /// How much of the next allocation is to be read: all of it, as far as the budget goes.
    pub open spec fn size(self) -> int {
        let (base, extent) = self.pending[self.next];
        let whole = if extent.end > base {
            extent.end - base
        } else {
            0
        };
        if whole <= self.remaining {
            whole
        } else {
            self.remaining
        }
    }

    /// The scan behind the next allocation, given whether it was read.
    pub open spec fn after(self, read: bool) -> AllocationView {
        let committed = self.pending[self.next].1.committed;
        if read && self.size() > 0 {
            AllocationView {
                next: self.next + 1,
                remaining: self.remaining - self.size(),
                skipped: clipped_address(
                    self.skipped + if committed > self.size() {
                        committed - self.size()
                    } else {
                        0
                    },
                ),
                ..self
            }
        } else {
            AllocationView {
                next: self.next + 1,
                skipped: clipped_address(self.skipped + committed),
                ..self
            }
        }
    }
}

/// Adds a region to its allocation.
fn note_region(extents: &mut BTreeMap<u64, AllocationExtent>, region: &MemoryRegion)
    ensures
        final(extents)@ == extents_with(old(extents)@, *region),
{
    let mut extent = match extents.get(&region.allocation_base) {
        Some(extent) => *extent,
        None => AllocationExtent { end: 0, committed: 0, protections: 0, executable: false },
    };
    let end: u64 = region.base.saturating_add(region.size);
    if extent.end < end {
        extent.end = end;
    }
    extent.committed = extent.committed.saturating_add(region.size);
    extent.protections = extent.protections | region.protect;
    extent.executable = extent.executable || is_executable(region.protect);
    extents.insert(region.allocation_base, extent);
}

impl AllocationScan {
    /// Starts with the committed regions of allocations.
    pub fn new(regions: &[MemoryRegion], allocations: &BTreeSet<u64>, budget: u64) -> (scan:
        AllocationScan)
        ensures
            scan@ == (AllocationView {
                pending: pending_allocations(regions@, allocations@),
                next: 0,
                remaining: budget as int,
                skipped: 0,
            }),
    {
        let mut extents: BTreeMap<u64, AllocationExtent> = BTreeMap::new();
        let mut index: usize = 0;
        while index < regions.len()
            invariant
                index <= regions@.len(),
                extents@ == extents_among(regions@, allocations@, index as int),
            decreases regions@.len() - index,
        {
            let region = regions[index];
            if region.state == MEM_COMMIT && allocations.contains(&region.allocation_base) {
                note_region(&mut extents, &region);
            }
            index = index + 1;
        }
        let list = ascending_keys(&extents);
        proof {
            law_in_order_lists_the_set(extents@.dom());
        }
        let mut pending: Vec<(u64, AllocationExtent)> = Vec::new();
        let mut next: usize = 0;
        while next < list.len() && next < MAX_IMAGES
            invariant
                next <= list@.len(),
                next <= MAX_IMAGES,
                list@ == in_order(extents@.dom()),
                forall|base: u64|
                    extents@.dom().contains(base) <==> #[trigger] list@.contains(base),
                pending@ == list@.take(next as int).map_values(
                    |base: u64| (base, extents@[base]),
                ),
            decreases list@.len() - next,
        {
            let base: u64 = list[next];
            assert(list@.contains(base));
            if let Some(extent) = extents.get(&base) {
                pending.push((base, *extent));
            }
            next = next + 1;
            assert(pending@ =~= list@.take(next as int).map_values(
                |base: u64| (base, extents@[base]),
            ));
        }
        assert(list@.take(next as int) =~= first_bases(extents@));
        assert(pending@ =~= pending_allocations(regions@, allocations@));
        AllocationScan { pending, next: 0, remaining: budget, skipped: 0 }
    }

    /// The next allocation and how much of it is to be read, if there is one.
    pub fn request(&self) -> (request: Option<AllocationRead>)
        ensures
            request == (if self@.next < self@.pending.len() {
                Some(
                    AllocationRead {
                        base: self@.pending[self@.next].0,
                        size: self@.size() as u64,
                        extent: self@.pending[self@.next].1,
                    },
                )
            } else {
                None
            }),
            request is Some ==> request->Some_0.size == self@.size(),
    {
        if self.next >= self.pending.len() {
            return None;
        }
        let (base, extent): (u64, AllocationExtent) = self.pending[self.next];
        let whole: u64 = extent.end.saturating_sub(base);
        let size: u64 = if whole <= self.remaining {
            whole
        } else {
            self.remaining
        };
        Some(AllocationRead { base, size, extent })
    }

    /// Goes on to the next allocation; `read` says whether there was memory to read the
    /// last one into. One of which nothing was to be read counts as not read.
    pub fn record(&mut self, read: bool)
        requires
            old(self)@.next < old(self)@.pending.len(),
        ensures
            final(self)@ == old(self)@.after(read),
    {
        let count: usize = self.pending.len();
        let (base, extent): (u64, AllocationExtent) = self.pending[self.next];
        let whole: u64 = extent.end.saturating_sub(base);
        let size: u64 = if whole <= self.remaining {
            whole
        } else {
            self.remaining
        };
        if read && size > 0 {
            self.remaining = self.remaining - size;
            self.skipped = self.skipped.saturating_add(extent.committed.saturating_sub(size));
        } else {
            self.skipped = self.skipped.saturating_add(extent.committed);
        }
        self.next = self.next + 1;
    }
}

/// The scan after several allocations, given for each whether it was read.
pub open spec fn after_all(scan: AllocationView, outcomes: Seq<bool>) -> AllocationView
    decreases outcomes.len(),
{
    if outcomes.len() == 0 {
        scan
    } else {
        after_all(scan, outcomes.drop_last()).after(outcomes.last())
    }
}

/// How many bytes were read of several allocations.
pub open spec fn read_total(scan: AllocationView, outcomes: Seq<bool>) -> int
    decreases outcomes.len(),
{
    if outcomes.len() == 0 {
        0
    } else {
        read_total(scan, outcomes.drop_last()) + if outcomes.last() {
            after_all(scan, outcomes.drop_last()).size()
        } else {
            0
        }
    }
}

/// What is read of allocations and what is left of the budget make up the budget, so no
/// more than that is ever read.
pub proof fn law_reads_keep_to_the_budget(scan: AllocationView, outcomes: Seq<bool>)
    requires
        scan.remaining >= 0,
    ensures
        0 <= read_total(scan, outcomes) <= scan.remaining,
        after_all(scan, outcomes).remaining == scan.remaining - read_total(scan, outcomes),
    decreases outcomes.len(),
{
    if outcomes.len() > 0 {
        law_reads_keep_to_the_budget(scan, outcomes.drop_last());
    }
}

/// A part of a buffer: where it starts and how long it is.
pub open spec fn part_of(length: int, chunk: int, index: int) -> (usize, usize) {
    let start = index * chunk;
    (
        start as usize,
        if length - start < chunk {
            (length - start) as usize
        } else {
            chunk as usize
        },
    )
}

/// The parts that a buffer of `length` bytes is read in: each `chunk` bytes long, but for
/// the last.
pub open spec fn parts_of(length: int, chunk: int) -> Seq<(usize, usize)> {
    Seq::new(((length + chunk - 1) / chunk) as nat, |index: int| part_of(length, chunk, index))
}

/// Divides a buffer into parts.
pub fn chunk_ranges(length: usize, chunk: usize) -> (parts: Vec<(usize, usize)>)
    requires
        chunk > 0,
    ensures
        parts@ == parts_of(length as int, chunk as int),
{
    let mut parts: Vec<(usize, usize)> = Vec::new();
    let mut start: usize = 0;
    assert(0 * chunk == 0) by (nonlinear_arith);
    while start < length
        invariant
            chunk > 0,
            start <= length,
            start < length ==> start == parts@.len() * chunk,
            start == length ==> length <= parts@.len() * chunk < length + chunk,
            parts@ == Seq::new(
                parts@.len(),
                |index: int| part_of(length as int, chunk as int, index),
            ),
        decreases length - start,
    {
        let rest: usize = length - start;
        let size: usize = if rest < chunk {
            rest
        } else {
            chunk
        };
        let ghost before = parts@.len();
        parts.push((start, size));
        assert((before + 1) * chunk == before * chunk + chunk) by (nonlinear_arith);
        assert(parts@ =~= Seq::new(
            parts@.len(),
            |index: int| part_of(length as int, chunk as int, index),
        ));
        start = start + size;
    }
    proof {
        let count = parts@.len() as int;
        assert((length + chunk - 1) / (chunk as int) == count) by {
            let rest = length + chunk - 1 - count * chunk;
            vstd::arithmetic::div_mod::lemma_fundamental_div_mod_converse(
                length + chunk - 1,
                chunk as int,
                count,
                rest,
            );
        }
        assert(parts@ =~= parts_of(length as int, chunk as int));
    }
    parts
}

/// The parts of a buffer follow each other without a gap from its start to its end, and none
/// is empty or longer than allowed.
pub proof fn law_parts_cover_the_buffer(length: usize, chunk: usize)
    requires
        chunk > 0,
    ensures
        ({
            let parts = parts_of(length as int, chunk as int);
            &&& parts.len() == 0 <==> length == 0
            &&& forall|i: int|
                0 <= i < parts.len() ==> 0 < (#[trigger] parts[i]).1 <= chunk && parts[i].0 == i
                    * chunk && parts[i].0 + parts[i].1 == if i + 1 < parts.len() {
                    (i + 1) * chunk
                } else {
                    length as int
                }
        }),
{
    let parts = parts_of(length as int, chunk as int);
    let count = (length + chunk - 1) / (chunk as int);
    vstd::arithmetic::div_mod::lemma_fundamental_div_mod(length + chunk - 1, chunk as int);
    vstd::arithmetic::div_mod::lemma_mod_bound(length + chunk - 1, chunk as int);
    vstd::arithmetic::mul::lemma_mul_is_commutative(chunk as int, count);
    assert(length <= count * chunk < length + chunk);
    assert(count >= 0) by (nonlinear_arith)
        requires
            0 <= length <= count * chunk,
            chunk > 0,
    ;
    if length > 0 {
        assert(count > 0) by (nonlinear_arith)
            requires
                0 < length <= count * chunk,
                chunk > 0,
        ;
    } else {
        assert(count == 0) by (nonlinear_arith)
            requires
                0 <= count,
                count * chunk < chunk,
                chunk > 0,
        ;
    }
    assert forall|i: int| 0 <= i < parts.len() implies 0 < (#[trigger] parts[i]).1 <= chunk
        && parts[i].0 == i * chunk && parts[i].0 + parts[i].1 == if i + 1 < parts.len() {
        (i + 1) * chunk
    } else {
        length as int
    } by {
        assert((i + 1) * chunk == i * chunk + chunk) by (nonlinear_arith);
        assert(0 <= i * chunk) by (nonlinear_arith)
            requires
                0 <= i,
                0 < chunk,
        ;
        assert((i + 1) * chunk <= count * chunk) by (nonlinear_arith)
            requires
                i + 1 <= count,
                0 < chunk,
        ;
        if i + 1 < count {
            assert((i + 2) * chunk == i * chunk + 2 * chunk) by (nonlinear_arith);
            assert((i + 2) * chunk <= count * chunk) by (nonlinear_arith)
                requires
                    i + 2 <= count,
                    0 < chunk,
            ;
        } else {
            assert(i + 1 == count);
        }
    }
}

} // verus!
