//! Whether memory has settled: which pages are sampled, and when samples agree.

use vstd::prelude::*;

use crate::memory::{
    allows_execute, allows_read, allows_write, clipped_address, is_executable, is_readable,
    is_writable, page_count, pages_of, MemoryRegion, MEM_COMMIT, MEM_IMAGE, PAGE_SIZE,
};

verus! {

pub const MAX_STABILITY_READS: u64 = 256;

pub const STABLE_POLL_COUNT: usize = 30;

pub const STABLE_MATCH_COUNT: usize = 3;

/// Whether the region shows that a program is still unpacking itself: readable memory that
/// can be executed, or image data that can be written.
pub open spec fn telling(region: MemoryRegion) -> bool {
    region.committed() && allows_read(region.protect) && ((region.of_image() && allows_write(
        region.protect,
    )) || allows_execute(region.protect))
}

pub fn is_stability_region(region: &MemoryRegion) -> (result: bool)
    ensures
        result == telling(*region),
{
    region.state == MEM_COMMIT && is_readable(region.protect) && ((region.kind == MEM_IMAGE
        && is_writable(region.protect)) || is_executable(region.protect))
}

/// How many pages of the region count.
pub open spec fn counted_pages(region: MemoryRegion) -> int {
    if telling(region) {
        page_count(region.size as int)
    } else {
        0
    }
}

/// How many pages of the first `count` regions count.
pub open spec fn pages_before(regions: Seq<MemoryRegion>, count: int) -> int
    decreases count,
{
    if count <= 0 {
        0
    } else {
        pages_before(regions, count - 1) + counted_pages(regions[count - 1])
    }
}

/// How many pages count in all, held at the largest number.
pub open spec fn total_pages(regions: Seq<MemoryRegion>) -> int {
    clipped_address(pages_before(regions, regions.len() as int))
}

/// How many pages are sampled.
pub open spec fn sample_total(regions: Seq<MemoryRegion>) -> int {
    if total_pages(regions) <= 256 {
        total_pages(regions)
    } else {
        256
    }
}

/// Which page a sample takes: the first sample takes the first page, the last the last, and
/// the others lie evenly between.
pub open spec fn page_of_sample(sample: int, total: int, count: int) -> int {
    if count <= 1 {
        0
    } else {
        sample * (total - 1) / (count - 1)
    }
}

/// The address and the length of the page with number `page`, counted from the region at
/// `index` on.
pub open spec fn place_of_page(regions: Seq<MemoryRegion>, index: int, page: int) -> (u64, u64)
    decreases regions.len() - index,
{
    if index >= regions.len() {
        (0, 0)
    } else if page >= counted_pages(regions[index]) {
        place_of_page(regions, index + 1, page - counted_pages(regions[index]))
    } else {
        let region = regions[index];
        let offset = page * 0x1000;
        (
            clipped_address(region.base + offset) as u64,
            if region.size - offset < 0x1000 {
                (region.size - offset) as u64
            } else {
                0x1000
            },
        )
    }
}

/// The pages that are sampled, each by its address and length.
pub open spec fn sampled_pages(regions: Seq<MemoryRegion>) -> Seq<(u64, u64)> {
    Seq::new(
        sample_total(regions) as nat,
        |sample: int|
            place_of_page(
                regions,
                0,
                page_of_sample(sample, total_pages(regions), sample_total(regions)),
            ),
    )
}

/// Which page a sample takes.
pub fn sample_page(sample: u64, total_pages: u64, sample_count: u64) -> (page: u64)
    ensures
        page == page_of_sample(
            sample as int,
            if total_pages == 0 {
                1
            } else {
                total_pages as int
            },
            sample_count as int,
        ) as u64,
        sample < sample_count <= total_pages ==> page == page_of_sample(
            sample as int,
            total_pages as int,
            sample_count as int,
        ) && page < total_pages,
{
    if sample_count <= 1 {
        return 0;
    }
    let last: u64 = total_pages.saturating_sub(1);
    proof {
        if sample < sample_count <= total_pages {
            law_samples_climb(
                sample as int,
                sample_count - 1,
                total_pages as int,
                sample_count as int,
            );
        }
        assert(sample * last <= 0xFFFF_FFFF_FFFF_FFFF * 0xFFFF_FFFF_FFFF_FFFF)
            by (nonlinear_arith)
            requires
                0 <= sample <= 0xFFFF_FFFF_FFFF_FFFF,
                0 <= last <= 0xFFFF_FFFF_FFFF_FFFF,
        ;
        assert(0 <= sample * last) by (nonlinear_arith)
            requires
                0 <= sample,
                0 <= last,
        ;
    }
    let numerator: u128 = (sample as u128) * (last as u128);
    let denominator: u128 = (sample_count - 1) as u128;
    (numerator / denominator) as u64
}

/// Samples are taken in ascending order: the first page first, the last page last, and a
/// later sample never before an earlier one.
pub proof fn law_samples_climb(earlier: int, later: int, total: int, count: int)
    requires
        0 <= earlier <= later < count,
        count <= total,
    ensures
        0 <= page_of_sample(earlier, total, count) <= page_of_sample(later, total, count) < total,
        page_of_sample(0, total, count) == 0,
        count > 1 ==> page_of_sample(count - 1, total, count) == total - 1,
{
    if count > 1 {
        let step = count - 1;
        assert(earlier * (total - 1) <= later * (total - 1)) by (nonlinear_arith)
            requires
                earlier <= later,
                0 <= total - 1,
        ;
        assert(later * (total - 1) <= step * (total - 1)) by (nonlinear_arith)
            requires
                later <= step,
                0 <= total - 1,
        ;
        assert(0 <= earlier * (total - 1)) by (nonlinear_arith)
            requires
                0 <= earlier,
                0 <= total - 1,
        ;
        vstd::arithmetic::div_mod::lemma_div_is_ordered(
            earlier * (total - 1),
            later * (total - 1),
            step,
        );
        vstd::arithmetic::div_mod::lemma_div_is_ordered(
            later * (total - 1),
            step * (total - 1),
            step,
        );
        vstd::arithmetic::div_mod::lemma_div_is_ordered(0, earlier * (total - 1), step);
        vstd::arithmetic::div_mod::lemma_div_multiples_vanish(total - 1, step);
        vstd::arithmetic::mul::lemma_mul_is_commutative(step, total - 1);
        assert(0 * (total - 1) == 0) by (nonlinear_arith);
        vstd::arithmetic::div_mod::lemma_div_basics(step);
    }
}

proof fn lemma_place(regions: Seq<MemoryRegion>, index: int, page: int)
    requires
        0 <= index <= regions.len(),
        pages_before(regions, index) <= page,
    ensures
        place_of_page(regions, 0, page) == place_of_page(
            regions,
            index,
            page - pages_before(regions, index),
        ),
    decreases index,
{
    if index > 0 {
        lemma_pages_nonnegative(regions, index - 1);
        lemma_place(regions, index - 1, page);
    }
}

proof fn lemma_pages_nonnegative(regions: Seq<MemoryRegion>, count: int)
    requires
        count <= regions.len(),
    ensures
        0 <= pages_before(regions, count),
        count < regions.len() ==> 0 <= counted_pages(regions[count]),
    decreases count,
{
    if count > 0 {
        lemma_pages_nonnegative(regions, count - 1);
    }
}

fn counted(region: &MemoryRegion) -> (pages: u64)
    ensures
        pages == counted_pages(*region),
{
    if is_stability_region(region) {
        pages_of(region.size)
    } else {
        0
    }
}

/// Finds the pages that are sampled.
pub fn stability_pages(regions: &[MemoryRegion]) -> (pages: Vec<(u64, u64)>)
    ensures
        pages@ == sampled_pages(regions@),
{
    let mut total: u64 = 0;
    let mut index: usize = 0;
    while index < regions.len()
        invariant
            index <= regions@.len(),
            total == clipped_address(pages_before(regions@, index as int)),
        decreases regions@.len() - index,
    {
        proof {
            lemma_pages_nonnegative(regions@, index as int);
        }
        total = total.saturating_add(counted(&regions[index]));
        index = index + 1;
    }
    let count: u64 = if total <= MAX_STABILITY_READS {
        total
    } else {
        MAX_STABILITY_READS
    };
    let ghost place = |sample: int|
        place_of_page(regions@, 0, page_of_sample(sample, total as int, count as int));
    let mut pages: Vec<(u64, u64)> = Vec::new();
    let mut first_page: u64 = 0;
    let mut sample: u64 = 0;
    let mut next: usize = 0;
    assert(pages@ =~= Seq::new(0, place));
    while next < regions.len()
        invariant
            next <= regions@.len(),
            total == total_pages(regions@),
            count == sample_total(regions@),
            sample <= count,
            place == (|sample: int|
                place_of_page(regions@, 0, page_of_sample(sample, total as int, count as int))),
            pages@ == Seq::new(sample as nat, place),
            first_page == clipped_address(pages_before(regions@, next as int)),
            sample < count ==> pages_before(regions@, next as int) <= page_of_sample(
                sample as int,
                total as int,
                count as int,
            ),
        decreases regions@.len() - next,
    {
        let region = regions[next];
        proof {
            lemma_pages_nonnegative(regions@, next as int);
        }
        let here: u64 = counted(&region);
        let past: u64 = first_page.saturating_add(here);
        let mut inside = true;
        while sample < count && inside
            invariant
                next < regions@.len(),
                region == regions@[next as int],
                total == total_pages(regions@),
                count == sample_total(regions@),
                sample <= count,
                here == counted_pages(region),
                first_page == clipped_address(pages_before(regions@, next as int)),
                past == clipped_address(pages_before(regions@, next + 1)),
                place == (|sample: int|
                    place_of_page(regions@, 0, page_of_sample(sample, total as int, count as int))),
                pages@ == Seq::new(sample as nat, place),
                sample < count ==> pages_before(regions@, next as int) <= page_of_sample(
                    sample as int,
                    total as int,
                    count as int,
                ),
                !inside && sample < count ==> pages_before(regions@, next + 1) <= page_of_sample(
                    sample as int,
                    total as int,
                    count as int,
                ),
            decreases
                    count - sample + if inside {
                        1int
                    } else {
                        0
                    },
        {
            let target: u64 = sample_page(sample, total, count);
            if target >= past {
                inside = false;
            } else {
                let page: u64 = target - first_page;
                proof {
                    lemma_place(regions@, next as int, target as int);
                    assert(page < here);
                    assert(here == page_count(region.size as int));
                    assert(page * 0x1000 < region.size);
                    if sample + 1 < count {
                        law_samples_climb(
                            sample as int,
                            sample + 1,
                            total as int,
                            count as int,
                        );
                    }
                }
                let offset: u64 = page * PAGE_SIZE;
                let address: u64 = region.base.saturating_add(offset);
                let rest: u64 = region.size - offset;
                let length: u64 = if rest < PAGE_SIZE {
                    rest
                } else {
                    PAGE_SIZE
                };
                let ghost before = pages@;
                pages.push((address, length));
                sample = sample + 1;
                assert(pages@ =~= Seq::new(sample as nat, place));
            }
        }
        first_page = past;
        next = next + 1;
    }
    proof {
        if sample < count {
            law_samples_climb(sample as int, sample as int, total as int, count as int);
        }
        assert(pages@ =~= sampled_pages(regions@));
    }
    pages
}

/// What was seen of memory while it was watched.
#[derive(Clone, Copy, Debug, PartialEq, Eq, Structural)]
pub struct StabilityWatch {
    pub previous: Option<u64>,
    pub matches: usize,
    pub polls: usize,
}

/// What a look at memory says.
#[derive(Clone, Copy, Debug, PartialEq, Eq, Structural)]
pub enum Stability {
    Settled,
    Unsettled,
    Waiting,
}

/// What is known after a look at memory.
pub open spec fn looked(watch: StabilityWatch, signature: u64) -> StabilityWatch {
    if watch.previous == Some(signature) {
        StabilityWatch {
            matches: crate::pe::rebuild::clipped(watch.matches + 1) as usize,
            polls: crate::pe::rebuild::clipped(watch.polls + 1) as usize,
            ..watch
        }
    } else {
        StabilityWatch {
            previous: Some(signature),
            matches: 0,
            polls: crate::pe::rebuild::clipped(watch.polls + 1) as usize,
        }
    }
}

impl StabilityWatch {
    pub fn new() -> (watch: StabilityWatch)
        ensures
            watch == (StabilityWatch { previous: None, matches: 0, polls: 0 }),
    {
        StabilityWatch { previous: None, matches: 0, polls: 0 }
    }

    /// Takes in what memory looks like. It has settled once it looked the same often enough
    /// in a row, and has not where that did not happen in so many looks.
    pub fn look(&mut self, signature: u64) -> (result: Stability)
        ensures
            *final(self) == looked(*old(self), signature),
            result == (if final(self).matches >= STABLE_MATCH_COUNT {
                Stability::Settled
            } else if final(self).polls >= STABLE_POLL_COUNT {
                Stability::Unsettled
            } else {
                Stability::Waiting
            }),
    {
        let same = match self.previous {
            Some(previous) => previous == signature,
            None => false,
        };
        if same {
            self.matches = self.matches.saturating_add(1);
        } else {
            self.matches = 0;
            self.previous = Some(signature);
        }
        self.polls = self.polls.saturating_add(1);
        if self.matches >= STABLE_MATCH_COUNT {
            Stability::Settled
        } else if self.polls >= STABLE_POLL_COUNT {
            Stability::Unsettled
        } else {
            Stability::Waiting
        }
    }
}

} // verus!
