//! Which pages of an image are in memory, and which of them are its own.

use std::collections::BTreeMap;
use vstd::prelude::*;

use crate::memory::regions::with_end;
use crate::memory::{
    clipped_address, CapturedImage, MemoryRegion, MAX_IMAGES, MEM_COMMIT, MEM_IMAGE, PAGE_SIZE,
};
use crate::order::{ascending_keys, in_order, law_in_order_lists_the_set};
use crate::pe::rebuild::clipped;
use crate::pe::rebuild::observe::{PAGE_PRIVATE, PAGE_RESIDENT};

verus! {

broadcast use {
    vstd::std_specs::btree::group_btree_axioms,
    vstd::laws_cmp::group_laws_cmp,
};

pub const WORKING_SET_CHUNK: usize = 512;

pub const WORKING_SET_VALID: u64 = 0x0001;

pub const WORKING_SET_SHARED: u64 = 0x8000;

/// How many pages are in memory, how many of those are private, and the flags of each page.
pub struct PageCoverage {
    pub resident: usize,
    pub private: usize,
    pub flags: Vec<u8>,
}

/// The pages of an image, as contracts speak of them.
pub ghost struct CoverageView {
    pub resident: int,
    pub private: int,
    pub flags: Seq<u8>,
}

impl View for PageCoverage {
    type V = CoverageView;

    open spec fn view(&self) -> CoverageView {
        CoverageView {
            resident: self.resident as int,
            private: self.private as int,
            flags: self.flags@,
        }
    }
}

/// Whether the page is in memory.
pub open spec fn resident_page(attributes: u64) -> bool {
    attributes & WORKING_SET_VALID != 0
}

/// Whether the page is in memory and not shared, so that it was written to.
pub open spec fn private_page(attributes: u64) -> bool {
    resident_page(attributes) && attributes & WORKING_SET_SHARED == 0
}

/// The flags of a page that is in memory.
pub open spec fn page_bits(attributes: u64) -> u8 {
    if private_page(attributes) {
        PAGE_RESIDENT | PAGE_PRIVATE
    } else {
        PAGE_RESIDENT
    }
}

/// `coverage` with what the system says of the page at `page`.
pub open spec fn with_page(coverage: CoverageView, page: int, attributes: u64) -> CoverageView {
    if !resident_page(attributes) {
        coverage
    } else {
        CoverageView {
            resident: clipped(coverage.resident + 1),
            private: clipped(
                coverage.private + if private_page(attributes) {
                    1int
                } else {
                    0
                },
            ),
            flags: if page < coverage.flags.len() {
                coverage.flags.update(page, page_bits(attributes))
            } else {
                coverage.flags
            },
        }
    }
}

/// `coverage` with what the system says of the first `count` pages from `first` on.
pub open spec fn with_pages(
    coverage: CoverageView,
    first: int,
    attributes: Seq<u64>,
    count: int,
) -> CoverageView
    decreases count,
{
    if count <= 0 {
        coverage
    } else {
        with_page(
            with_pages(coverage, first, attributes, count - 1),
            first + count - 1,
            attributes[count - 1],
        )
    }
}

impl PageCoverage {
    /// Nothing known of any page.
    pub fn new(pages: usize) -> (coverage: PageCoverage)
        ensures
            coverage@ == (CoverageView {
                resident: 0,
                private: 0,
                flags: Seq::new(pages as nat, |i: int| 0u8),
            }),
    {
        let mut flags: Vec<u8> = Vec::new();
        flags.resize(pages, 0);
        assert(flags@ =~= Seq::new(pages as nat, |i: int| 0u8));
        PageCoverage { resident: 0, private: 0, flags }
    }

    /// Takes in what the system says of pages from `first` on.
    pub fn measure_pages(&mut self, first: usize, attributes: &[u64])
        ensures
            final(self)@ == with_pages(
                old(self)@,
                first as int,
                attributes@,
                attributes@.len() as int,
            ),
    {
        let mut slot: usize = 0;
        while slot < attributes.len()
            invariant
                slot <= attributes@.len(),
                self@ == with_pages(old(self)@, first as int, attributes@, slot as int),
            decreases attributes@.len() - slot,
        {
            let flags: u64 = attributes[slot];
            if flags & WORKING_SET_VALID != 0 {
                let private = flags & WORKING_SET_SHARED == 0;
                self.resident = self.resident.saturating_add(1);
                let mut bits: u8 = PAGE_RESIDENT;
                if private {
                    self.private = self.private.saturating_add(1);
                    bits = PAGE_RESIDENT | PAGE_PRIVATE;
                }
                let count: usize = self.flags.len();
                if first < count && slot < count - first {
                    self.flags.set(first + slot, bits);
                }
            }
            slot = slot + 1;
        }
    }
}

/// The address of a page, held at the largest.
pub open spec fn page_address(base: u64, page: int) -> u64 {
    clipped_address(base + clipped_address(page * 0x1000)) as u64
}

/// The addresses of the pages that the system is asked about at once, from `first` on.
pub open spec fn asked_addresses(base: u64, first: int, pages: int) -> Seq<u64> {
    let rest = pages - first;
    Seq::new(
        (if rest <= 0 {
            0
        } else if rest <= 512 {
            rest
        } else {
            512
        }) as nat,
        |slot: int| page_address(base, first + slot),
    )
}

/// Finds the addresses of the pages that the system is asked about at once.
pub fn working_set_addresses(base: u64, first: usize, pages: usize) -> (addresses: Vec<u64>)
    ensures
        addresses@ == asked_addresses(base, first as int, pages as int),
{
    let rest: usize = pages.saturating_sub(first);
    let count: usize = if rest <= WORKING_SET_CHUNK {
        rest
    } else {
        WORKING_SET_CHUNK
    };
    let mut addresses: Vec<u64> = Vec::new();
    let mut slot: usize = 0;
    while slot < count
        invariant
            slot <= count <= pages - first || count == 0,
            slot <= count,
            addresses@ == Seq::new(slot as nat, |slot: int| page_address(base, first + slot)),
        decreases count - slot,
    {
        let page: u64 = (first + slot) as u64;
        let offset: u64 = match page.checked_mul(PAGE_SIZE) {
            Some(offset) => offset,
            None => 0xFFFF_FFFF_FFFF_FFFF,
        };
        addresses.push(base.saturating_add(offset));
        slot = slot + 1;
        assert(addresses@ =~= Seq::new(slot as nat, |slot: int| page_address(base, first + slot)));
    }
    assert(addresses@ =~= asked_addresses(base, first as int, pages as int));
    addresses
}

/// Whether the region is memory of a mapped image.
pub open spec fn image_memory(region: MemoryRegion) -> bool {
    region.of_image() && region.committed() && region.allocation_base != 0
}

/// Where the mapped images among the first `count` regions end, by address.
pub open spec fn image_ends(regions: Seq<MemoryRegion>, count: int) -> Map<u64, u64>
    decreases count,
{
    if count <= 0 {
        Map::empty()
    } else {
        let before = image_ends(regions, count - 1);
        let region = regions[count - 1];
        if image_memory(region) {
            with_end(before, region.allocation_base, region.end() as u64)
        } else {
            before
        }
    }
}

/// The size of a range, which is empty where it ends before it starts.
pub open spec fn range_size(base: u64, end: u64) -> u64 {
    if end > base {
        (end - base) as u64
    } else {
        0
    }
}

/// The mapped images whose pages are measured, each by its address and size.
pub open spec fn measured_images(regions: Seq<MemoryRegion>) -> Seq<(u64, u64)> {
    let ends = image_ends(regions, regions.len() as int);
    let all = in_order(ends.dom());
    let bases = if all.len() <= 4_096 {
        all
    } else {
        all.take(4_096)
    };
    bases.map_values(|base: u64| (base, range_size(base, ends[base])))
}

/// Finds the mapped images whose pages are measured.
pub fn measure_image_pages(regions: &[MemoryRegion]) -> (images: Vec<(u64, u64)>)
    ensures
        images@ == measured_images(regions@),
{
    let mut ends: BTreeMap<u64, u64> = BTreeMap::new();
    let mut index: usize = 0;
    while index < regions.len()
        invariant
            index <= regions@.len(),
            ends@ == image_ends(regions@, index as int),
        decreases regions@.len() - index,
    {
        let region = regions[index];
        if region.kind == MEM_IMAGE && region.state == MEM_COMMIT && region.allocation_base != 0 {
            let end: u64 = region.base.saturating_add(region.size);
            let known = match ends.get(&region.allocation_base) {
                Some(current) => *current >= end,
                None => false,
            };
            if !known {
                ends.insert(region.allocation_base, end);
            }
        }
        index = index + 1;
    }
    let list = ascending_keys(&ends);
    proof {
        law_in_order_lists_the_set(ends@.dom());
    }
    let mut images: Vec<(u64, u64)> = Vec::new();
    let mut next: usize = 0;
    while next < list.len() && next < MAX_IMAGES
        invariant
            next <= list@.len(),
            next <= MAX_IMAGES,
            forall|base: u64| ends@.dom().contains(base) <==> #[trigger] list@.contains(base),
            images@ == list@.take(next as int).map_values(
                |base: u64| (base, range_size(base, ends@[base])),
            ),
        decreases list@.len() - next,
    {
        let base: u64 = list[next];
        assert(list@.contains(base));
        if let Some(end) = ends.get(&base) {
            images.push((base, (*end).saturating_sub(base)));
        }
        next = next + 1;
        assert(images@ =~= list@.take(next as int).map_values(
            |base: u64| (base, range_size(base, ends@[base])),
        ));
    }
    assert(images@ =~= measured_images(regions@));
    images
}

/// Takes what is known of its pages into an image.
pub fn attach_pages(image: &mut CapturedImage, coverage: PageCoverage)
    ensures
        final(image).resident_pages == coverage.resident,
        final(image).private_pages == coverage.private,
        final(image).page_flags == coverage.flags,
        *final(image) == (CapturedImage {
            resident_pages: coverage.resident,
            private_pages: coverage.private,
            page_flags: coverage.flags,
            ..*old(image)
        }),
{
    image.resident_pages = coverage.resident;
    image.private_pages = coverage.private;
    image.page_flags = coverage.flags;
}

proof fn lemma_with_pages(
    coverage: CoverageView,
    first: int,
    attributes: Seq<u64>,
    count: int,
)
    requires
        0 <= first,
        0 <= count <= attributes.len(),
    ensures
        with_pages(coverage, first, attributes, count).flags.len() == coverage.flags.len(),
        forall|page: int|
            0 <= page < coverage.flags.len() ==> #[trigger] with_pages(
                coverage,
                first,
                attributes,
                count,
            ).flags[page] == if first <= page < first + count && resident_page(
                attributes[page - first],
            ) {
                page_bits(attributes[page - first])
            } else {
                coverage.flags[page]
            },
    decreases count,
{
    if count > 0 {
        lemma_with_pages(coverage, first, attributes, count - 1);
    }
}

/// What the system says of a page ends up in the flags of that page, and in no others.
pub proof fn law_page_flags_follow_the_pages(
    coverage: CoverageView,
    first: int,
    attributes: Seq<u64>,
    page: int,
)
    requires
        0 <= first,
        0 <= page < coverage.flags.len(),
    ensures
        with_pages(coverage, first, attributes, attributes.len() as int).flags[page] == if first
            <= page < first + attributes.len() && resident_page(attributes[page - first]) {
            page_bits(attributes[page - first])
        } else {
            coverage.flags[page]
        },
{
    lemma_with_pages(coverage, first, attributes, attributes.len() as int);
}

/// The flags of a page say what the system said: the first bit that it is in memory, which is
/// the lowest bit of the answer, and the second that it is not shared.
pub proof fn law_page_bits_follow_the_answer(attributes: u64)
    ensures
        resident_page(attributes) <==> attributes & 0x1 != 0,
        resident_page(attributes) ==> page_bits(attributes) == if attributes & 0x8000 == 0 {
            3u8
        } else {
            1
        },
{
    assert(1u8 | 2u8 == 3u8) by (bit_vector);
}

proof fn lemma_page_counts(coverage: CoverageView, first: int, attributes: Seq<u64>, count: int)
    requires
        0 <= count <= attributes.len(),
        0 <= coverage.resident && coverage.resident + attributes.len() <= usize::MAX,
        0 <= coverage.private && coverage.private + attributes.len() <= usize::MAX,
    ensures
        ({
            let after = with_pages(coverage, first, attributes, count);
            &&& after.resident == coverage.resident + pages_with(attributes, count, false)
            &&& after.private == coverage.private + pages_with(attributes, count, true)
            &&& 0 <= pages_with(attributes, count, true) <= pages_with(attributes, count, false)
                <= count
        }),
    decreases count,
{
    if count > 0 {
        lemma_page_counts(coverage, first, attributes, count - 1);
    }
}

/// How many of the first `count` pages are in memory; of those that are not shared, where
/// `private` is set.
pub open spec fn pages_with(attributes: Seq<u64>, count: int, private: bool) -> int
    decreases count,
{
    if count <= 0 {
        0
    } else {
        pages_with(attributes, count - 1, private) + if attributes[count - 1] & 0x1 != 0 && (!private
            || attributes[count - 1] & 0x8000 == 0) {
            1int
        } else {
            0
        }
    }
}

/// The pages that are in memory are counted, and so are those of them that are not shared.
pub proof fn law_pages_are_counted(coverage: CoverageView, first: int, attributes: Seq<u64>)
    requires
        0 <= coverage.resident && coverage.resident + attributes.len() <= usize::MAX,
        0 <= coverage.private && coverage.private + attributes.len() <= usize::MAX,
    ensures
        ({
            let count = attributes.len() as int;
            let after = with_pages(coverage, first, attributes, count);
            &&& after.resident == coverage.resident + pages_with(attributes, count, false)
            &&& after.private == coverage.private + pages_with(attributes, count, true)
        }),
{
    lemma_page_counts(coverage, first, attributes, attributes.len() as int);
}

/// The system is asked about every page once: about those from `first` on, up to so many at
/// a time, each by the address where it starts.
pub proof fn law_pages_are_asked_about(base: u64, first: int, pages: int, slot: int)
    requires
        0 <= first <= pages,
        base + 0x1000 * pages <= u64::MAX,
        0 <= slot < asked_addresses(base, first, pages).len(),
    ensures
        asked_addresses(base, first, pages)[slot] == base + 0x1000 * (first + slot),
        asked_addresses(base, first, pages).len() == if pages - first <= 512 {
            pages - first
        } else {
            512
        },
{
}

} // verus!
