//! The search for images in executable memory that belongs to none.

use std::collections::{BTreeMap, BTreeSet};
use vstd::prelude::*;

use crate::error::AppError;
use crate::memory::regions::{allocation_extents, extents_of};
use crate::memory::{
    allows_read, clipped_address, is_readable, MemoryRegion, MAX_IMAGES, MAX_IMAGE_SIZE,
    MEM_COMMIT, PAGE_SIZE,
};
use crate::pe::parse::{memory_image_size, memory_model};

verus! {

broadcast use {
    vstd::std_specs::btree::group_btree_axioms,
    vstd::laws_cmp::group_laws_cmp,
};

pub const MAX_NON_IMAGE_SCAN_PAGES: usize = 262_144;

pub const MAX_HEADER_READ: u64 = 0x1_0000;

/// A page that may start an image, and where its allocation ends.
#[derive(Clone, Copy, Debug, PartialEq, Eq, Structural)]
pub struct Probe {
    pub base: u64,
    pub allocation_end: u64,
}

/// A search for hidden images: page by page, until one is found in an allocation.
pub struct HiddenScan {
    pub regions: Vec<MemoryRegion>,
    pub executable: BTreeSet<u64>,
    pub ends: BTreeMap<u64, u64>,
    pub found: Vec<(u64, u64)>,
    pub captured: BTreeSet<u64>,
    pub scanned: usize,
    pub index: usize,
    pub offset: u64,
}

/// A search for hidden images, as contracts speak of it.
pub ghost struct HiddenView {
    pub regions: Seq<MemoryRegion>,
    pub executable: Set<u64>,
    pub ends: Map<u64, u64>,
    pub found: Seq<(u64, u64)>,
    pub captured: Set<u64>,
    pub scanned: int,
    pub index: int,
    pub offset: int,
}

impl View for HiddenScan {
    type V = HiddenView;

    open spec fn view(&self) -> HiddenView {
        HiddenView {
            regions: self.regions@,
            executable: self.executable@,
            ends: self.ends@,
            found: self.found@,
            captured: self.captured@,
            scanned: self.scanned as int,
            index: self.index as int,
            offset: self.offset as int,
        }
    }
}

impl HiddenView {
    /// Whether the region is searched: it is readable memory of an executable allocation in
    /// which no image was found yet.
    pub open spec fn searched(self, region: MemoryRegion) -> bool {
        &&& !self.captured.contains(region.allocation_base)
        &&& self.executable.contains(region.allocation_base)
        &&& region.committed()
        &&& allows_read(region.protect)
        &&& self.ends.dom().contains(region.allocation_base)
    }

    /// The search at the next page of a region that is searched; behind the last region
    /// where there is none.
    pub open spec fn settled(self) -> HiddenView
        decreases self.regions.len() - self.index,
    {
        if self.index >= self.regions.len() {
            self
        } else {
            let region = self.regions[self.index];
            if self.searched(region) && self.offset < region.size {
                self
            } else {
                HiddenView { index: self.index + 1, offset: 0, ..self }.settled()
            }
        }
    }

    /// The search after an answer on the page it stands at.
    pub open spec fn answered(self, available: Option<u64>) -> HiddenView {
        let region = self.regions[self.index];
        match available {
            None => HiddenView { offset: clipped_address(self.offset + 0x1000), ..self },
            Some(size) => HiddenView {
                found: self.found.push(((region.base + self.offset) as u64, size)),
                captured: self.captured.insert(region.allocation_base),
                index: self.index + 1,
                offset: 0,
                ..self
            },
        }
    }
}

impl HiddenScan {
    /// Starts a search of the executable allocations.
    pub fn new(regions: &[MemoryRegion], executable: &BTreeSet<u64>) -> (result: Result<
        HiddenScan,
        AppError,
    >)
        ensures
            match extents_of(regions@, executable@, regions@.len() as int) {
                Ok(ends) => result matches Ok(scan) && scan@ == (HiddenView {
                    regions: regions@,
                    executable: executable@,
                    ends,
                    found: Seq::empty(),
                    captured: Set::empty(),
                    scanned: 0,
                    index: 0,
                    offset: 0,
                }),
                Err(error) => result matches Err(found) && found == error,
            },
    {
        let ends = allocation_extents(regions, executable)?;
        Ok(
            HiddenScan {
                regions: vstd::slice::slice_to_vec(regions),
                executable: executable.clone(),
                ends,
                found: Vec::new(),
                captured: BTreeSet::new(),
                scanned: 0,
                index: 0,
                offset: 0,
            },
        )
    }

    /// Goes to the next page that may start an image, if there is one.
    pub fn next_probe(&mut self) -> (result: Result<Option<Probe>, AppError>)
        requires
            old(self).scanned <= MAX_NON_IMAGE_SCAN_PAGES,
        ensures
            ({
                let view = old(self)@.settled();
                let region = view.regions[view.index];
                if view.index >= view.regions.len() {
                    result matches Ok(None) && final(self)@ == view
                } else if view.scanned >= MAX_NON_IMAGE_SCAN_PAGES {
                    result matches Err(error) && error == AppError::ScanTooLarge && final(self)@ == view
                } else if region.base + view.offset > u64::MAX {
                    result matches Err(error) && error == AppError::ScanAddressOverflow
                        && final(self)@ == view
                } else {
                    &&& result matches Ok(Some(probe)) && probe == (Probe {
                        base: (region.base + view.offset) as u64,
                        allocation_end: view.ends[region.allocation_base],
                    })
                    &&& final(self)@ == (HiddenView { scanned: view.scanned + 1, ..view })
                    &&& view.index < view.regions.len() && view.searched(region) && view.offset
                        < region.size
                }
            }),
            result is Ok ==> final(self).scanned <= MAX_NON_IMAGE_SCAN_PAGES,
    {
        while self.index < self.regions.len()
            invariant
                self@.settled() == old(self)@.settled(),
                self@.scanned == old(self)@.scanned,
                self.scanned <= MAX_NON_IMAGE_SCAN_PAGES,
                self@.regions == old(self)@.regions,
            decreases self.regions@.len() - self.index,
        {
            let region = self.regions[self.index];
            if !self.captured.contains(&region.allocation_base) && self.executable.contains(
                &region.allocation_base,
            ) && region.state == MEM_COMMIT && is_readable(region.protect) && self.offset
                < region.size {
                if let Some(end) = self.ends.get(&region.allocation_base) {
                    let allocation_end: u64 = *end;
                    assert(self@.searched(region));
                    assert(self@.settled() == self@);
                    if self.scanned >= MAX_NON_IMAGE_SCAN_PAGES {
                        return Err(AppError::ScanTooLarge);
                    }
                    match region.base.checked_add(self.offset) {
                        Some(base) => {
                            self.scanned = self.scanned + 1;
                            return Ok(Some(Probe { base, allocation_end }));
                        },
                        None => {
                            return Err(AppError::ScanAddressOverflow);
                        },
                    }
                }
            }
            self.index = self.index + 1;
            self.offset = 0;
        }
        Ok(None)
    }

    /// Takes in how many bytes of an image start at the page, if one does.
    pub fn answer(&mut self, available: Option<u64>) -> (result: Result<(), AppError>)
        requires
            old(self).index < old(self).regions@.len(),
            old(self).regions@[old(self).index as int].base + old(self).offset <= u64::MAX,
        ensures
            final(self)@ == old(self)@.answered(available),
            result == (if final(self).found@.len() > MAX_IMAGES {
                Err::<(), AppError>(AppError::TooManyHiddenImages)
            } else {
                Ok(())
            }),
    {
        let count: usize = self.regions.len();
        match available {
            None => {
                self.offset = self.offset.saturating_add(PAGE_SIZE);
            },
            Some(size) => {
                let region = self.regions[self.index];
                self.found.push((region.base + self.offset, size));
                self.captured.insert(region.allocation_base);
                self.index = self.index + 1;
                self.offset = 0;
            },
        }
        if self.found.len() > MAX_IMAGES {
            return Err(AppError::TooManyHiddenImages);
        }
        Ok(())
    }
}

proof fn lemma_settled(view: HiddenView)
    ensures
        view.settled().captured == view.captured,
        view.settled().executable == view.executable,
        view.settled().regions == view.regions,
        view.settled().ends == view.ends,
        view.settled().found == view.found,
        view.settled().index < view.regions.len() ==> view.settled().searched(
            view.regions[view.settled().index],
        ) && view.settled().offset < view.regions[view.settled().index].size,
        view.settled().offset == view.offset || view.settled().offset == 0,
        view.index <= view.settled().index,
    decreases view.regions.len() - view.index,
{
    if view.index < view.regions.len() {
        let region = view.regions[view.index];
        if !(view.searched(region) && view.offset < region.size) {
            lemma_settled(HiddenView { index: view.index + 1, offset: 0, ..view });
        }
    }
}

/// Once an image was found in an allocation, no more of that allocation is searched: the
/// page that the search goes to next belongs to another.
pub proof fn law_one_hidden_image_per_allocation(view: HiddenView, allocation: u64)
    requires
        view.captured.contains(allocation),
    ensures
        ({
            let next = view.settled();
            next.index < next.regions.len() ==> next.regions[next.index].allocation_base
                != allocation
        }),
        forall|available: Option<u64>|
            (#[trigger] view.settled().answered(available)).captured.contains(allocation),
{
    lemma_settled(view);
}

/// Whether the search stands at the start of a page, counted from the start of the region,
/// or behind the last page that has an address.
pub open spec fn at_page(view: HiddenView) -> bool {
    view.offset % 0x1000 == 0 || view.offset == u64::MAX
}

/// The search goes from page to page, and the page that it goes to next lies in readable
/// memory of an executable allocation.
pub proof fn law_search_goes_page_by_page(view: HiddenView, available: Option<u64>)
    requires
        at_page(view),
    ensures
        at_page(view.settled()),
        at_page(view.settled().answered(available)),
        ({
            let next = view.settled();
            let region = next.regions[next.index];
            next.index < next.regions.len() ==> next.offset % 0x1000 == 0 && next.offset
                < region.size && next.executable.contains(region.allocation_base)
                && allows_read(region.protect)
        }),
{
    lemma_settled(view);
}

/// How many bytes of headers are read of an image that starts at `base`: none where the DOS
/// magic does not stand there or too much memory follows.
pub open spec fn header_size(probe: Probe, magic: Seq<u8>) -> Option<int> {
    let available = available_bytes(probe);
    if magic != seq![0x4du8, 0x5a] || available > MAX_IMAGE_SIZE {
        None
    } else if available <= MAX_HEADER_READ {
        Some(available)
    } else {
        Some(MAX_HEADER_READ as int)
    }
}

/// How many bytes of the allocation follow.
pub open spec fn available_bytes(probe: Probe) -> int {
    if probe.allocation_end > probe.base {
        probe.allocation_end - probe.base
    } else {
        0
    }
}

/// The size of an image whose headers were read: all that follows in its allocation, where
/// the headers declare no more than that.
pub open spec fn image_available(probe: Probe, header: Seq<u8>) -> Option<u64> {
    match memory_model(header) {
        Ok(model) => if model.headers.image_size <= available_bytes(probe) {
            Some(available_bytes(probe) as u64)
        } else {
            None
        },
        Err(_) => None,
    }
}

/// How many bytes of headers are read of an image, given its first two bytes.
pub fn hidden_header_length(probe: Probe, magic: &[u8]) -> (result: Option<usize>)
    ensures
        match header_size(probe, magic@) {
            Some(length) => result == Some(length as usize) && 0 <= length <= usize::MAX,
            None => result is None,
        },
{
    let marked = magic.len() == 2 && magic[0] == 0x4d && magic[1] == 0x5a;
    proof {
        if marked {
            assert(magic@ =~= seq![0x4du8, 0x5a]);
        } else if magic@ == seq![0x4du8, 0x5a] {
            assert(magic@[0] == 0x4d && magic@[1] == 0x5a);
        }
    }
    let available: u64 = probe.allocation_end.saturating_sub(probe.base);
    if !marked || available > MAX_IMAGE_SIZE {
        return None;
    }
    if available <= MAX_HEADER_READ {
        Some(available as usize)
    } else {
        Some(MAX_HEADER_READ as usize)
    }
}

/// The size of an image whose headers were read.
pub fn hidden_image_at(probe: Probe, header: &[u8]) -> (result: Option<u64>)
    ensures
        result == image_available(probe, header@),
{
    let available: u64 = probe.allocation_end.saturating_sub(probe.base);
    match memory_image_size(header) {
        Ok(size) => if size as u64 <= available {
            Some(available)
        } else {
            None
        },
        Err(_) => None,
    }
}

/// An image whose headers parse is found exactly where the size that they declare fits what
/// follows in the allocation; and all that follows is taken.
pub proof fn law_images_that_fit_are_found(probe: Probe, header: Seq<u8>)
    ensures
        memory_model(header) matches Ok(model) ==> (probe.base + model.headers.image_size
            <= probe.allocation_end ==> image_available(probe, header) == Some(
            (probe.allocation_end - probe.base) as u64,
        )),
        image_available(probe, header) matches Some(size) ==> {
            &&& memory_model(header) matches Ok(model) && model.headers.image_size <= size
            &&& size == probe.allocation_end - probe.base
        },
{
    if let Ok(model) = memory_model(header) {
        lemma_image_size_is_positive(header);
    }
}

proof fn lemma_image_size_is_positive(header: Seq<u8>)
    ensures
        memory_model(header) matches Ok(model) ==> model.headers.image_size > 0,
{
    if let Err(error) = crate::pe::parse::dos_model(header) {
        lemma_salvaged_size_is_positive(header, 0, error);
    }
}

proof fn lemma_salvaged_size_is_positive(
    header: Seq<u8>,
    offset: int,
    otherwise: crate::error::ParseError,
)
    ensures
        crate::pe::parse::salvage_from(header, offset, otherwise) matches Ok(model)
            ==> model.headers.image_size > 0,
    decreases 0x1_0004 - offset,
{
    if offset < 0x1_0000 && offset < header.len() {
        lemma_salvaged_size_is_positive(header, offset + 4, otherwise);
    }
}

/// Headers are read of every place with the DOS magic that not too much memory follows: all
/// that follows, but no more than the limit.
pub proof fn law_headers_are_read_behind_the_magic(probe: Probe, magic: Seq<u8>)
    requires
        probe.base <= probe.allocation_end,
    ensures
        ({
            let follows = probe.allocation_end - probe.base;
            let marked = magic.len() == 2 && magic[0] == 0x4d && magic[1] == 0x5a;
            match header_size(probe, magic) {
                Some(length) => marked && follows <= 0x4000_0000 && length <= follows && length
                    <= 0x1_0000 && (length == follows || length == 0x1_0000),
                None => !marked || follows > 0x4000_0000,
            }
        }),
{
    if magic.len() == 2 && magic[0] == 0x4d && magic[1] == 0x5a {
        assert(magic =~= seq![0x4du8, 0x5a]);
    }
}

/// Whether the region may hold an image that was not found yet: it is committed and readable,
/// and belongs to an executable allocation that ends somewhere and in which none was found.
pub open spec fn may_hold_an_image(view: HiddenView, region: MemoryRegion) -> bool {
    &&& region.state == 0x1000 && allows_read(region.protect)
    &&& view.executable.contains(region.allocation_base)
    &&& view.ends.dom().contains(region.allocation_base)
    &&& !view.captured.contains(region.allocation_base)
}

/// The search passes over no region that may hold an image: the regions between the one it
/// stands at and the one it goes to are no such regions or are empty, but for the one it
/// stands at where its last page is behind. And it goes to such a region only.
pub proof fn law_search_passes_over_no_region(view: HiddenView, index: int)
    requires
        0 <= view.index <= index <= view.settled().index,
        index < view.regions.len(),
    ensures
        index < view.settled().index ==> !may_hold_an_image(view, view.regions[index]) || (index
            == view.index && view.offset >= view.regions[index].size) || view.regions[index].size
            == 0,
        index == view.settled().index ==> may_hold_an_image(view, view.regions[index])
            && view.settled().offset < view.regions[index].size && view.settled().offset == if index
            == view.index {
            view.offset
        } else {
            0
        },
    decreases index - view.index,
{
    let region = view.regions[view.index];
    if !(view.searched(region) && view.offset < region.size) {
        lemma_settled(HiddenView { index: view.index + 1, offset: 0, ..view });
        if index > view.index {
            let next = HiddenView { index: view.index + 1, offset: 0, ..view };
            law_search_passes_over_no_region(next, index);
            assert(may_hold_an_image(next, view.regions[index]) == may_hold_an_image(
                view,
                view.regions[index],
            ));
        }
    }
}

/// Where no image starts at a page, the search goes on with the page behind it, in the same
/// region; where one does, it is noted with its address and its size, and the search goes on
/// with the next region. Nothing else changes.
pub proof fn law_search_takes_one_step(view: HiddenView, available: Option<u64>)
    requires
        0 <= view.index < view.regions.len(),
        view.offset + 0x1000 <= u64::MAX,
    ensures
        ({
            let next = view.answered(available);
            let region = view.regions[view.index];
            &&& next.regions == view.regions && next.executable == view.executable && next.ends
                == view.ends && next.scanned == view.scanned
            &&& available is None ==> next.index == view.index && next.offset == view.offset
                + 0x1000 && next.found == view.found && next.captured == view.captured
            &&& available matches Some(size) ==> next.index == view.index + 1 && next.offset == 0
                && next.found.len() == view.found.len() + 1 && next.found.last() == (
                (region.base + view.offset) as u64,
                size,
            ) && next.found.drop_last() == view.found && next.captured.contains(
                region.allocation_base,
            )
        }),
{
    if let Some(size) = available {
        assert(view.answered(available).found.drop_last() =~= view.found);
    }
}

} // verus!
