//! What a rebuilt file shows of the image it was captured from.

use vstd::prelude::*;

use crate::pe::image::{all_zero, get_u32, is_zero, read_u32};
use crate::pe::imports::descriptors::entry_offset;
use crate::pe::imports::thunks::{pointer_at, read_pointer};
use crate::pe::rebuild::exception::{
    complete_entries, function_at, runtime_function_is_valid, valid_functions,
    EXCEPTION_DIRECTORY, RUNTIME_FUNCTION_SIZE,
};
use crate::pe::rebuild::sections::{readable_section_name, replacement_for};
use crate::pe::rebuild::{clipped, lesser, lesser_of, SectionLayout, PAGE_SIZE};
use crate::pe::{
    directory_of, ModelView, PeHeaders, PeImage, PeModel, RegionEvidence, Rva,
};
use crate::text::{lossy_text, text_from_bytes};

verus! {

pub const MAX_PDATA_ENTRIES: usize = 65_536;

pub const TLS_DIRECTORY: usize = 9;

pub const MAX_TLS_CALLBACKS: usize = 1_024;

pub const PAGE_RESIDENT: u8 = 0b01;

pub const PAGE_PRIVATE: u8 = 0b10;

pub const MIN_ENTROPY_SECTION_BYTES: usize = 1024;

pub const MIN_ABSENT_SECTION_BYTES: usize = 1024;

/// Whether a region can be written and executed and overlaps the section.
pub open spec fn seen_write_execute(layout: SectionLayout, regions: Seq<RegionEvidence>) -> bool {
    exists|i: int|
        0 <= i < regions.len() && (#[trigger] regions[i]).writable && regions[i].executable
            && regions[i].offset < clipped(layout.model.start() + layout.source_length)
            && layout.model.start() < clipped(regions[i].offset + regions[i].size)
}

/// How many of the first `count` sections were seen with write and execute access at once.
pub open spec fn write_execute_total(
    layouts: Seq<SectionLayout>,
    regions: Seq<RegionEvidence>,
    count: int,
) -> int
    decreases count,
{
    if count <= 0 {
        0
    } else {
        write_execute_total(layouts, regions, count - 1) + if seen_write_execute(
            layouts[count - 1],
            regions,
        ) {
            1int
        } else {
            0
        }
    }
}

/// Counts the sections that were seen with write and execute access at once.
pub fn count_write_execute_sections(
    layouts: &[SectionLayout],
    regions: &[RegionEvidence],
) -> (count: usize)
    ensures
        count == write_execute_total(layouts@, regions@, layouts@.len() as int),
{
    let mut count: usize = 0;
    let mut index: usize = 0;
    while index < layouts.len()
        invariant
            index <= layouts@.len(),
            count <= index,
            count == write_execute_total(layouts@, regions@, index as int),
        decreases layouts@.len() - index,
    {
        let layout = layouts[index];
        let start: usize = layout.model.virtual_address.0 as usize;
        let end: usize = start.saturating_add(layout.source_length);
        let mut found = false;
        let mut next: usize = 0;
        while next < regions.len()
            invariant
                next <= regions@.len(),
                start == layout.model.start(),
                end == clipped(layout.model.start() + layout.source_length),
                found == exists|i: int|
                    0 <= i < next && (#[trigger] regions@[i]).writable && regions@[i].executable
                        && regions@[i].offset < clipped(
                        layout.model.start() + layout.source_length,
                    ) && layout.model.start() < clipped(regions@[i].offset + regions@[i].size),
            decreases regions@.len() - next,
        {
            let region = regions[next];
            if region.writable && region.executable && region.offset < end && start
                < region.offset.saturating_add(region.size) {
                found = true;
            }
            next = next + 1;
        }
        if found {
            count = count + 1;
        }
        index = index + 1;
    }
    count
}

/// Whether the section should hold code but only zeros were captured of it.
pub open spec fn absent(memory: Seq<u8>, layout: SectionLayout) -> bool {
    let start = layout.model.start();
    let end = start + layout.source_length;
    layout.model.executable() && layout.source_length >= 1024 && end <= memory.len() && all_zero(
        memory.subrange(start, end),
    )
}

/// How many of the first `count` sections are absent.
pub open spec fn absent_total(memory: Seq<u8>, layouts: Seq<SectionLayout>, count: int) -> int
    decreases count,
{
    if count <= 0 {
        0
    } else {
        absent_total(memory, layouts, count - 1) + if absent(memory, layouts[count - 1]) {
            1int
        } else {
            0
        }
    }
}

/// The captured bytes of a section, if they lie in memory.
fn captured_bytes<'a>(memory: &'a [u8], layout: &SectionLayout) -> (result: Option<&'a [u8]>)
    ensures
        match result {
            Some(bytes) => layout.model.start() + layout.source_length <= memory@.len() && bytes@
                == memory@.subrange(
                layout.model.start(),
                layout.model.start() + layout.source_length,
            ),
            None => layout.model.start() + layout.source_length > memory@.len(),
        },
{
    let start: usize = layout.model.virtual_address.0 as usize;
    if start > memory.len() || layout.source_length > memory.len() - start {
        return None;
    }
    Some(&memory[start..start + layout.source_length])
}

/// Whether the section should hold code but only zeros were captured of it.
pub fn section_absent(memory: &[u8], layout: &SectionLayout) -> (result: bool)
    ensures
        result == absent(memory@, *layout),
{
    if !layout.model.is_executable() || layout.source_length < MIN_ABSENT_SECTION_BYTES {
        return false;
    }
    match captured_bytes(memory, layout) {
        Some(bytes) => is_zero(bytes),
        None => false,
    }
}

/// Counts the sections that should hold code but of which only zeros were captured.
pub fn absent_sections(memory: &[u8], layouts: &[SectionLayout]) -> (count: usize)
    ensures
        count == absent_total(memory@, layouts@, layouts@.len() as int),
{
    let mut count: usize = 0;
    let mut index: usize = 0;
    while index < layouts.len()
        invariant
            index <= layouts@.len(),
            count <= index,
            count == absent_total(memory@, layouts@, index as int),
        decreases layouts@.len() - index,
    {
        if section_absent(memory, &layouts[index]) {
            count = count + 1;
        }
        index = index + 1;
    }
    count
}

/// The bytes without the zeros at their end.
pub open spec fn trimmed(bytes: Seq<u8>) -> Seq<u8>
    decreases bytes.len(),
{
    if bytes.len() > 0 && bytes.last() == 0 {
        trimmed(bytes.drop_last())
    } else {
        bytes
    }
}

/// The bytes without the zeros at their end.
pub fn trim_trailing_zeroes(bytes: &[u8]) -> (result: &[u8])
    ensures
        result@ == trimmed(bytes@),
{
    let mut end: usize = bytes.len();
    assert(bytes@.take(end as int) =~= bytes@);
    while end > 0 && bytes[end - 1] == 0
        invariant
            end <= bytes@.len(),
            trimmed(bytes@.take(end as int)) == trimmed(bytes@),
        decreases end,
    {
        assert(bytes@.take(end as int).drop_last() =~= bytes@.take(end - 1));
        end = end - 1;
    }
    let result = &bytes[0..end];
    assert(result@ =~= bytes@.take(end as int));
    result
}

/// How often a byte occurs.
pub open spec fn occurrences(bytes: Seq<u8>, byte: u8) -> int
    decreases bytes.len(),
{
    if bytes.len() == 0 {
        0
    } else {
        occurrences(bytes.drop_last(), byte) + if bytes.last() == byte {
            1int
        } else {
            0
        }
    }
}

proof fn lemma_occurrences(bytes: Seq<u8>, byte: u8)
    ensures
        0 <= occurrences(bytes, byte) <= bytes.len(),
    decreases bytes.len(),
{
    if bytes.len() > 0 {
        lemma_occurrences(bytes.drop_last(), byte);
    }
}

/// How often each byte occurs, held at the largest 32-bit number.
pub open spec fn histogram(bytes: Seq<u8>) -> Seq<u32> {
    Seq::new(256, |byte: int| lesser(occurrences(bytes, byte as u8), u32::MAX as int) as u32)
}

/// Counts how often each byte occurs.
pub fn byte_counts(bytes: &[u8]) -> (counts: Vec<u32>)
    ensures
        counts@ == histogram(bytes@),
{
    let mut counts: Vec<u32> = Vec::new();
    while counts.len() < 256
        invariant
            counts@.len() <= 256,
            forall|i: int| 0 <= i < counts@.len() ==> #[trigger] counts@[i] == 0,
        decreases 256 - counts@.len(),
    {
        counts.push(0);
    }
    let mut index: usize = 0;
    assert(bytes@.take(0) =~= Seq::empty());
    assert(counts@ =~= histogram(bytes@.take(0)));
    while index < bytes.len()
        invariant
            index <= bytes@.len(),
            counts@ == histogram(bytes@.take(index as int)),
        decreases bytes@.len() - index,
    {
        let byte: u8 = bytes[index];
        assert(bytes@.take(index + 1).drop_last() =~= bytes@.take(index as int));
        assert(bytes@.take(index + 1).last() == byte);
        proof {
            lemma_occurrences(bytes@.take(index as int), byte);
        }
        let count: u32 = counts[byte as usize];
        counts.set(byte as usize, count.saturating_add(1));
        index = index + 1;
        assert(counts@ =~= histogram(bytes@.take(index as int)));
    }
    assert(bytes@.take(index as int) =~= bytes@);
    counts
}

/// How often each byte occurs in what was captured of a section, and how many bytes that
/// are.
pub struct EntropySample {
    pub counts: Vec<u32>,
    pub total: usize,
}

/// A sample, as contracts speak of it.
pub ghost struct SampleView {
    pub counts: Seq<u32>,
    pub total: int,
}

impl View for EntropySample {
    type V = SampleView;

    open spec fn view(&self) -> SampleView {
        SampleView { counts: self.counts@, total: self.total as int }
    }
}

/// Whether the pages were in memory but none was ever written to.
pub open spec fn untouched(pages: Seq<u8>) -> bool {
    &&& exists|i: int| 0 <= i < pages.len() && #[trigger] pages[i] & PAGE_RESIDENT != 0
    &&& forall|i: int| 0 <= i < pages.len() ==> #[trigger] pages[i] & PAGE_PRIVATE == 0
}

/// How many pages a length takes.
pub open spec fn page_total(length: int) -> int {
    (length + 0xfff) / 0x1000
}

/// The captured bytes that show by their entropy whether the section was ever decrypted:
/// those of a section that is long enough and whose pages were never written to.
pub open spec fn telling_bytes(
    memory: Seq<u8>,
    layout: SectionLayout,
    page_flags: Seq<u8>,
) -> Option<Seq<u8>> {
    let start = layout.model.start();
    let end = start + layout.source_length;
    let first = start / 0x1000;
    let count = page_total(layout.source_length as int);
    if end > memory.len() || trimmed(memory.subrange(start, end)).len() < 1024 || first + count
        > page_flags.len() || !untouched(page_flags.subrange(first, first + count)) {
        None
    } else {
        Some(trimmed(memory.subrange(start, end)))
    }
}

/// The samples of those of the first `count` sections that can be told by their entropy.
pub open spec fn samples_of(
    memory: Seq<u8>,
    layouts: Seq<SectionLayout>,
    page_flags: Seq<u8>,
    count: int,
) -> Seq<SampleView>
    decreases count,
{
    if count <= 0 {
        Seq::empty()
    } else {
        let before = samples_of(memory, layouts, page_flags, count - 1);
        match telling_bytes(memory, layouts[count - 1], page_flags) {
            Some(bytes) => before.push(
                SampleView { counts: histogram(bytes), total: bytes.len() as int },
            ),
            None => before,
        }
    }
}

/// The samples, as contracts speak of them.
pub open spec fn samples_view(samples: Seq<EntropySample>) -> Seq<SampleView> {
    samples.map_values(|sample: EntropySample| sample@)
}

fn pages_are_untouched(pages: &[u8]) -> (result: bool)
    ensures
        result == untouched(pages@),
{
    let mut resident = false;
    let mut index: usize = 0;
    while index < pages.len()
        invariant
            index <= pages@.len(),
            resident == exists|i: int|
                0 <= i < index && #[trigger] pages@[i] & PAGE_RESIDENT != 0,
            forall|i: int| 0 <= i < index ==> #[trigger] pages@[i] & PAGE_PRIVATE == 0,
        decreases pages@.len() - index,
    {
        let flags: u8 = pages[index];
        if flags & PAGE_PRIVATE != 0 {
            assert(pages@[index as int] & PAGE_PRIVATE != 0);
            return false;
        }
        if flags & PAGE_RESIDENT != 0 {
            assert(pages@[index as int] & PAGE_RESIDENT != 0);
            resident = true;
        }
        index = index + 1;
    }
    resident
}

/// Takes the sample of a section, if it can be told by its entropy.
pub fn section_sample(memory: &[u8], layout: &SectionLayout, page_flags: &[u8]) -> (result: Option<
    EntropySample,
>)
    ensures
        match telling_bytes(memory@, *layout, page_flags@) {
            Some(bytes) => result matches Some(sample) && sample@ == (SampleView {
                counts: histogram(bytes),
                total: bytes.len() as int,
            }),
            None => result is None,
        },
{
    let captured = match captured_bytes(memory, layout) {
        Some(captured) => captured,
        None => {
            return None;
        },
    };
    let bytes = trim_trailing_zeroes(captured);
    if bytes.len() < MIN_ENTROPY_SECTION_BYTES {
        return None;
    }
    let first: usize = layout.model.virtual_address.0 as usize / PAGE_SIZE;
    let length: usize = layout.source_length;
    let whole: usize = length / PAGE_SIZE;
    let count: usize = if length % PAGE_SIZE == 0 {
        whole
    } else {
        whole + 1
    };
    assert(count == page_total(length as int));
    if first > page_flags.len() || count > page_flags.len() - first {
        return None;
    }
    if !pages_are_untouched(&page_flags[first..first + count]) {
        return None;
    }
    Some(EntropySample { counts: byte_counts(bytes), total: bytes.len() })
}

/// Takes the samples of the sections that can be told by their entropy.
pub fn entropy_samples(memory: &[u8], layouts: &[SectionLayout], page_flags: &[u8]) -> (samples:
    Vec<EntropySample>)
    ensures
        samples_view(samples@) == samples_of(
            memory@,
            layouts@,
            page_flags@,
            layouts@.len() as int,
        ),
{
    let mut samples: Vec<EntropySample> = Vec::new();
    let mut index: usize = 0;
    assert(samples_view(samples@) =~= Seq::empty());
    while index < layouts.len()
        invariant
            index <= layouts@.len(),
            samples_view(samples@) == samples_of(
                memory@,
                layouts@,
                page_flags@,
                index as int,
            ),
        decreases layouts@.len() - index,
    {
        if let Some(sample) = section_sample(memory, &layouts[index], page_flags) {
            let ghost before = samples_view(samples@);
            let ghost view = sample@;
            samples.push(sample);
            assert(samples_view(samples@) =~= before.push(view));
        }
        index = index + 1;
    }
    samples
}

/// How many of the first `count` verdicts hold.
pub open spec fn verdict_total(high_entropy: Seq<bool>, count: int) -> int
    decreases count,
{
    if count <= 0 {
        0
    } else {
        verdict_total(high_entropy, count - 1) + if high_entropy[count - 1] {
            1int
        } else {
            0
        }
    }
}

/// Counts the sections that were never decrypted, given for each sample whether its entropy
/// is high.
pub fn never_decrypted_sections(high_entropy: &[bool]) -> (count: usize)
    ensures
        count == verdict_total(high_entropy@, high_entropy@.len() as int),
{
    let mut count: usize = 0;
    let mut index: usize = 0;
    while index < high_entropy.len()
        invariant
            index <= high_entropy@.len(),
            count <= index,
            count == verdict_total(high_entropy@, index as int),
        decreases high_entropy@.len() - index,
    {
        if high_entropy[index] {
            count = count + 1;
        }
        index = index + 1;
    }
    count
}

/// The address in the exception directory, if it is not zero.
pub open spec fn exception_address(output: Seq<u8>, headers: PeHeaders) -> Option<u32> {
    match headers.directory_slot(3) {
        Ok(Some(slot)) => match get_u32(output, slot) {
            Ok(rva) => if rva == 0 {
                None
            } else {
                Some(rva)
            },
            Err(_) => None,
        },
        _ => None,
    }
}

/// The address in the exception directory, if it is not zero.
pub fn exception_rva(output: &[u8], model: &PeModel) -> (result: Option<u32>)
    ensures
        result == exception_address(output@, model@.headers),
{
    match model.headers.directory_offset(EXCEPTION_DIRECTORY) {
        Ok(Some(slot)) => match read_u32(output, slot) {
            Ok(rva) => if rva == 0 {
                None
            } else {
                Some(rva)
            },
            Err(_) => None,
        },
        _ => None,
    }
}

/// Whether the captured part of the section holds the address.
pub open spec fn holds(layout: SectionLayout, rva: Option<u32>) -> bool {
    match rva {
        None => false,
        Some(address) => layout.model.start() <= address < layout.model.start()
            + layout.source_length,
    }
}

/// Whether the captured part of the section holds the address.
pub fn holds_rva(layout: &SectionLayout, rva: Option<u32>) -> (result: bool)
    ensures
        result == holds(*layout, rva),
{
    match rva {
        None => false,
        Some(address) => {
            let start: usize = layout.model.virtual_address.0 as usize;
            let address: usize = address as usize;
            address >= start && address - start < layout.source_length
        },
    }
}

/// Whether more than half of the entries of a section that is to hold runtime functions are
/// not valid.
pub open spec fn bogus_table(
    output: Seq<u8>,
    model: ModelView,
    layouts: Seq<SectionLayout>,
    header_size: int,
    layout: SectionLayout,
) -> bool {
    let count = lesser(layout.source_length as int / 12, 65_536);
    let complete = complete_entries(output, layout.raw_offset as int, count);
    let valid = valid_functions(
        output,
        model,
        layouts,
        header_size,
        layout.raw_offset as int,
        complete,
    );
    layout.raw_size != 0 && count > 0 && complete - valid.len() > count / 2
}

/// Whether more than half of the entries of a section that is to hold runtime functions are
/// not valid.
pub fn unwind_table_is_bogus(
    output: &[u8],
    model: &PeModel,
    layouts: &[SectionLayout],
    header_size: usize,
    layout: &SectionLayout,
) -> (result: bool)
    ensures
        result == bogus_table(output@, model@, layouts@, header_size as int, *layout),
{
    if layout.raw_size == 0 {
        return false;
    }
    let count: usize = lesser_of(layout.source_length / RUNTIME_FUNCTION_SIZE, MAX_PDATA_ENTRIES);
    let table: usize = layout.raw_offset;
    let complete: usize = if table > output.len() {
        0
    } else {
        lesser_of(count, (output.len() - table) / RUNTIME_FUNCTION_SIZE)
    };
    let mut invalid: usize = 0;
    let mut index: usize = 0;
    while index < complete
        invariant
            index <= complete,
            complete > 0 ==> table + 12 * complete <= output@.len(),
            invalid <= index,
            invalid == index - valid_functions(
                output@,
                model@,
                layouts@,
                header_size as int,
                table as int,
                index as int,
            ).len(),
        decreases complete - index,
    {
        let total: usize = output.len();
        let offset: usize = table + RUNTIME_FUNCTION_SIZE * index;
        let entry = &output[offset..offset + RUNTIME_FUNCTION_SIZE];
        assert(function_at(entry@, 0) == function_at(output@, offset as int));
        if !runtime_function_is_valid(output, entry, model, layouts, header_size) {
            invalid = invalid + 1;
        }
        index = index + 1;
    }
    count > 0 && invalid > count / 2
}

/// Whether the name is `.pdata`.
pub open spec fn named_pdata(name: Seq<u8>) -> bool {
    name == seq![0x2eu8, 0x70, 0x64, 0x61, 0x74, 0x61, 0, 0]
}

fn is_named_pdata(name: &[u8; 8]) -> (result: bool)
    ensures
        result == named_pdata(name@),
{
    let result = name[0] == 0x2e && name[1] == 0x70 && name[2] == 0x64 && name[3] == 0x61 && name[4]
        == 0x74 && name[5] == 0x61 && name[6] == 0 && name[7] == 0;
    proof {
        let wanted = seq![0x2eu8, 0x70, 0x64, 0x61, 0x74, 0x61, 0, 0];
        if result {
            assert(name@ =~= wanted);
        } else if name@ == wanted {
            assert(wanted[0] == 0x2e && wanted[1] == 0x70 && wanted[2] == 0x64 && wanted[3] == 0x61
                && wanted[4] == 0x74 && wanted[5] == 0x61 && wanted[6] == 0 && wanted[7] == 0);
        }
    }
    result
}

/// Whether the section is named as one that holds runtime functions, is not the one that
/// the headers declare, and does not hold any to speak of.
pub open spec fn bogus_pdata(
    output: Seq<u8>,
    model: ModelView,
    layouts: Seq<SectionLayout>,
    header_size: int,
    layout: SectionLayout,
) -> bool {
    named_pdata(layout.model.name@) && !holds(
        layout,
        exception_address(output, model.headers),
    ) && bogus_table(output, model, layouts, header_size, layout)
}

/// How many of the first `count` sections are bogus.
pub open spec fn bogus_pdata_total(
    output: Seq<u8>,
    model: ModelView,
    layouts: Seq<SectionLayout>,
    header_size: int,
    count: int,
) -> int
    decreases count,
{
    if count <= 0 {
        0
    } else {
        bogus_pdata_total(output, model, layouts, header_size, count - 1) + if bogus_pdata(
            output,
            model,
            layouts,
            header_size,
            layouts[count - 1],
        ) {
            1int
        } else {
            0
        }
    }
}

/// Counts the sections that only look as if they held runtime functions.
pub fn invalid_pdata_sections(
    output: &[u8],
    model: &PeModel,
    layouts: &[SectionLayout],
    header_size: usize,
) -> (count: usize)
    ensures
        count == bogus_pdata_total(
            output@,
            model@,
            layouts@,
            header_size as int,
            layouts@.len() as int,
        ),
{
    let declared = exception_rva(output, model);
    let mut count: usize = 0;
    let mut index: usize = 0;
    while index < layouts.len()
        invariant
            index <= layouts@.len(),
            count <= index,
            declared == exception_address(output@, model@.headers),
            count == bogus_pdata_total(
                output@,
                model@,
                layouts@,
                header_size as int,
                index as int,
            ),
        decreases layouts@.len() - index,
    {
        let layout = &layouts[index];
        if is_named_pdata(&layout.model.name) && !holds_rva(layout, declared)
            && unwind_table_is_bogus(output, model, layouts, header_size, layout) {
            count = count + 1;
        }
        index = index + 1;
    }
    count
}

/// How many pointers from `index` on stand in the table at `table` before a null pointer,
/// up to the most that are counted.
pub open spec fn callbacks_from(memory: Seq<u8>, table: int, width: int, index: int) -> int
    decreases 1_024 - index,
{
    if index >= 1_024 {
        0
    } else {
        match pointer_at(memory, table + index * width, width) {
            None => 0,
            Some(value) => if value == 0 {
                0
            } else {
                1 + callbacks_from(memory, table, width, index + 1)
            },
        }
    }
}

/// How many callbacks the thread-local storage directory leads to.
pub open spec fn callback_total(memory: Seq<u8>, model: ModelView, base: u64) -> int {
    let width = model.headers.kind.width();
    match directory_of(memory, model.headers, 9) {
        Ok(Some(directory)) => match pointer_at(memory, directory.rva.0 + 3 * width, width) {
            None => 0,
            Some(table) => if table < base {
                0
            } else {
                callbacks_from(memory, table - base, width, 0)
            },
        },
        _ => 0,
    }
}

/// Counts the callbacks that the thread-local storage directory leads to.
pub fn count_tls_callbacks(image: &PeImage<'_>, observed_base: u64) -> (count: usize)
    ensures
        count == callback_total(image.bytes@, image.model@, observed_base),
{
    let memory = image.bytes;
    let total: usize = memory.len();
    let width: usize = image.model.headers.kind.pointer_width();
    let directory = match image.directory(TLS_DIRECTORY) {
        Ok(Some(directory)) => directory,
        _ => {
            return 0;
        },
    };
    let table: u64 = match read_pointer(
        memory,
        directory.rva.as_usize().saturating_add(3 * width),
        width,
    ) {
        Some(table) => table,
        None => {
            return 0;
        },
    };
    if table < observed_base {
        return 0;
    }
    let table_rva: u64 = table - observed_base;
    if table_rva >= total as u64 {
        assert(0 * width == 0);
        return 0;
    }
    let start: usize = table_rva as usize;
    let mut count: usize = 0;
    while count < MAX_TLS_CALLBACKS
        invariant
            count <= MAX_TLS_CALLBACKS,
            total == memory@.len(),
            count + callbacks_from(memory@, start as int, width as int, count as int)
                == callback_total(image.bytes@, image.model@, observed_base),
        decreases MAX_TLS_CALLBACKS - count,
    {
        match read_pointer(memory, entry_offset(start, count, width), width) {
            Some(value) => {
                if value == 0 {
                    return count;
                }
            },
            None => {
                return count;
            },
        }
        count = count + 1;
    }
    count
}

/// The first section from `index` on whose declared range holds the address.
pub open spec fn section_holding(layouts: Seq<SectionLayout>, rva: int, index: int) -> Option<int>
    decreases layouts.len() - index,
{
    if index >= layouts.len() {
        None
    } else if layouts[index].model.contains(rva) {
        Some(index)
    } else {
        section_holding(layouts, rva, index + 1)
    }
}

/// The bytes before the first NUL.
pub open spec fn label_of(name: Seq<u8>) -> Seq<u8>
    decreases name.len(),
{
    if name.len() == 0 || name[0] == 0 {
        Seq::empty()
    } else {
        seq![name[0]] + label_of(name.drop_first())
    }
}

/// The name that a section has in the rebuilt file, but for clashes with others.
pub open spec fn shown_name(layouts: Seq<SectionLayout>, index: int) -> [u8; 8] {
    match replacement_for(layouts[index].model.name, index + 1) {
        Some(name) => name,
        None => layouts[index].model.name,
    }
}

/// The letters of the name of the section that holds the entry point.
pub open spec fn entry_label(layouts: Seq<SectionLayout>, entry_point: u32) -> Option<Seq<u8>> {
    match section_holding(layouts, entry_point as int, 0) {
        None => None,
        Some(index) => Some(label_of(shown_name(layouts, index)@)),
    }
}

/// The text of a label, if it is not empty.
pub open spec fn label_text(label: Option<Seq<u8>>) -> Option<Seq<char>> {
    match label {
        None => None,
        Some(bytes) => if lossy_text(bytes).len() == 0 {
            None
        } else {
            Some(lossy_text(bytes))
        },
    }
}

proof fn lemma_label(name: Seq<u8>, end: int)
    requires
        0 <= end <= name.len(),
        end == name.len() || name[end] == 0,
        forall|i: int| 0 <= i < end ==> name[i] != 0,
    ensures
        label_of(name) == name.take(end),
    decreases name.len(),
{
    if name.len() > 0 && name[0] != 0 {
        lemma_label(name.drop_first(), end - 1);
        assert(name.take(end) =~= seq![name[0]] + name.drop_first().take(end - 1));
    } else {
        assert(name.take(end) =~= Seq::empty());
    }
}

/// Finds the letters of the name of the section that holds the entry point.
pub fn entry_section_label(layouts: &[SectionLayout], entry_point: u32) -> (result: Option<
    Vec<u8>,
>)
    ensures
        match entry_label(layouts@, entry_point) {
            Some(label) => result matches Some(found) && found@ == label,
            None => result is None,
        },
{
    let mut index: usize = 0;
    while index < layouts.len()
        invariant
            index <= layouts@.len(),
            section_holding(layouts@, entry_point as int, 0) == section_holding(
                layouts@,
                entry_point as int,
                index as int,
            ),
        decreases layouts@.len() - index,
    {
        let layout = &layouts[index];
        if layout.model.contains_rva(Rva(entry_point)) {
            let name: [u8; 8] = match readable_section_name(&layout.model.name, index + 1) {
                Some(name) => name,
                None => layout.model.name,
            };
            let mut label: Vec<u8> = Vec::new();
            let mut end: usize = 0;
            while end < 8 && name[end] != 0
                invariant
                    end <= 8,
                    label@ =~= name@.take(end as int),
                    forall|i: int| 0 <= i < end ==> name@[i] != 0,
                decreases 8 - end,
            {
                label.push(name[end]);
                end = end + 1;
            }
            proof {
                lemma_label(name@, end as int);
            }
            return Some(label);
        }
        index = index + 1;
    }
    None
}

/// The name of the section that holds the entry point, if it is not empty.
pub fn entry_section_name(layouts: &[SectionLayout], entry_point: u32) -> (result: Option<String>)
    ensures
        match label_text(entry_label(layouts@, entry_point)) {
            Some(text) => result matches Some(found) && found@ == text,
            None => result is None,
        },
{
    match entry_section_label(layouts, entry_point) {
        None => None,
        Some(label) => {
            let text = text_from_bytes(label.as_slice());
            if text.as_str().is_empty() {
                None
            } else {
                Some(text)
            }
        },
    }
}

} // verus!
