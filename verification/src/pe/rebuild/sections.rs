//! Sections: their captured length and access, their place in the file, and their names.

use vstd::prelude::*;
use vstd::slice::slice_to_vec;

use crate::error::AppError;
use crate::pe::align::{align_up, aligned};
use crate::pe::image::{
    all_zero, copy_into, is_zero, overwrite, put_bytes, put_u32, write_bytes, write_u32,
};
use crate::pe::rebuild::{
    clipped, greater, greater_of, lesser, lesser_of, SectionLayout, IMAGE_SCN_CNT_CODE,
    MAX_OUTPUT_SIZE, PAGE_SIZE, SECTION_HEADER_SIZE,
};
use crate::pe::{
    ModelView, PeModel, RegionEvidence, SectionModel, IMAGE_SCN_MEM_EXECUTE, IMAGE_SCN_MEM_READ,
    IMAGE_SCN_MEM_WRITE,
};

verus! {

pub const MAX_RENAME_ATTEMPTS: usize = 64;

/// `section` put behind the last of `sorted` that does not start after it.
pub open spec fn placed(sorted: Seq<SectionModel>, section: SectionModel) -> Seq<SectionModel>
    decreases sorted.len(),
{
    if sorted.len() == 0 || sorted.last().start() <= section.start() {
        sorted.push(section)
    } else {
        placed(sorted.drop_last(), section).push(sorted.last())
    }
}

/// The sections by ascending address; those with one address keep their order.
pub open spec fn by_address(sections: Seq<SectionModel>) -> Seq<SectionModel>
    decreases sections.len(),
{
    if sections.len() == 0 {
        sections
    } else {
        placed(by_address(sections.drop_last()), sections.last())
    }
}

/// Whether the addresses do not descend.
pub open spec fn ascending(sections: Seq<SectionModel>) -> bool {
    forall|i: int, j: int|
        0 <= i <= j < sections.len() ==> sections[i].start() <= sections[j].start()
}

proof fn lemma_placed(sorted: Seq<SectionModel>, section: SectionModel)
    requires
        ascending(sorted),
    ensures
        ascending(placed(sorted, section)),
        placed(sorted, section).len() == sorted.len() + 1,
        placed(sorted, section).to_multiset() == sorted.to_multiset().insert(section),
        forall|i: int|
            0 <= i <= sorted.len() ==> (#[trigger] placed(sorted, section)[i]).start() <= greater(
                if sorted.len() == 0 {
                    0
                } else {
                    sorted.last().start()
                },
                section.start(),
            ),
    decreases sorted.len(),
{
    broadcast use vstd::seq_lib::group_to_multiset_ensures;

    if sorted.len() == 0 || sorted.last().start() <= section.start() {
        assert(sorted.push(section).to_multiset() == sorted.to_multiset().insert(section));
    } else {
        let rest = sorted.drop_last();
        lemma_placed(rest, section);
        assert(rest.push(sorted.last()) =~= sorted);
        assert(sorted.to_multiset() =~= rest.to_multiset().insert(sorted.last()));
        assert(placed(sorted, section).to_multiset() =~= rest.to_multiset().insert(
            section,
        ).insert(sorted.last()));
        assert(sorted.to_multiset().insert(section) =~= rest.to_multiset().insert(
            sorted.last(),
        ).insert(section));
    }
}

/// Ordering by address gives ascending addresses and keeps every section.
pub proof fn law_ordering_keeps_every_section(sections: Seq<SectionModel>)
    ensures
        ascending(by_address(sections)),
        by_address(sections).len() == sections.len(),
        by_address(sections).to_multiset() == sections.to_multiset(),
    decreases sections.len(),
{
    broadcast use vstd::seq_lib::group_to_multiset_ensures;

    if sections.len() > 0 {
        law_ordering_keeps_every_section(sections.drop_last());
        lemma_placed(by_address(sections.drop_last()), sections.last());
        assert(sections.drop_last().push(sections.last()) =~= sections);
    }
}

/// Orders sections by address.
pub fn sort_by_address(sections: &[SectionModel]) -> (sorted: Vec<SectionModel>)
    ensures
        sorted@ == by_address(sections@),
{
    let mut sorted: Vec<SectionModel> = Vec::new();
    let mut index: usize = 0;
    assert(sections@.take(0) =~= Seq::empty());
    while index < sections.len()
        invariant
            index <= sections@.len(),
            sorted@ == by_address(sections@.take(index as int)),
        decreases sections@.len() - index,
    {
        let section = sections[index];
        let ghost before = sorted@;
        let mut position: usize = sorted.len();
        assert(before.take(position as int) =~= before);
        assert(before.skip(position as int) =~= Seq::empty());
        assert(placed(before, section) =~= placed(before.take(position as int), section)
            + before.skip(position as int));
        while position > 0 && sorted[position - 1].virtual_address.0 > section.virtual_address.0
            invariant
                position <= sorted@.len(),
                sorted@ == before,
                placed(before, section) == placed(before.take(position as int), section)
                    + before.skip(position as int),
            decreases position,
        {
            proof {
                let head = before.take(position as int);
                assert(head.drop_last() =~= before.take(position - 1));
                assert(placed(before, section) =~= placed(before.take(position - 1), section)
                    + before.skip(position - 1));
            }
            position = position - 1;
        }
        proof {
            let head = before.take(position as int);
            assert(placed(head, section) == head.push(section));
            assert(before.insert(position as int, section) =~= head.push(section) + before.skip(
                position as int,
            ));
            assert(sections@.take(index + 1).drop_last() =~= sections@.take(index as int));
        }
        sorted.insert(position, section);
        index = index + 1;
    }
    assert(sections@.take(index as int) =~= sections@);
    sorted
}

/// Where the section after the one at `index` starts; `otherwise` behind the last.
pub open spec fn next_start(ordered: Seq<SectionModel>, index: int, otherwise: int) -> int {
    if index + 1 < ordered.len() {
        ordered[index + 1].start()
    } else {
        otherwise
    }
}

/// How many bytes of the section were captured: at most its declared size, and no byte of
/// the next section or behind the end of memory.
pub open spec fn captured_length(
    ordered: Seq<SectionModel>,
    memory: Seq<u8>,
    index: int,
) -> int {
    let start = ordered[index].start();
    greater(
        0,
        lesser(
            ordered[index].declared(),
            lesser(next_start(ordered, index, memory.len() as int) - start, memory.len() - start),
        ),
    )
}

/// Whether the range lies in memory and holds zeros only.
pub open spec fn zero_range(memory: Seq<u8>, offset: int, length: int) -> bool {
    offset + length <= memory.len() && all_zero(memory.subrange(offset, offset + length))
}

/// How many bytes the section takes in the file: none where nothing but zeros was captured.
pub open spec fn stored_size(
    ordered: Seq<SectionModel>,
    memory: Seq<u8>,
    alignment: int,
    index: int,
) -> Result<int, AppError> {
    let length = captured_length(ordered, memory, index);
    if length == 0 || zero_range(memory, ordered[index].start(), length) {
        Ok(0)
    } else {
        aligned(length, alignment, usize::MAX as int)
    }
}

/// The layout of the section at `index`, where stored bytes go to `raw_offset`.
pub open spec fn layout_at(
    ordered: Seq<SectionModel>,
    memory: Seq<u8>,
    index: int,
    raw_offset: int,
    raw_size: int,
) -> SectionLayout {
    SectionLayout {
        model: ordered[index],
        source_length: captured_length(ordered, memory, index) as usize,
        raw_offset: if raw_size == 0 {
            0
        } else {
            raw_offset as usize
        },
        raw_size: raw_size as usize,
    }
}

/// The layouts in `done` and those of the sections from `index` on, one behind the other
/// from `raw_offset`.
pub open spec fn layouts_from(
    ordered: Seq<SectionModel>,
    memory: Seq<u8>,
    alignment: int,
    index: int,
    raw_offset: int,
    done: Seq<SectionLayout>,
) -> Result<Seq<SectionLayout>, AppError>
    decreases ordered.len() - index,
{
    if index >= ordered.len() {
        Ok(done)
    } else {
        match stored_size(ordered, memory, alignment, index) {
            Err(error) => Err(error),
            Ok(raw_size) => if raw_offset + raw_size > usize::MAX {
                Err(AppError::LayoutOverflow)
            } else {
                layouts_from(
                    ordered,
                    memory,
                    alignment,
                    index + 1,
                    raw_offset + raw_size,
                    done.push(layout_at(ordered, memory, index, raw_offset, raw_size)),
                )
            },
        }
    }
}

/// The layouts of all sections, by address, from the end of the headers on.
pub open spec fn section_layouts(model: ModelView, memory: Seq<u8>, header_size: int) -> Result<
    Seq<SectionLayout>,
    AppError,
> {
    layouts_from(
        by_address(model.sections),
        memory,
        model.headers.file_alignment as int,
        0,
        header_size,
        Seq::empty(),
    )
}

/// Whether the range lies in memory and holds zeros only.
pub fn section_is_zero(memory: &[u8], offset: usize, length: usize) -> (result: bool)
    ensures
        result == zero_range(memory@, offset as int, length as int),
{
    if offset > memory.len() || length > memory.len() - offset {
        return false;
    }
    is_zero(&memory[offset..offset + length])
}

/// Lays the sections out one behind the other.
pub fn layout_sections(model: &PeModel, memory: &[u8], header_size: usize) -> (result: Result<
    Vec<SectionLayout>,
    AppError,
>)
    ensures
        match section_layouts(model@, memory@, header_size as int) {
            Ok(layouts) => result matches Ok(found) && found@ == layouts,
            Err(error) => result matches Err(found) && found == error,
        },
{
    let sections = sort_by_address(model.sections.as_slice());
    let alignment: usize = model.headers.file_alignment as usize;
    let mut layouts: Vec<SectionLayout> = Vec::new();
    let mut raw_offset: usize = header_size;
    let mut index: usize = 0;
    while index < sections.len()
        invariant
            index <= sections@.len(),
            sections@ == by_address(model@.sections),
            alignment == model@.headers.file_alignment,
            section_layouts(model@, memory@, header_size as int) == layouts_from(
                sections@,
                memory@,
                alignment as int,
                index as int,
                raw_offset as int,
                layouts@,
            ),
        decreases sections@.len() - index,
    {
        let section = sections[index];
        let source_offset: usize = section.virtual_address.0 as usize;
        let next: usize = if index + 1 < sections.len() {
            sections[index + 1].virtual_address.0 as usize
        } else {
            memory.len()
        };
        let until_next: usize = next.saturating_sub(source_offset);
        let available: usize = memory.len().saturating_sub(source_offset);
        let source_length: usize = lesser_of(
            section.span() as usize,
            lesser_of(until_next, available),
        );
        let raw_size: usize = if source_length == 0 || section_is_zero(
            memory,
            source_offset,
            source_length,
        ) {
            0
        } else {
            align_up(source_length, alignment)?
        };
        if raw_size > usize::MAX - raw_offset {
            return Err(AppError::LayoutOverflow);
        }
        layouts.push(
            SectionLayout {
                model: section,
                source_length,
                raw_offset: if raw_size == 0 {
                    0
                } else {
                    raw_offset
                },
                raw_size,
            },
        );
        raw_offset = raw_offset + raw_size;
        index = index + 1;
    }
    Ok(layouts)
}

/// The end of the layout that reaches furthest, or `floor` where none reaches that far.
pub open spec fn furthest_end(layouts: Seq<SectionLayout>, floor: int) -> int
    decreases layouts.len(),
{
    if layouts.len() == 0 {
        floor
    } else {
        greater(
            furthest_end(layouts.drop_last(), floor),
            clipped(layouts.last().raw_offset + layouts.last().raw_size),
        )
    }
}

/// A rebuilt file with its headers copied and its sections planned.
pub ghost struct OutputView {
    pub bytes: Seq<u8>,
    pub layouts: Seq<SectionLayout>,
    pub header_size: int,
}

/// Where the headers end: behind the last entry of the section table, rounded up.
pub open spec fn header_end(model: ModelView) -> Result<int, AppError> {
    if model.sections.len() == 0 {
        Err(AppError::NoSectionHeaders)
    } else {
        aligned(
            clipped(model.sections.last().header_offset + 40),
            model.headers.file_alignment as int,
            usize::MAX as int,
        )
    }
}

/// The rebuilt file before anything but the captured headers is in it.
pub open spec fn output_plan(model: ModelView, memory: Seq<u8>) -> Result<OutputView, AppError> {
    match header_end(model) {
        Err(error) => Err(error),
        Ok(header_size) => match section_layouts(model, memory, header_size) {
            Err(error) => Err(error),
            Ok(layouts) => {
                let size = furthest_end(layouts, header_size);
                if size > MAX_OUTPUT_SIZE {
                    Err(AppError::OutputTooLarge)
                } else {
                    Ok(
                        OutputView {
                            bytes: Seq::new(
                                size as nat,
                                |i: int|
                                    if i < header_size && i < memory.len() {
                                        memory[i]
                                    } else {
                                        0
                                    },
                            ),
                            layouts,
                            header_size,
                        },
                    )
                }
            },
        },
    }
}

/// Makes room for `size` more bytes with `Vec::try_reserve_exact` and says whether there
/// was memory for them. What the vector holds does not change. Whether there is memory
/// rests on the machine, so nothing is claimed of the answer.
#[verifier::external_body]
fn reserve(buffer: &mut Vec<u8>, size: usize) -> (reserved: bool)
    ensures
        final(buffer)@ == old(buffer)@,
{
    buffer.try_reserve_exact(size).is_ok()
}

/// What was built, given what was to be built.
pub open spec fn built(
    expected: Result<OutputView, AppError>,
    result: Result<(Vec<u8>, Vec<SectionLayout>, usize), AppError>,
) -> bool {
    match expected {
        Ok(plan) => result matches Ok((bytes, layouts, header_size)) && bytes@ == plan.bytes
            && layouts@ == plan.layouts && header_size == plan.header_size,
        Err(error) => result matches Err(found) && found == error,
    }
}

/// The layouts, the header size and the file size of the rebuilt file.
fn plan_output(model: &PeModel, memory: &[u8]) -> (result: Result<
    (Vec<SectionLayout>, usize, usize),
    AppError,
>)
    ensures
        match output_plan(model@, memory@) {
            Ok(plan) => result matches Ok((layouts, header_size, size)) && layouts@ == plan.layouts
                && header_size == plan.header_size && size == plan.bytes.len() && header_size
                <= size,
            Err(error) => result matches Err(found) && found == error,
        },
{
    if model.sections.len() == 0 {
        return Err(AppError::NoSectionHeaders);
    }
    let table_end: usize = model.sections[model.sections.len() - 1].header_offset.saturating_add(
        SECTION_HEADER_SIZE,
    );
    let header_size: usize = align_up(table_end, model.headers.file_alignment as usize)?;
    let layouts = layout_sections(model, memory, header_size)?;
    let mut size: usize = header_size;
    let mut index: usize = 0;
    assert(layouts@.take(0) =~= Seq::empty());
    while index < layouts.len()
        invariant
            index <= layouts@.len(),
            header_size <= size,
            size == furthest_end(layouts@.take(index as int), header_size as int),
        decreases layouts@.len() - index,
    {
        assert(layouts@.take(index + 1).drop_last() =~= layouts@.take(index as int));
        size = greater_of(size, layouts[index].raw_offset.saturating_add(layouts[index].raw_size));
        index = index + 1;
    }
    assert(layouts@.take(index as int) =~= layouts@);
    if size > MAX_OUTPUT_SIZE {
        return Err(AppError::OutputTooLarge);
    }
    Ok((layouts, header_size, size))
}

/// Fills the buffer of a rebuilt file that was planned; `reserved` says whether there is
/// memory for it.
pub fn fill_output(
    memory: &[u8],
    header_size: usize,
    size: usize,
    output: &mut Vec<u8>,
    reserved: bool,
) -> (result: Result<(), AppError>)
    requires
        header_size <= size,
        old(output)@.len() == 0,
    ensures
        result == (if reserved {
            Ok::<(), AppError>(())
        } else {
            Err(AppError::OutOfMemory)
        }),
        reserved ==> final(output)@ == Seq::new(
            size as nat,
            |i: int|
                if i < header_size && i < memory@.len() {
                    memory@[i]
                } else {
                    0
                },
        ),
        !reserved ==> final(output)@ == old(output)@,
{
    if !reserved {
        return Err(AppError::OutOfMemory);
    }
    output.resize(size, 0);
    let copied: usize = lesser_of(header_size, memory.len());
    copy_into(output, 0, &memory[0..copied]);
    assert(output@ =~= Seq::new(
        size as nat,
        |i: int|
            if i < header_size && i < memory@.len() {
                memory@[i]
            } else {
                0
            },
    ));
    Ok(())
}

/// Plans the rebuilt file and copies the captured headers into it.
pub fn build_output_buffer(model: &PeModel, memory: &[u8]) -> (result: Result<
    (Vec<u8>, Vec<SectionLayout>, usize),
    AppError,
>)
    ensures
        built(output_plan(model@, memory@), result) || (output_plan(model@, memory@) is Ok
            && result matches Err(AppError::OutOfMemory)),
{
    let (layouts, header_size, size) = plan_output(model, memory)?;
    let mut output: Vec<u8> = Vec::new();
    let reserved = reserve(&mut output, size);
    fill_output(memory, header_size, size, &mut output, reserved)?;
    Ok((output, layouts, header_size))
}

/// Whether the byte can be printed.
pub open spec fn printable(byte: u8) -> bool {
    0x20 <= byte <= 0x7e
}

/// Whether the first `end` bytes are the name up to its first NUL, can be printed and are
/// not all blank.
pub open spec fn readable_label(name: Seq<u8>, end: int) -> bool {
    &&& 0 <= end <= name.len()
    &&& end < name.len() ==> name[end] == 0
    &&& forall|i: int| 0 <= i < end ==> printable(#[trigger] name[i])
    &&& exists|i: int| 0 <= i < end && #[trigger] name[i] != 0x20
}

/// Whether the name, up to its first NUL, can be printed and is not blank.
pub open spec fn readable_name(name: Seq<u8>) -> bool {
    exists|end: int| readable_label(name, end)
}

/// The character of a decimal digit of `value`: the one of weight `unit`.
pub open spec fn digit(value: int, unit: int) -> u8 {
    (0x30 + value / unit % 10) as u8
}

/// `.sec` and the position with at least two digits, if that fits a section name.
pub open spec fn numbered_name(position: int) -> Option<[u8; 8]> {
    if position < 100 {
        Some([0x2e, 0x73, 0x65, 0x63, digit(position, 10), digit(position, 1), 0, 0])
    } else if position < 1000 {
        Some(
            [
                0x2e,
                0x73,
                0x65,
                0x63,
                digit(position, 100),
                digit(position, 10),
                digit(position, 1),
                0,
            ],
        )
    } else if position < 10000 {
        Some(
            [
                0x2e,
                0x73,
                0x65,
                0x63,
                digit(position, 1000),
                digit(position, 100),
                digit(position, 10),
                digit(position, 1),
            ],
        )
    } else {
        None
    }
}

/// The name that takes the place of one that cannot be read.
pub open spec fn replacement_for(name: [u8; 8], position: int) -> Option<[u8; 8]> {
    if readable_name(name@) {
        None
    } else {
        numbered_name(position)
    }
}

/// Whether a section other than the one at `index` has the name.
pub open spec fn name_taken(layouts: Seq<SectionLayout>, index: int, name: [u8; 8]) -> bool {
    exists|other: int|
        0 <= other < layouts.len() && other != index && (#[trigger] layouts[other]).model.name
            == name
}

/// The first replacement name that is free, numbered from `position` on in steps of the
/// section count.
pub open spec fn free_name(
    layouts: Seq<SectionLayout>,
    index: int,
    position: int,
    attempts: int,
) -> Option<[u8; 8]>
    decreases attempts,
{
    if attempts <= 0 {
        None
    } else {
        match replacement_for(layouts[index].model.name, position) {
            None => None,
            Some(candidate) => if name_taken(layouts, index, candidate) {
                free_name(layouts, index, position + layouts.len(), attempts - 1)
            } else {
                Some(candidate)
            },
        }
    }
}

/// The new name of the section at `index`, if it gets one.
pub open spec fn new_name(layouts: Seq<SectionLayout>, index: int) -> Option<[u8; 8]> {
    if 0 <= index < layouts.len() {
        free_name(layouts, index, index + 1, 64)
    } else {
        None
    }
}

fn same_name(left: &[u8; 8], right: &[u8; 8]) -> (result: bool)
    ensures
        result == (*left == *right),
{
    let mut index: usize = 0;
    while index < 8
        invariant
            index <= 8,
            forall|i: int| 0 <= i < index ==> left@[i] == right@[i],
        decreases 8 - index,
    {
        if left[index] != right[index] {
            return false;
        }
        index = index + 1;
    }
    assert(*left =~= *right);
    true
}

fn name_is_readable(name: &[u8; 8]) -> (result: bool)
    ensures
        result == readable_name(name@),
{
    let mut index: usize = 0;
    let mut blank = true;
    while index < 8 && name[index] != 0
        invariant
            index <= 8,
            forall|i: int| 0 <= i < index ==> printable(#[trigger] name@[i]),
            blank == (forall|i: int| 0 <= i < index ==> #[trigger] name@[i] == 0x20),
        decreases 8 - index,
    {
        let byte: u8 = name[index];
        if byte < 0x20 || byte > 0x7e {
            assert forall|end: int| !readable_label(name@, end) by {
                assert(!printable(name@[index as int]));
            }
            return false;
        }
        if byte != 0x20 {
            blank = false;
        }
        index = index + 1;
    }
    proof {
        if blank {
            assert forall|end: int| !readable_label(name@, end) by {
                if readable_label(name@, end) && end > index {
                    assert(printable(name@[index as int]));
                }
            }
        } else {
            assert(readable_label(name@, index as int));
        }
    }
    !blank
}

fn numbered(position: usize) -> (result: Option<[u8; 8]>)
    ensures
        result == numbered_name(position as int),
{
    if position >= 10000 {
        return None;
    }
    let ones: u8 = 0x30 + (position % 10) as u8;
    let tens: u8 = 0x30 + (position / 10 % 10) as u8;
    let hundreds: u8 = 0x30 + (position / 100 % 10) as u8;
    let thousands: u8 = 0x30 + (position / 1000 % 10) as u8;
    if position < 100 {
        Some([0x2e, 0x73, 0x65, 0x63, tens, ones, 0, 0])
    } else if position < 1000 {
        Some([0x2e, 0x73, 0x65, 0x63, hundreds, tens, ones, 0])
    } else {
        Some([0x2e, 0x73, 0x65, 0x63, thousands, hundreds, tens, ones])
    }
}

/// The name that takes the place of one that cannot be read.
pub fn readable_section_name(name: &[u8; 8], position: usize) -> (result: Option<[u8; 8]>)
    ensures
        result == replacement_for(*name, position as int),
{
    if name_is_readable(name) {
        return None;
    }
    numbered(position)
}

/// The new name of the section at `index`, if it gets one.
pub fn unique_replacement_name(layouts: &[SectionLayout], index: usize) -> (result: Option<
    [u8; 8],
>)
    ensures
        result == new_name(layouts@, index as int),
{
    if index >= layouts.len() {
        return None;
    }
    let mut position: usize = index + 1;
    let mut attempt: usize = 0;
    while attempt < MAX_RENAME_ATTEMPTS
        invariant
            index < layouts@.len(),
            attempt <= MAX_RENAME_ATTEMPTS,
            new_name(layouts@, index as int) == free_name(
                layouts@,
                index as int,
                position as int,
                MAX_RENAME_ATTEMPTS - attempt,
            ),
        decreases MAX_RENAME_ATTEMPTS - attempt,
    {
        let candidate = match readable_section_name(&layouts[index].model.name, position) {
            Some(candidate) => candidate,
            None => {
                return None;
            },
        };
        let mut taken = false;
        let mut other: usize = 0;
        while other < layouts.len()
            invariant
                other <= layouts@.len(),
                taken == (exists|i: int|
                    0 <= i < other && i != index && (#[trigger] layouts@[i]).model.name
                        == candidate),
            decreases layouts@.len() - other,
        {
            if other != index && same_name(&layouts[other].model.name, &candidate) {
                taken = true;
            }
            other = other + 1;
        }
        if !taken {
            return Some(candidate);
        }
        let total: usize = layouts.len();
        if position > usize::MAX - total {
            assert(free_name(
                layouts@,
                index as int,
                position + total,
                MAX_RENAME_ATTEMPTS - attempt - 1,
            ) is None);
            return None;
        }
        position = position + total;
        attempt = attempt + 1;
    }
    None
}

/// A replacement name is readable, and no other section has it.
pub proof fn law_new_names_are_readable_and_free(layouts: Seq<SectionLayout>, index: int)
    requires
        0 <= index < layouts.len(),
    ensures
        new_name(layouts, index) matches Some(name) ==> readable_name(name@) && !name_taken(
            layouts,
            index,
            name,
        ) && !readable_name(layouts[index].model.name@),
{
    lemma_free_name(layouts, index, index + 1, 64);
}

/// The number that a free name was made from: reached from `position` in whole steps of the
/// section count.
proof fn lemma_free_name_number(
    layouts: Seq<SectionLayout>,
    index: int,
    position: int,
    attempts: int,
) -> (steps: int)
    requires
        0 <= index < layouts.len(),
        0 <= position,
        free_name(layouts, index, position, attempts) is Some,
    ensures
        0 <= steps,
        free_name(layouts, index, position, attempts) == numbered_name(
            position + steps * layouts.len(),
        ),
    decreases attempts,
{
    let total = layouts.len() as int;
    let candidate = numbered_name(position)->Some_0;
    if name_taken(layouts, index, candidate) {
        let rest = lemma_free_name_number(layouts, index, position + total, attempts - 1);
        assert((rest + 1) * total == rest * total + total) by (nonlinear_arith);
        rest + 1
    } else {
        assert(0 * total == 0) by (nonlinear_arith);
        0
    }
}

/// A number of up to four digits is what its digits add up to.
proof fn lemma_digits(value: int)
    requires
        0 <= value < 10000,
    ensures
        0x30 <= digit(value, 1) <= 0x39,
        0x30 <= digit(value, 10) <= 0x39,
        0x30 <= digit(value, 100) <= 0x39,
        0x30 <= digit(value, 1000) <= 0x39,
        value == 1000 * (digit(value, 1000) - 0x30) + 100 * (digit(value, 100) - 0x30) + 10 * (
        digit(value, 10) - 0x30) + (digit(value, 1) - 0x30),
        value < 1000 ==> digit(value, 1000) == 0x30,
        value < 100 ==> digit(value, 100) == 0x30,
{
    let tens = value / 10;
    let hundreds = value / 100;
    let thousands = value / 1000;
    assert(value == 10 * tens + value % 10);
    assert(hundreds == tens / 10);
    assert(tens == 10 * hundreds + tens % 10);
    assert(thousands == hundreds / 10);
    assert(hundreds == 10 * thousands + hundreds % 10);
    assert(thousands % 10 == thousands);
}

/// The bytes of a name that hold its digits; zero where it has fewer.
proof fn lemma_numbered_bytes(value: int)
    requires
        0 <= value < 10000,
    ensures
        ({
            let name = numbered_name(value)->Some_0@;
            if value < 100 {
                name[4] == digit(value, 10) && name[5] == digit(value, 1) && name[6] == 0
                    && name[7] == 0
            } else if value < 1000 {
                name[4] == digit(value, 100) && name[5] == digit(value, 10) && name[6] == digit(
                    value,
                    1,
                ) && name[7] == 0
            } else {
                name[4] == digit(value, 1000) && name[5] == digit(value, 100) && name[6] == digit(
                    value,
                    10,
                ) && name[7] == digit(value, 1)
            }
        }),
{
}

/// Different numbers give different names.
proof fn lemma_numbers_differ(left: int, right: int)
    requires
        0 <= left,
        0 <= right,
        numbered_name(left) is Some,
        numbered_name(left) == numbered_name(right),
    ensures
        left == right,
{
    lemma_digits(left);
    lemma_digits(right);
    lemma_numbered_bytes(left);
    lemma_numbered_bytes(right);
    let name = numbered_name(left)->Some_0@;
    if left < 100 {
        assert(name[6] == 0);
        assert(right < 100);
    } else if left < 1000 {
        assert(name[6] != 0 && name[7] == 0);
        assert(100 <= right < 1000);
    } else {
        assert(name[7] != 0);
        assert(1000 <= right);
    }
}

/// No two sections get the same new name.
pub proof fn law_new_names_differ(layouts: Seq<SectionLayout>, left: int, right: int)
    requires
        0 <= left < right < layouts.len(),
        new_name(layouts, left) is Some,
    ensures
        new_name(layouts, left) != new_name(layouts, right),
{
    if new_name(layouts, left) == new_name(layouts, right) {
        let total = layouts.len() as int;
        let first = lemma_free_name_number(layouts, left, left + 1, 64);
        let second = lemma_free_name_number(layouts, right, right + 1, 64);
        assert(0 <= first * total && 0 <= second * total) by (nonlinear_arith)
            requires
                0 <= first,
                0 <= second,
                0 < total,
        ;
        lemma_numbers_differ(left + 1 + first * total, right + 1 + second * total);
        assert((first - second) * total == first * total - second * total) by (nonlinear_arith);
        assert(false) by (nonlinear_arith)
            requires
                (first - second) * total == right - left,
                0 < right - left < total,
        ;
    }
}

proof fn lemma_free_name(layouts: Seq<SectionLayout>, index: int, position: int, attempts: int)
    requires
        0 <= index < layouts.len(),
        0 <= position,
    ensures
        free_name(layouts, index, position, attempts) matches Some(name) ==> readable_name(name@)
            && !name_taken(layouts, index, name) && !readable_name(
            layouts[index].model.name@,
        ),
    decreases attempts,
{
    if attempts > 0 {
        lemma_free_name(layouts, index, position + layouts.len(), attempts - 1);
        if let Some(name) = numbered_name(position) {
            assert(name@[0] == 0x2e);
            if position < 100 {
                assert(name@[6] == 0);
                assert(readable_label(name@, 6));
            } else if position < 1000 {
                assert(name@[7] == 0);
                assert(readable_label(name@, 7));
            } else {
                assert(readable_label(name@, 8));
            }
        }
    }
}

/// `output` with the name of the section at `index` replaced, if it gets a new one.
pub open spec fn name_written(output: Seq<u8>, layouts: Seq<SectionLayout>, index: int) -> Result<
    Seq<u8>,
    AppError,
> {
    match new_name(layouts, index) {
        None => Ok(output),
        Some(name) => match put_bytes(output, layouts[index].model.header_offset as int, name@) {
            Ok(bytes) => Ok(bytes),
            Err(_) => Err(AppError::SectionNameOutside),
        },
    }
}

/// `output` with the place of the section's bytes in its header.
pub open spec fn place_written(output: Seq<u8>, layout: SectionLayout) -> Result<
    Seq<u8>,
    AppError,
> {
    if layout.raw_size > u32::MAX {
        Err(AppError::RawSizeTooLarge)
    } else {
        match put_u32(output, layout.model.header_offset + 16, layout.raw_size as u32) {
            Err(error) => Err(error),
            Ok(sized) => if layout.raw_offset > u32::MAX {
                Err(AppError::RawOffsetTooLarge)
            } else {
                put_u32(sized, layout.model.header_offset + 20, layout.raw_offset as u32)
            },
        }
    }
}

/// `output` with the captured bytes of the section, if any are stored.
pub open spec fn content_written(
    output: Seq<u8>,
    memory: Seq<u8>,
    layout: SectionLayout,
) -> Result<Seq<u8>, AppError> {
    let start = layout.model.start();
    let length = layout.source_length;
    if layout.raw_size == 0 {
        Ok(output)
    } else if start + length > usize::MAX {
        Err(AppError::SourceRangeOverflow)
    } else if layout.raw_offset + length > usize::MAX {
        Err(AppError::OutputRangeOverflow)
    } else if start + length > memory.len() {
        Err(AppError::SourceOutsideMemory)
    } else if layout.raw_offset + length > output.len() {
        Err(AppError::OutputOutsideImage)
    } else {
        Ok(
            overwrite(
                output,
                layout.raw_offset as int,
                memory.subrange(start, start + length),
            ),
        )
    }
}

/// `output` with the section at `index` in it.
pub open spec fn section_written(
    output: Seq<u8>,
    memory: Seq<u8>,
    layouts: Seq<SectionLayout>,
    index: int,
) -> Result<Seq<u8>, AppError> {
    match name_written(output, layouts, index) {
        Err(error) => Err(error),
        Ok(named) => match place_written(named, layouts[index]) {
            Err(error) => Err(error),
            Ok(sized) => content_written(sized, memory, layouts[index]),
        },
    }
}

/// `output` with the sections from `index` on in it.
pub open spec fn sections_written(
    output: Seq<u8>,
    memory: Seq<u8>,
    layouts: Seq<SectionLayout>,
    index: int,
) -> Result<Seq<u8>, AppError>
    decreases layouts.len() - index,
{
    if index >= layouts.len() {
        Ok(output)
    } else {
        match section_written(output, memory, layouts, index) {
            Err(error) => Err(error),
            Ok(bytes) => sections_written(bytes, memory, layouts, index + 1),
        }
    }
}

/// How many of the first `count` sections get a new name.
pub open spec fn renamed_total(layouts: Seq<SectionLayout>, count: int) -> int
    decreases count,
{
    if count <= 0 {
        0
    } else {
        renamed_total(layouts, count - 1) + if new_name(layouts, count - 1) is Some {
            1int
        } else {
            0
        }
    }
}

/// Writes the name of one section, where it changes, and says whether it did.
fn write_name(output: &mut [u8], layouts: &[SectionLayout], index: usize) -> (result: Result<
    bool,
    AppError,
>)
    requires
        index < layouts@.len(),
    ensures
        final(output)@.len() == old(output)@.len(),
        match name_written(old(output)@, layouts@, index as int) {
            Ok(bytes) => result == Ok::<bool, AppError>(new_name(layouts@, index as int) is Some)
                && final(output)@ == bytes,
            Err(error) => result == Err::<bool, AppError>(error),
        },
{
    match unique_replacement_name(layouts, index) {
        None => Ok(false),
        Some(name) => match write_bytes(output, layouts[index].model.header_offset, &name) {
            Ok(_) => Ok(true),
            Err(_) => Err(AppError::SectionNameOutside),
        },
    }
}

/// Writes one section: its place in its header and its captured bytes.
fn write_section(output: &mut [u8], memory: &[u8], layout: &SectionLayout) -> (result: Result<
    (),
    AppError,
>)
    ensures
        final(output)@.len() == old(output)@.len(),
        match place_written(old(output)@, *layout) {
            Err(error) => result == Err::<(), AppError>(error),
            Ok(placed) => match content_written(placed, memory@, *layout) {
                Ok(bytes) => result == Ok::<(), AppError>(()) && final(output)@ == bytes,
                Err(error) => result == Err::<(), AppError>(error),
            },
        },
{
    let total: usize = output.len();
    let header: usize = layout.model.header_offset;
    if layout.raw_size > 0xFFFF_FFFF {
        return Err(AppError::RawSizeTooLarge);
    }
    write_u32(output, header.saturating_add(16), layout.raw_size as u32)?;
    if layout.raw_offset > 0xFFFF_FFFF {
        return Err(AppError::RawOffsetTooLarge);
    }
    write_u32(output, header.saturating_add(20), layout.raw_offset as u32)?;
    if layout.raw_size == 0 {
        return Ok(());
    }
    let source_offset: usize = layout.model.virtual_address.0 as usize;
    if layout.source_length > usize::MAX - source_offset {
        return Err(AppError::SourceRangeOverflow);
    }
    if layout.source_length > usize::MAX - layout.raw_offset {
        return Err(AppError::OutputRangeOverflow);
    }
    let source_end: usize = source_offset + layout.source_length;
    if source_end > memory.len() {
        return Err(AppError::SourceOutsideMemory);
    }
    if layout.raw_offset + layout.source_length > output.len() {
        return Err(AppError::OutputOutsideImage);
    }
    copy_into(output, layout.raw_offset, &memory[source_offset..source_end]);
    Ok(())
}

/// Writes all sections and says how many got a new name.
pub fn write_sections(output: &mut [u8], memory: &[u8], layouts: &[SectionLayout]) -> (result:
    Result<usize, AppError>)
    ensures
        final(output)@.len() == old(output)@.len(),
        match sections_written(old(output)@, memory@, layouts@, 0) {
            Ok(bytes) => result == Ok::<usize, AppError>(
                renamed_total(layouts@, layouts@.len() as int) as usize,
            ) && final(output)@ == bytes,
            Err(error) => result == Err::<usize, AppError>(error),
        },
{
    let mut renamed: usize = 0;
    let mut index: usize = 0;
    while index < layouts.len()
        invariant
            index <= layouts@.len(),
            renamed <= index,
            renamed == renamed_total(layouts@, index as int),
            output@.len() == old(output)@.len(),
            sections_written(old(output)@, memory@, layouts@, 0) == sections_written(
                output@,
                memory@,
                layouts@,
                index as int,
            ),
        decreases layouts@.len() - index,
    {
        let changed = write_name(output, layouts, index)?;
        if changed {
            renamed = renamed + 1;
        }
        write_section(output, memory, &layouts[index])?;
        index = index + 1;
    }
    Ok(renamed)
}

/// Whether a readable region holds the address.
pub open spec fn readable_at(regions: Seq<RegionEvidence>, address: int) -> bool {
    exists|i: int|
        0 <= i < regions.len() && (#[trigger] regions[i]).readable && regions[i].offset <= address
            < regions[i].offset + regions[i].size
}

/// Whether a readable byte that is not zero stands at the address.
pub open spec fn used_at(memory: Seq<u8>, regions: Seq<RegionEvidence>, address: int) -> bool {
    0 <= address < memory.len() && memory[address] != 0 && readable_at(regions, address)
}

/// The end of the last used byte between `from` and `limit`; `from` where there is none.
pub open spec fn used_end(
    memory: Seq<u8>,
    regions: Seq<RegionEvidence>,
    from: int,
    limit: int,
) -> int
    decreases limit - from,
{
    if limit <= from || used_at(memory, regions, limit - 1) {
        greater(limit, from)
    } else {
        used_end(memory, regions, from, limit - 1)
    }
}

/// The length of a section that takes in what is used behind its declared end.
pub open spec fn expanded_length(
    memory: Seq<u8>,
    regions: Seq<RegionEvidence>,
    start: int,
    limit: int,
    declared: int,
) -> int {
    greater(
        used_end(memory, regions, lesser(start + declared, limit), limit) - start,
        declared,
    )
}

proof fn lemma_used_end(
    memory: Seq<u8>,
    regions: Seq<RegionEvidence>,
    from: int,
    limit: int,
    end: int,
)
    requires
        from <= end <= greater(from, limit),
        end == from || used_at(memory, regions, end - 1),
        forall|p: int| end <= p < limit ==> !#[trigger] used_at(memory, regions, p),
    ensures
        used_end(memory, regions, from, limit) == end,
    decreases limit - from,
{
    if limit > from && end < limit {
        assert(!used_at(memory, regions, limit - 1));
        lemma_used_end(memory, regions, from, limit - 1, end);
    }
}

/// A section never becomes shorter than declared, and what it gains ends with a used byte
/// before the limit.
pub proof fn law_sections_never_shrink(
    memory: Seq<u8>,
    regions: Seq<RegionEvidence>,
    start: int,
    limit: int,
    declared: int,
)
    requires
        0 <= declared,
    ensures
        expanded_length(memory, regions, start, limit, declared) >= declared,
        ({
            let length = expanded_length(memory, regions, start, limit, declared);
            length > declared ==> start + length <= limit && used_at(
                memory,
                regions,
                start + length - 1,
            )
        }),
{
    lemma_used_end_bounds(memory, regions, lesser(start + declared, limit), limit);
}

proof fn lemma_used_end_bounds(memory: Seq<u8>, regions: Seq<RegionEvidence>, from: int, limit: int)
    ensures
        ({
            let end = used_end(memory, regions, from, limit);
            from <= end <= greater(from, limit) && (end == from || used_at(
                memory,
                regions,
                end - 1,
            ))
        }),
    decreases limit - from,
{
    if limit > from {
        lemma_used_end_bounds(memory, regions, from, limit - 1);
    }
}

/// The length of a section that takes in what is used behind its declared end.
pub fn expanded_section_length(
    memory: &[u8],
    regions: &[RegionEvidence],
    start: usize,
    limit: usize,
    declared: usize,
) -> (length: usize)
    ensures
        length == expanded_length(
            memory@,
            regions@,
            start as int,
            limit as int,
            declared as int,
        ),
{
    let scan_start: usize = lesser_of(start.saturating_add(declared), limit);
    let mut last_byte: usize = scan_start;
    let mut index: usize = 0;
    while index < regions.len()
        invariant
            index <= regions@.len(),
            scan_start <= last_byte <= limit,
            last_byte == scan_start || used_at(memory@, regions@, last_byte - 1),
            forall|p: int, i: int|
                #![trigger memory@[p], regions@[i]]
                last_byte <= p < limit && p < memory@.len() && 0 <= i < index
                    && regions@[i].readable && regions@[i].offset <= p < regions@[i].offset
                    + regions@[i].size ==> memory@[p] == 0,
        decreases regions@.len() - index,
    {
        let region = regions[index];
        if region.readable {
            let region_end: usize = region.offset.saturating_add(region.size);
            let range_start: usize = greater_of(scan_start, region.offset);
            let range_end: usize = lesser_of(lesser_of(limit, region_end), memory.len());
            let mut end: usize = range_end;
            while end > range_start && end > last_byte && memory[end - 1] == 0
                invariant
                    end <= range_end <= memory@.len(),
                    forall|p: int| end <= p < range_end ==> memory@[p] == 0,
                decreases end,
            {
                end = end - 1;
            }
            if end > range_start && end > last_byte {
                assert(regions@[index as int] == region);
                assert(readable_at(regions@, end - 1));
                last_byte = end;
            }
        }
        index = index + 1;
    }
    proof {
        assert forall|p: int| last_byte <= p < limit implies !#[trigger] used_at(
            memory@,
            regions@,
            p,
        ) by {
            if used_at(memory@, regions@, p) {
                let i: int = choose|i: int|
                    0 <= i < regions@.len() && (#[trigger] regions@[i]).readable
                        && regions@[i].offset <= p < regions@[i].offset + regions@[i].size;
                assert(memory@[p] != 0 && regions@[i].readable);
            }
        }
        lemma_used_end(memory@, regions@, scan_start as int, limit as int, last_byte as int);
    }
    greater_of(last_byte.saturating_sub(start), declared)
}

/// The kinds of access that regions are counted by.
pub enum Access {
    Any,
    Read,
    Write,
    Execute,
}

/// Whether the region gives the access.
pub open spec fn grants(region: RegionEvidence, access: Access) -> bool {
    match access {
        Access::Any => true,
        Access::Read => region.readable,
        Access::Write => region.writable,
        Access::Execute => region.executable,
    }
}

/// How many bytes of the region lie between `start` and `end`.
pub open spec fn overlap(region: RegionEvidence, start: int, end: int) -> int {
    greater(
        0,
        lesser(end, region.offset + region.size) - greater(start, region.offset as int),
    )
}

/// How many bytes between `start` and `end` the regions that give the access have.
pub open spec fn coverage(
    regions: Seq<RegionEvidence>,
    start: int,
    end: int,
    access: Access,
) -> int
    decreases regions.len(),
{
    if regions.len() == 0 {
        0
    } else {
        coverage(regions.drop_last(), start, end, access) + if grants(regions.last(), access) {
            overlap(regions.last(), start, end)
        } else {
            0
        }
    }
}

/// Whether enough of a range is writable: all of it where all was seen, or two pages that
/// make up half of it.
pub open spec fn substantial(committed: int, writable: int, size: int) -> bool {
    &&& committed > 0
    &&& writable > 0
    &&& (writable >= size && committed >= size) || (writable >= 0x2000 && 2 * writable >= size)
}

/// The access flags of a section with those added that its memory was seen with.
pub open spec fn seen_characteristics(
    characteristics: u32,
    regions: Seq<RegionEvidence>,
    start: int,
    end: int,
) -> u32 {
    let executed = if coverage(regions, start, end, Access::Execute) > 0 {
        characteristics | (IMAGE_SCN_MEM_EXECUTE | IMAGE_SCN_CNT_CODE)
    } else {
        characteristics
    };
    let read = if coverage(regions, start, end, Access::Read) > 0 {
        executed | IMAGE_SCN_MEM_READ
    } else {
        executed
    };
    if substantial(
        coverage(regions, start, end, Access::Any),
        coverage(regions, start, end, Access::Write),
        greater(0, end - start),
    ) {
        read | IMAGE_SCN_MEM_WRITE
    } else {
        read
    }
}

/// Flags are only added, and only those of code, execution, reading and writing.
pub proof fn law_access_is_only_added(
    characteristics: u32,
    regions: Seq<RegionEvidence>,
    start: int,
    end: int,
)
    ensures
        ({
            let seen = seen_characteristics(characteristics, regions, start, end);
            seen & characteristics == characteristics && seen & !0xE000_0020u32 == characteristics
                & !0xE000_0020u32
        }),
{
    let c = characteristics;
    assert((c | (0x2000_0000u32 | 0x20u32)) & c == c && (c | 0x4000_0000u32) & c == c && (c
        | 0x8000_0000u32) & c == c && c & c == c) by (bit_vector);
    assert forall|a: u32, b: u32| #![trigger a & b] b == (a | (0x2000_0000u32 | 0x20u32)) || b == (
    a | 0x4000_0000u32) || b == (a | 0x8000_0000u32) implies b & !0xE000_0020u32 == a
        & !0xE000_0020u32 && forall|d: u32| a & d == d ==> b & d == d by {
        assert((b == (a | (0x2000_0000u32 | 0x20u32)) || b == (a | 0x4000_0000u32) || b == (a
            | 0x8000_0000u32)) ==> b & !0xE000_0020u32 == a & !0xE000_0020u32) by (bit_vector);
        assert forall|d: u32| a & d == d implies b & d == d by {
            assert((b == (a | (0x2000_0000u32 | 0x20u32)) || b == (a | 0x4000_0000u32) || b == (a
                | 0x8000_0000u32)) && a & d == d ==> b & d == d) by (bit_vector);
        }
    }
    let executed = if coverage(regions, start, end, Access::Execute) > 0 {
        c | (0x2000_0000u32 | 0x20u32)
    } else {
        c
    };
    let read = if coverage(regions, start, end, Access::Read) > 0 {
        executed | 0x4000_0000u32
    } else {
        executed
    };
    let seen = seen_characteristics(characteristics, regions, start, end);
    assert(c & executed == executed & c) by (bit_vector);
    assert(executed & read == read & executed) by (bit_vector);
    assert(read & seen == seen & read) by (bit_vector);
}

/// How much of a range was seen, and with which access.
pub struct ProtectionCoverage {
    pub committed: usize,
    pub readable: usize,
    pub writable: usize,
    pub executable: usize,
}

impl ProtectionCoverage {
    /// Counts the bytes between `start` and `end` by the access that their regions give.
    pub fn measure(regions: &[RegionEvidence], start: usize, end: usize) -> (result:
        ProtectionCoverage)
        ensures
            result.committed == clipped(
                coverage(regions@, start as int, end as int, Access::Any),
            ),
            result.readable == clipped(
                coverage(regions@, start as int, end as int, Access::Read),
            ),
            result.writable == clipped(
                coverage(regions@, start as int, end as int, Access::Write),
            ),
            result.executable == clipped(
                coverage(regions@, start as int, end as int, Access::Execute),
            ),
    {
        let mut result = ProtectionCoverage {
            committed: 0,
            readable: 0,
            writable: 0,
            executable: 0,
        };
        let mut index: usize = 0;
        assert(regions@.take(0) =~= Seq::empty());
        while index < regions.len()
            invariant
                index <= regions@.len(),
                result.committed == clipped(
                    coverage(
                        regions@.take(index as int),
                        start as int,
                        end as int,
                        Access::Any,
                    ),
                ),
                result.readable == clipped(
                    coverage(
                        regions@.take(index as int),
                        start as int,
                        end as int,
                        Access::Read,
                    ),
                ),
                result.writable == clipped(
                    coverage(
                        regions@.take(index as int),
                        start as int,
                        end as int,
                        Access::Write,
                    ),
                ),
                result.executable == clipped(
                    coverage(
                        regions@.take(index as int),
                        start as int,
                        end as int,
                        Access::Execute,
                    ),
                ),
            decreases regions@.len() - index,
        {
            let region = regions[index];
            let region_end: usize = region.offset.saturating_add(region.size);
            let bytes: usize = lesser_of(end, region_end).saturating_sub(
                greater_of(start, region.offset),
            );
            assert(bytes == overlap(region, start as int, end as int));
            assert(regions@.take(index + 1).drop_last() =~= regions@.take(index as int));
            result.committed = result.committed.saturating_add(bytes);
            if region.readable {
                result.readable = result.readable.saturating_add(bytes);
            }
            if region.writable {
                result.writable = result.writable.saturating_add(bytes);
            }
            if region.executable {
                result.executable = result.executable.saturating_add(bytes);
            }
            index = index + 1;
        }
        assert(regions@.take(index as int) =~= regions@);
        result
    }

    /// Whether enough of a range of the given size is writable.
    pub fn write_is_substantial(&self, section_size: usize) -> (result: bool)
        ensures
            result == substantial(
                self.committed as int,
                self.writable as int,
                section_size as int,
            ),
    {
        if self.committed == 0 || self.writable == 0 {
            return false;
        }
        let unanimous = self.writable >= section_size && self.committed >= section_size;
        let twice: usize = self.writable.saturating_add(self.writable);
        let half = self.writable >= 2 * PAGE_SIZE && twice >= section_size;
        unanimous || half
    }
}

/// The access flags of a section with those added that its memory was seen with.
pub fn recovered_characteristics(
    characteristics: u32,
    regions: &[RegionEvidence],
    start: usize,
    end: usize,
) -> (result: u32)
    ensures
        result == seen_characteristics(characteristics, regions@, start as int, end as int),
{
    let seen = ProtectionCoverage::measure(regions, start, end);
    let mut recovered: u32 = characteristics;
    if seen.executable > 0 {
        recovered = recovered | (IMAGE_SCN_MEM_EXECUTE | IMAGE_SCN_CNT_CODE);
    }
    if seen.readable > 0 {
        recovered = recovered | IMAGE_SCN_MEM_READ;
    }
    if seen.write_is_substantial(end.saturating_sub(start)) {
        recovered = recovered | IMAGE_SCN_MEM_WRITE;
    }
    recovered
}

/// The captured image while its section headers are recovered.
pub ghost struct Recovery {
    pub bytes: Seq<u8>,
    pub changed: bool,
    pub image_end: int,
}

/// The address that a section cannot grow beyond: where the next one starts or the image
/// ends, and the end of memory.
pub open spec fn growth_limit(
    ordered: Seq<SectionModel>,
    image_size: int,
    memory: Seq<u8>,
    index: int,
) -> int {
    lesser(next_start(ordered, index, image_size), memory.len() as int)
}

/// The image with the header of a section that was found longer than declared.
pub open spec fn length_recovered(state: Recovery, section: SectionModel, length: int) -> Result<
    Recovery,
    AppError,
> {
    if length <= section.declared() {
        Ok(state)
    } else if length > u32::MAX {
        Err(AppError::RecoveredSectionTooLarge)
    } else {
        match put_u32(state.bytes, section.header_offset + 8, length as u32) {
            Err(error) => Err(error),
            Ok(bytes) => Ok(
                Recovery {
                    bytes,
                    changed: true,
                    image_end: greater(state.image_end, clipped(section.start() + length)),
                },
            ),
        }
    }
}

/// The image with the header of a section that was seen with more access than declared.
pub open spec fn access_recovered(
    state: Recovery,
    section: SectionModel,
    characteristics: u32,
) -> Result<Recovery, AppError> {
    if characteristics == section.characteristics {
        Ok(state)
    } else {
        match put_u32(state.bytes, section.header_offset + 36, characteristics) {
            Err(error) => Err(error),
            Ok(bytes) => Ok(Recovery { bytes, changed: true, image_end: state.image_end }),
        }
    }
}

/// The image with the header of one section recovered.
pub open spec fn section_recovered(
    state: Recovery,
    section: SectionModel,
    memory: Seq<u8>,
    regions: Seq<RegionEvidence>,
    limit: int,
) -> Result<Recovery, AppError> {
    let start = section.start();
    if start >= limit {
        Ok(state)
    } else {
        let length = expanded_length(memory, regions, start, limit, section.declared());
        match length_recovered(state, section, length) {
            Err(error) => Err(error),
            Ok(next) => access_recovered(
                next,
                section,
                seen_characteristics(
                    section.characteristics,
                    regions,
                    start,
                    lesser(start + length, limit),
                ),
            ),
        }
    }
}

/// The image with the headers of the sections from `index` on recovered.
pub open spec fn sections_recovered(
    state: Recovery,
    ordered: Seq<SectionModel>,
    image_size: int,
    memory: Seq<u8>,
    regions: Seq<RegionEvidence>,
    index: int,
) -> Result<Recovery, AppError>
    decreases ordered.len() - index,
{
    if index >= ordered.len() {
        Ok(state)
    } else {
        match section_recovered(
            state,
            ordered[index],
            memory,
            regions,
            growth_limit(ordered, image_size, memory, index),
        ) {
            Err(error) => Err(error),
            Ok(next) => sections_recovered(next, ordered, image_size, memory, regions, index + 1),
        }
    }
}

/// The image with its declared size grown to where its sections end.
pub open spec fn image_size_recovered(state: Recovery, model: ModelView) -> Result<
    Recovery,
    AppError,
> {
    if state.image_end <= model.headers.image_size {
        Ok(state)
    } else {
        match aligned(
            state.image_end,
            model.headers.section_alignment as int,
            usize::MAX as int,
        ) {
            Err(error) => Err(error),
            Ok(size) => if size > u32::MAX {
                Err(AppError::RecoveredImageTooLarge)
            } else {
                match put_u32(
                    state.bytes,
                    model.headers.size_of_image_offset as int,
                    size as u32,
                ) {
                    Err(error) => Err(error),
                    Ok(bytes) => Ok(Recovery { bytes, changed: true, image_end: state.image_end }),
                }
            },
        }
    }
}

/// The captured image with its section headers brought in line with the memory that was
/// seen, or nothing where they are in line already.
pub open spec fn recovered_headers(
    memory: Seq<u8>,
    model: ModelView,
    regions: Seq<RegionEvidence>,
) -> Result<Option<Seq<u8>>, AppError> {
    if regions.len() == 0 {
        Ok(None)
    } else {
        let initial = Recovery {
            bytes: memory,
            changed: false,
            image_end: model.headers.image_size as int,
        };
        match sections_recovered(
            initial,
            by_address(model.sections),
            model.headers.image_size as int,
            memory,
            regions,
            0,
        ) {
            Err(error) => Err(error),
            Ok(state) => match image_size_recovered(state, model) {
                Err(error) => Err(error),
                Ok(last) => Ok(
                    if last.changed {
                        Some(last.bytes)
                    } else {
                        None
                    },
                ),
            },
        }
    }
}

/// The state of a recovery that has made a copy of the image only once something changed.
pub open spec fn recovery_state(
    recovered: Option<Vec<u8>>,
    memory: Seq<u8>,
    image_end: usize,
) -> Recovery {
    match recovered {
        Some(bytes) => Recovery { bytes: bytes@, changed: true, image_end: image_end as int },
        None => Recovery { bytes: memory, changed: false, image_end: image_end as int },
    }
}

/// Changes a field of the copy, which is made where there is none yet.
fn change_u32(recovered: Option<Vec<u8>>, memory: &[u8], offset: usize, value: u32) -> (result:
    Result<Option<Vec<u8>>, AppError>)
    ensures
        match put_u32(recovery_state(recovered, memory@, 0).bytes, offset as int, value) {
            Ok(bytes) => result matches Ok(Some(found)) && found@ == bytes,
            Err(error) => result matches Err(found) && found == error,
        },
{
    let mut output: Vec<u8> = match recovered {
        Some(bytes) => bytes,
        None => slice_to_vec(memory),
    };
    write_u32(&mut output, offset, value)?;
    Ok(Some(output))
}

/// Recovers the header of one section.
fn recover_section(
    recovered: Option<Vec<u8>>,
    image_end: usize,
    section: &SectionModel,
    memory: &[u8],
    regions: &[RegionEvidence],
    limit: usize,
) -> (result: Result<(Option<Vec<u8>>, usize), AppError>)
    requires
        recovered matches Some(bytes) ==> bytes@.len() == memory@.len(),
    ensures
        match section_recovered(
            recovery_state(recovered, memory@, image_end),
            *section,
            memory@,
            regions@,
            limit as int,
        ) {
            Ok(state) => result matches Ok((bytes, end)) && recovery_state(bytes, memory@, end)
                == state && (bytes matches Some(found) ==> found@.len() == memory@.len()),
            Err(error) => result matches Err(found) && found == error,
        },
{
    let total: usize = memory.len();
    let start: usize = section.virtual_address.0 as usize;
    if start >= limit {
        return Ok((recovered, image_end));
    }
    let declared: usize = section.span() as usize;
    let expanded: usize = expanded_section_length(memory, regions, start, limit, declared);
    let section_end: usize = lesser_of(start.saturating_add(expanded), limit);
    let characteristics: u32 = recovered_characteristics(
        section.characteristics,
        regions,
        start,
        section_end,
    );
    let mut current = recovered;
    let mut end: usize = image_end;
    if expanded > declared {
        if expanded > 0xFFFF_FFFF {
            return Err(AppError::RecoveredSectionTooLarge);
        }
        current = change_u32(
            current,
            memory,
            section.header_offset.saturating_add(8),
            expanded as u32,
        )?;
        end = greater_of(end, start.saturating_add(expanded));
    }
    if characteristics != section.characteristics {
        current = change_u32(
            current,
            memory,
            section.header_offset.saturating_add(36),
            characteristics,
        )?;
    }
    Ok((current, end))
}

/// Brings the section headers in line with the memory that was seen.
pub fn recover_section_headers(
    memory: &[u8],
    model: &PeModel,
    regions: &[RegionEvidence],
) -> (result: Result<Option<Vec<u8>>, AppError>)
    ensures
        match recovered_headers(memory@, model@, regions@) {
            Ok(Some(bytes)) => result matches Ok(Some(found)) && found@ == bytes,
            Ok(None) => result matches Ok(None),
            Err(error) => result matches Err(found) && found == error,
        },
{
    if regions.len() == 0 {
        return Ok(None);
    }
    let sections = sort_by_address(model.sections.as_slice());
    let image_size: usize = model.headers.image_size as usize;
    let mut recovered: Option<Vec<u8>> = None;
    let mut image_end: usize = image_size;
    let mut index: usize = 0;
    let ghost initial = recovery_state(recovered, memory@, image_end);
    let ghost whole = sections_recovered(
        initial,
        sections@,
        image_size as int,
        memory@,
        regions@,
        0,
    );
    while index < sections.len()
        invariant
            index <= sections@.len(),
            sections@ == by_address(model@.sections),
            image_size == model@.headers.image_size,
            initial == (Recovery {
                bytes: memory@,
                changed: false,
                image_end: image_size as int,
            }),
            regions@.len() > 0,
            recovered matches Some(bytes) ==> bytes@.len() == memory@.len(),
            whole == sections_recovered(
                initial,
                sections@,
                image_size as int,
                memory@,
                regions@,
                0,
            ),
            whole == sections_recovered(
                recovery_state(recovered, memory@, image_end),
                sections@,
                image_size as int,
                memory@,
                regions@,
                index as int,
            ),
        decreases sections@.len() - index,
    {
        let next: usize = if index + 1 < sections.len() {
            sections[index + 1].virtual_address.0 as usize
        } else {
            image_size
        };
        let limit: usize = lesser_of(next, memory.len());
        let (bytes, end) = recover_section(
            recovered,
            image_end,
            &sections[index],
            memory,
            regions,
            limit,
        )?;
        recovered = bytes;
        image_end = end;
        index = index + 1;
    }
    if image_end > image_size {
        let size: usize = align_up(image_end, model.headers.section_alignment as usize)?;
        if size > 0xFFFF_FFFF {
            return Err(AppError::RecoveredImageTooLarge);
        }
        recovered = change_u32(
            recovered,
            memory,
            model.headers.size_of_image_offset,
            size as u32,
        )?;
    }
    Ok(recovered)
}

} // verus!
