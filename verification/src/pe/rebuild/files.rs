//! What a rebuilt file keeps of the image, and what its headers say.

use vstd::prelude::*;

use crate::error::AppError;
use crate::pe::align::{
    is_power_of_two, law_rounding_gives_the_next_multiple, lemma_power_of_two_positive,
};
use crate::pe::image::{
    fits, law_fields_read_back, law_writes_leave_other_fields, le_u32, put_u16, put_u32, u16_at,
    u32_at, u64_at,
};
use crate::pe::parse::memory_model;
use crate::pe::rebuild::directories::{
    bad_cleared, directory_stays, directory_written, nothing_cleared, recorded, ClearedView,
};
use crate::pe::rebuild::exception::{function_at, valid_function, valid_functions, RuntimeFunction};
use crate::pe::rebuild::headers::{
    core_written, covering_size, derived_sizes, section_added, sections_added, sections_end,
    DerivedSizes,
};
use crate::pe::rebuild::laws::{describes, law_sections_stand_apart};
use crate::pe::rebuild::recovery::{
    comes_first, in_sequence, law_ordering_is_by_address_then_table, lemma_in_ordered,
    lemma_in_table, lemma_parsed_table, table_read_from,
};
use crate::pe::rebuild::sections::{
    by_address, captured_length, free_name, law_ordering_keeps_every_section, layout_at,
    layouts_from, new_name, output_plan, readable_name, stored_size,
};
use crate::pe::rebuild::source::kept_entry_point;
use crate::pe::rebuild::SectionLayout;
use crate::pe::{ModelView, PeHeaders, PeKind, SectionModel};

verus! {

/// Whether the address belongs to the section at `index`: it lies in memory, behind the start
/// of the section and within the larger of the two sizes that its header gives, and before
/// every section that comes after it. Of sections with one address, all but the last of the
/// table have nothing.
pub open spec fn belongs_to(model: ModelView, memory: Seq<u8>, index: int, address: int) -> bool {
    let section = model.sections[index];
    &&& section.start() <= address < memory.len()
    &&& address < section.start() + section.virtual_size || address < section.start()
        + section.raw_size
    &&& forall|j: int|
        0 <= j < model.sections.len() && j != index ==> (#[trigger] model.sections[j]).start()
            < section.start() || address < model.sections[j].start() || (
        model.sections[j].start() == section.start() && j < index)
}

proof fn lemma_belongs(
    memory: Seq<u8>,
    model: ModelView,
    index: int,
    place: int,
    address: int,
)
    requires
        table_read_from(memory, model),
        in_sequence(by_address(model.sections)),
        0 <= index < model.sections.len(),
        0 <= place < by_address(model.sections).len(),
        by_address(model.sections)[place] == model.sections[index],
        model.sections[index].start() <= address,
    ensures
        belongs_to(model, memory, index, address) <==> address < model.sections[index].start()
            + captured_length(by_address(model.sections), memory, place),
{
    let sections = model.sections;
    let ordered = by_address(sections);
    let section = sections[index];
    if belongs_to(model, memory, index, address) && place + 1 < ordered.len() {
        assert(comes_first(ordered[place], ordered[place + 1]));
        let j = lemma_in_table(sections, place + 1);
        if j < index {
            assert(sections[j].header_offset < sections[index].header_offset);
        }
        assert(address < sections[j].start());
    }
    if address < section.start() + captured_length(ordered, memory, place) {
        assert forall|j: int| 0 <= j < sections.len() && j != index implies (
        #[trigger] sections[j]).start() < section.start() || address < sections[j].start() || (
        sections[j].start() == section.start() && j < index) by {
            let m = lemma_in_ordered(sections, j);
            if j < index {
                assert(sections[j].header_offset < sections[index].header_offset);
            } else {
                assert(sections[index].header_offset < sections[j].header_offset);
            }
            if m < place {
                assert(comes_first(ordered[m], ordered[place]));
            } else {
                if m > place + 1 {
                    assert(comes_first(ordered[place + 1], ordered[m]));
                }
                assert(ordered[place + 1].start() <= ordered[m].start());
            }
        }
    }
}

/// Every section of an image has a layout, and the layout takes in the bytes that belong to
/// the section, all of them and no others. It is stored exactly where one of them is not
/// zero.
pub proof fn law_layouts_take_in_their_sections(memory: Seq<u8>, index: int) -> (place: int)
    requires
        memory.len() <= usize::MAX,
        memory_model(memory) is Ok,
        0 <= index < memory_model(memory)->Ok_0.sections.len(),
    ensures
        ({
            let model = memory_model(memory)->Ok_0;
            let section = model.sections[index];
            output_plan(model, memory) matches Ok(plan) ==> {
                &&& plan.layouts.len() == model.sections.len()
                &&& 0 <= place < plan.layouts.len()
                &&& plan.layouts[place].model == section
                &&& forall|address: int|
                    section.start() <= address ==> (#[trigger] belongs_to(
                        model,
                        memory,
                        index,
                        address,
                    ) <==> address < section.start() + plan.layouts[place].source_length)
                &&& plan.layouts[place].raw_size > 0 <==> exists|address: int|
                    belongs_to(model, memory, index, address) && #[trigger] memory[address] != 0
            }
        }),
{
    let model = memory_model(memory)->Ok_0;
    let section = model.sections[index];
    lemma_parsed_table(memory);
    law_ordering_is_by_address_then_table(model.sections);
    law_ordering_keeps_every_section(model.sections);
    let place = lemma_in_ordered(model.sections, index);
    if let Ok(plan) = output_plan(model, memory) {
        let ordered = by_address(model.sections);
        let alignment = model.headers.file_alignment as int;
        lemma_power_of_two_positive(alignment);
        law_rounding_gives_the_next_multiple(
            crate::pe::rebuild::clipped(model.sections.last().header_offset + 40),
            alignment,
        );
        law_sections_stand_apart(model, memory, plan.header_size);
        let layout = plan.layouts[place];
        assert(describes(plan.layouts, ordered, memory, model.sections.len() as int));
        assert(layout.model == ordered[place]);
        assert forall|address: int| section.start() <= address implies (#[trigger] belongs_to(
            model,
            memory,
            index,
            address,
        ) <==> address < section.start() + layout.source_length) by {
            lemma_belongs(memory, model, index, place, address);
        }
        let length = captured_length(ordered, memory, place);
        if layout.raw_size > 0 {
            let part = memory.subrange(section.start(), section.start() + length);
            let k = choose|k: int| 0 <= k < part.len() && part[k] != 0;
            assert(memory[section.start() + k] != 0);
            assert(belongs_to(model, memory, index, section.start() + k));
        }
        if exists|address: int|
            belongs_to(model, memory, index, address) && #[trigger] memory[address] != 0 {
            let address = choose|address: int|
                belongs_to(model, memory, index, address) && #[trigger] memory[address] != 0;
            let part = memory.subrange(section.start(), section.start() + length);
            assert(part[address - section.start()] != 0);
        }
    }
    place
}

/// The address and the size that a directory slot holds.
pub open spec fn slot_of(bytes: Seq<u8>, headers: PeHeaders, index: int) -> (u32, u32) {
    (
        u32_at(bytes, headers.directories_offset + 8 * index),
        u32_at(bytes, headers.directories_offset + 8 * index + 4),
    )
}

/// Whether the directory lies in the headers, or in what was captured of one section.
pub open spec fn lies_in_image(
    slot: (u32, u32),
    layouts: Seq<SectionLayout>,
    header_size: int,
) -> bool {
    let end = slot.0 + slot.1;
    &&& slot.1 != 0
    &&& end <= header_size || exists|i: int|
        0 <= i < layouts.len() && (#[trigger] layouts[i]).model.virtual_address.0 <= slot.0 && end
            <= layouts[i].model.virtual_address.0 + layouts[i].source_length
}

/// How many of the directories from `from` up to `to` differ between two files.
pub open spec fn slots_changed(
    before: Seq<u8>,
    after: Seq<u8>,
    headers: PeHeaders,
    from: int,
    to: int,
) -> int
    decreases to - from,
{
    if from >= to {
        0
    } else {
        slots_changed(before, after, headers, from + 1, to) + if slot_of(before, headers, from)
            != slot_of(after, headers, from) {
            1int
        } else {
            0
        }
    }
}

proof fn lemma_same_changes(
    left: Seq<u8>,
    right: Seq<u8>,
    after: Seq<u8>,
    headers: PeHeaders,
    from: int,
    to: int,
)
    requires
        forall|i: int|
            from <= i < to ==> #[trigger] slot_of(left, headers, i) == slot_of(right, headers, i),
    ensures
        slots_changed(left, after, headers, from, to) == slots_changed(
            right,
            after,
            headers,
            from,
            to,
        ),
    decreases to - from,
{
    if from < to {
        assert(slot_of(left, headers, from) == slot_of(right, headers, from));
        lemma_same_changes(left, right, after, headers, from + 1, to);
    }
}

proof fn lemma_slot_cleared(output: Seq<u8>, headers: PeHeaders, index: int, other: int)
    requires
        headers.directory_slot(index) == Ok::<Option<int>, AppError>(
            Some(headers.directories_offset + 8 * index),
        ),
    ensures
        directory_written(output, headers, index, 0, 0) matches Ok(bytes) ==> {
            &&& bytes.len() == output.len()
            &&& slot_of(bytes, headers, index) == (0u32, 0u32)
            &&& other != index && fits(output, headers.directories_offset + 8 * other, 8)
                ==> slot_of(bytes, headers, other) == slot_of(output, headers, other)
        },
{
    let slot = headers.directories_offset + 8 * index;
    let field = headers.directories_offset + 8 * other;
    if let Ok(bytes) = directory_written(output, headers, index, 0, 0) {
        let first = put_u32(output, slot, 0)->Ok_0;
        law_fields_read_back(output, slot, 0, 0, 0);
        law_fields_read_back(first, slot + 4, 0, 0, 0);
        law_writes_leave_other_fields(first, slot + 4, le_u32(0), slot);
        if other != index && fits(output, field, 8) {
            law_writes_leave_other_fields(output, slot, le_u32(0), field);
            law_writes_leave_other_fields(output, slot, le_u32(0), field + 4);
            law_writes_leave_other_fields(first, slot + 4, le_u32(0), field);
            law_writes_leave_other_fields(first, slot + 4, le_u32(0), field + 4);
        }
    }
}

/// What becomes of a directory when those from `from` on are looked at.
proof fn lemma_bad_cleared_keeps(
    output: Seq<u8>,
    model: ModelView,
    layouts: Seq<SectionLayout>,
    header_size: int,
    from: int,
    cleared: ClearedView,
    index: int,
)
    requires
        0 <= from <= model.headers.directory_count,
        0 <= index < model.headers.directory_count,
        fits(output, model.headers.directories_offset + 8 * index, 8),
    ensures
        bad_cleared(output, model, layouts, header_size, from, cleared) matches Ok((bytes, after))
            ==> {
            let before = slot_of(output, model.headers, index);
            let slot = slot_of(bytes, model.headers, index);
            &&& bytes.len() == output.len()
            &&& index < from ==> slot == before
            &&& from <= index && index != 4 && index != 5 && before.0 + before.1 <= usize::MAX
                && lies_in_image(before, layouts, header_size) ==> slot == before
            &&& slot == before || slot == (0u32, 0u32)
        },
    decreases model.headers.directory_count - from,
{
    let headers = model.headers;
    if bad_cleared(output, model, layouts, header_size, from, cleared) is Ok && from
        < headers.directory_count {
        let slot = headers.directories_offset + 8 * from;
        let rva = u32_at(output, slot);
        let size = u32_at(output, slot + 4);
        if rva == 0 && size == 0 || directory_stays(
            output,
            model,
            layouts,
            header_size,
            from,
            rva as int,
            size as int,
        ) {
            lemma_bad_cleared_keeps(
                output,
                model,
                layouts,
                header_size,
                from + 1,
                cleared,
                index,
            );
        } else {
            let next = directory_written(output, headers, from, 0, 0)->Ok_0;
            lemma_slot_cleared(output, headers, from, index);
            lemma_bad_cleared_keeps(
                next,
                model,
                layouts,
                header_size,
                from + 1,
                recorded(cleared, from),
                index,
            );
        }
    }
}

proof fn lemma_bad_cleared_counts(
    output: Seq<u8>,
    model: ModelView,
    layouts: Seq<SectionLayout>,
    header_size: int,
    from: int,
    cleared: ClearedView,
)
    requires
        0 <= from <= model.headers.directory_count,
        fits(output, model.headers.directories_offset as int, 8 * model.headers.directory_count),
        0 <= cleared.total,
        cleared.total + (model.headers.directory_count - from) <= usize::MAX,
    ensures
        bad_cleared(output, model, layouts, header_size, from, cleared) matches Ok((bytes, after))
            ==> after.total == cleared.total + slots_changed(
            output,
            bytes,
            model.headers,
            from,
            model.headers.directory_count as int,
        ),
    decreases model.headers.directory_count - from,
{
    let headers = model.headers;
    let count = headers.directory_count as int;
    if bad_cleared(output, model, layouts, header_size, from, cleared) is Ok && from < count {
        let slot = headers.directories_offset + 8 * from;
        let rva = u32_at(output, slot);
        let size = u32_at(output, slot + 4);
        if rva == 0 && size == 0 || directory_stays(
            output,
            model,
            layouts,
            header_size,
            from,
            rva as int,
            size as int,
        ) {
            lemma_bad_cleared_counts(output, model, layouts, header_size, from + 1, cleared);
            lemma_bad_cleared_keeps(
                output,
                model,
                layouts,
                header_size,
                from + 1,
                cleared,
                from,
            );
        } else {
            let next = directory_written(output, headers, from, 0, 0)->Ok_0;
            let more = recorded(cleared, from);
            assert forall|i: int| from + 1 <= i < count implies #[trigger] slot_of(
                next,
                headers,
                i,
            ) == slot_of(output, headers, i) by {
                lemma_slot_cleared(output, headers, from, i);
            }
            lemma_slot_cleared(output, headers, from, from);
            lemma_bad_cleared_counts(next, model, layouts, header_size, from + 1, more);
            lemma_bad_cleared_keeps(next, model, layouts, header_size, from + 1, more, from);
            let bytes = bad_cleared(output, model, layouts, header_size, from, cleared)->Ok_0.0;
            lemma_same_changes(next, output, bytes, headers, from + 1, count);
        }
    }
}

/// Good directories stay: one that lies in the headers or in one section, and is neither a
/// certificate nor a relocation table, keeps its address and size when bad ones are cleared.
/// A directory that changes is emptied, and the count is that of the directories that
/// changed.
pub proof fn law_good_directories_stay(
    output: Seq<u8>,
    model: ModelView,
    layouts: Seq<SectionLayout>,
    header_size: int,
)
    requires
        fits(output, model.headers.directories_offset as int, 8 * model.headers.directory_count),
        output.len() <= usize::MAX,
    ensures
        bad_cleared(output, model, layouts, header_size, 0, nothing_cleared()) matches Ok(
            (bytes, cleared),
        ) ==> {
            &&& forall|index: int|
                0 <= index < model.headers.directory_count ==> {
                    let before = slot_of(output, model.headers, index);
                    let slot = #[trigger] slot_of(bytes, model.headers, index);
                    &&& index != 4 && index != 5 && before.0 + before.1 <= usize::MAX
                        && lies_in_image(before, layouts, header_size) ==> slot == before
                    &&& slot == before || slot == (0u32, 0u32)
                }
            &&& cleared.total == slots_changed(
                output,
                bytes,
                model.headers,
                0,
                model.headers.directory_count as int,
            )
        },
{
    if let Ok((bytes, cleared)) = bad_cleared(
        output,
        model,
        layouts,
        header_size,
        0,
        nothing_cleared(),
    ) {
        assert forall|index: int| 0 <= index < model.headers.directory_count implies {
            let before = slot_of(output, model.headers, index);
            let slot = #[trigger] slot_of(bytes, model.headers, index);
            &&& index != 4 && index != 5 && before.0 + before.1 <= usize::MAX && lies_in_image(
                before,
                layouts,
                header_size,
            ) ==> slot == before
            &&& slot == before || slot == (0u32, 0u32)
        } by {
            lemma_bad_cleared_keeps(
                output,
                model,
                layouts,
                header_size,
                0,
                nothing_cleared(),
                index,
            );
        }
        lemma_bad_cleared_counts(output, model, layouts, header_size, 0, nothing_cleared());
    }
}

/// Whether the runtime function describes code: a range of addresses that begins and ends in
/// executable sections, with unwind data of version one or two in the file.
pub open spec fn describes_code(
    output: Seq<u8>,
    function: RuntimeFunction,
    model: ModelView,
    layouts: Seq<SectionLayout>,
    header_size: int,
) -> bool {
    &&& function.begin < function.end
    &&& model.executable_at(function.begin as int)
    &&& model.executable_at(function.end - 1)
    &&& crate::pe::rebuild::file_offset(function.unwind as int, layouts, header_size) matches Some(
        offset,
    ) && offset < output.len() && (output[offset] % 8 == 1 || output[offset] % 8 == 2)
}

/// The functions that describe code are kept: those among the first entries of a table, all
/// of them, in order, and no others.
pub proof fn law_valid_functions_are_kept(
    output: Seq<u8>,
    model: ModelView,
    layouts: Seq<SectionLayout>,
    header_size: int,
    offset: int,
    count: int,
)
    requires
        0 <= count,
    ensures
        valid_functions(output, model, layouts, header_size, offset, count) == Seq::new(
            count as nat,
            |i: int| function_at(output, offset + 12 * i),
        ).filter(
            |function: RuntimeFunction|
                describes_code(output, function, model, layouts, header_size),
        ),
    decreases count,
{
    reveal(Seq::filter);
    let all = Seq::new(count as nat, |i: int| function_at(output, offset + 12 * i));
    if count > 0 {
        let rest = Seq::new((count - 1) as nat, |i: int| function_at(output, offset + 12 * i));
        law_valid_functions_are_kept(output, model, layouts, header_size, offset, count - 1);
        assert(all.drop_last() =~= rest);
        let function = function_at(output, offset + 12 * (count - 1));
        assert(all.last() == function);
        assert(valid_function(output, function, model, layouts, header_size) == describes_code(
            output,
            function,
            model,
            layouts,
            header_size,
        ));
    }
}

/// The image size that covers every section: no section ends behind it, it is a multiple of
/// the alignment, and it is less than one alignment behind the end of some section.
pub proof fn law_image_size_covers_the_sections(model: ModelView)
    requires
        model.sections.len() > 0,
        covering_size(model) is Ok,
    ensures
        ({
            let size = covering_size(model)->Ok_0;
            &&& forall|i: int|
                0 <= i < model.sections.len() ==> (#[trigger] model.sections[i]).start()
                    + model.sections[i].virtual_size <= size && model.sections[i].start()
                    + model.sections[i].raw_size <= size
            &&& size as int % model.headers.section_alignment as int == 0
            &&& exists|i: int|
                0 <= i < model.sections.len() && size < (#[trigger] model.sections[i]).start()
                    + model.sections[i].declared() + model.headers.section_alignment
        }),
{
    let alignment = model.headers.section_alignment as int;
    lemma_power_of_two_positive(alignment);
    lemma_sections_end(model.sections);
    law_rounding_gives_the_next_multiple(sections_end(model.sections), alignment);
    let i = choose|i: int|
        0 <= i < model.sections.len() && sections_end(model.sections) == (
        #[trigger] model.sections[i]).start() + model.sections[i].declared();
    assert(model.sections[i].start() + model.sections[i].declared() == sections_end(
        model.sections,
    ));
}

proof fn lemma_sections_end(sections: Seq<SectionModel>)
    ensures
        0 <= sections_end(sections),
        forall|i: int|
            0 <= i < sections.len() ==> (#[trigger] sections[i]).start() + sections[i].declared()
                <= sections_end(sections),
        sections.len() > 0 ==> exists|i: int|
            0 <= i < sections.len() && sections_end(sections) == (#[trigger] sections[i]).start()
                + sections[i].declared(),
    decreases sections.len(),
{
    if sections.len() > 0 {
        let rest = sections.drop_last();
        lemma_sections_end(rest);
        assert forall|i: int| 0 <= i < sections.len() implies (#[trigger] sections[i]).start()
            + sections[i].declared() <= sections_end(sections) by {
            if i < rest.len() {
                assert(rest[i] == sections[i]);
            }
        }
        let last = sections.len() - 1;
        if sections_end(sections) == sections[last].start() + sections[last].declared() {
        } else {
            let i = choose|i: int|
                0 <= i < rest.len() && sections_end(rest) == (#[trigger] rest[i]).start()
                    + rest[i].declared();
            assert(sections[i] == rest[i]);
        }
    }
}

/// How much the sections from `index` up to `count` of a table add up to, counting those with
/// the flag by the field at `field` of their entries.
pub open spec fn table_sum(
    output: Seq<u8>,
    table: int,
    flag: u32,
    field: int,
    index: int,
    count: int,
) -> int
    decreases count - index,
{
    if index >= count {
        0
    } else {
        let header = table + 40 * index;
        table_sum(output, table, flag, field, index + 1, count) + if u32_at(output, header + 36)
            & flag != 0 {
            u32_at(output, header + field) as int
        } else {
            0
        }
    }
}

/// Whether the section has code.
pub open spec fn has_code(output: Seq<u8>, header: int) -> bool {
    u32_at(output, header + 36) & 0x20 != 0
}

/// Whether no section with code starts at the start of the image.
pub open spec fn code_behind_start(output: Seq<u8>, table: int, index: int, count: int) -> bool {
    forall|i: int|
        index <= i < count && #[trigger] has_code(output, table + 40 * i) ==> u32_at(
            output,
            table + 40 * i + 12,
        ) != 0
}

proof fn lemma_sections_added(
    sizes: DerivedSizes,
    output: Seq<u8>,
    table: int,
    file_alignment: u32,
    index: int,
    count: int,
)
    requires
        0 <= index,
    ensures
        sections_added(sizes, output, table, file_alignment, index, count) matches Ok(last) ==> {
            &&& last.code == sizes.code + table_sum(output, table, 0x20, 16, index, count)
            &&& last.initialized_data == sizes.initialized_data + table_sum(
                output,
                table,
                0x40,
                16,
                index,
                count,
            )
            &&& code_behind_start(output, table, index, count) ==> {
                &&& sizes.base_of_code != 0 ==> 0 < last.base_of_code <= sizes.base_of_code
                &&& forall|i: int|
                    index <= i < count && #[trigger] has_code(output, table + 40 * i) ==> 0
                        < last.base_of_code <= u32_at(output, table + 40 * i + 12)
            }
            &&& last.base_of_code == sizes.base_of_code || exists|i: int|
                index <= i < count && #[trigger] has_code(output, table + 40 * i)
                    && last.base_of_code == u32_at(output, table + 40 * i + 12)
        },
    decreases count - index,
{
    if index < count && sections_added(sizes, output, table, file_alignment, index, count) is Ok {
        let header = table + 40 * index;
        let next = section_added(sizes, output, header, file_alignment)->Ok_0;
        lemma_sections_added(next, output, table, file_alignment, index + 1, count);
        let last = sections_added(sizes, output, table, file_alignment, index, count)->Ok_0;
        if code_behind_start(output, table, index, count) {
            assert(code_behind_start(output, table, index + 1, count));
        }
        assert(has_code(output, table + 40 * index) == (u32_at(output, header + 36) & 0x20 != 0));
        if last.base_of_code == next.base_of_code && next.base_of_code != sizes.base_of_code {
            assert(has_code(output, table + 40 * index));
            assert(last.base_of_code == u32_at(output, table + 40 * index + 12));
        }
    }
}

/// The fields that sum the section table up do so: the size of code is that of all stored
/// sections with code, the size of initialized data that of all with such data, and the base
/// of code is where the first section with code starts, if none starts the image.
pub proof fn law_derived_sizes_sum_the_table(output: Seq<u8>, model: ModelView)
    ensures
        derived_sizes(output, model) matches Ok(sizes) ==> {
            let table = model.sections[0].header_offset as int;
            let count = u16_at(output, model.headers.nt_offset + 6) as int;
            &&& sizes.code == table_sum(output, table, 0x20, 16, 0, count)
            &&& sizes.initialized_data == table_sum(output, table, 0x40, 16, 0, count)
            &&& code_behind_start(output, table, 0, count) ==> forall|i: int|
                0 <= i < count && #[trigger] has_code(output, table + 40 * i) ==> 0
                    < sizes.base_of_code <= u32_at(output, table + 40 * i + 12)
            &&& sizes.base_of_code == 0 || exists|i: int|
                0 <= i < count && #[trigger] has_code(output, table + 40 * i)
                    && sizes.base_of_code == u32_at(output, table + 40 * i + 12)
        },
{
    if derived_sizes(output, model) is Ok {
        lemma_sections_added(
            DerivedSizes { code: 0, initialized_data: 0, uninitialized_data: 0, base_of_code: 0 },
            output,
            model.sections[0].header_offset as int,
            model.headers.file_alignment,
            0,
            u16_at(output, model.headers.nt_offset + 6) as int,
        );
    }
}

/// Where the NT headers stand behind the DOS header, the first header fields say what they
/// are meant to: the DOS header leads to the NT
/// headers, the base is the address that the image was seen at, and the sizes of the image
/// and of its headers and the number of directories stand in their fields.
pub proof fn law_core_fields_read_back(
    output: Seq<u8>,
    model: ModelView,
    observed_base: u64,
    header_size: int,
)
    requires
        ({
            let optional = model.headers.nt_offset + 24;
            let fixed: int = match model.headers.kind {
                PeKind::Pe32 => 96,
                PeKind::Pe32Plus => 112,
            };
            &&& model.headers.nt_offset >= 0x40
            &&& model.headers.image_base_offset == match model.headers.kind {
                PeKind::Pe32 => optional + 28,
                PeKind::Pe32Plus => optional + 24,
            }
            &&& model.headers.size_of_image_offset == optional + 56
            &&& model.headers.size_of_headers_offset == optional + 60
            &&& model.headers.number_of_directories_offset == optional + fixed - 4
        }),
        0 <= header_size,
    ensures
        core_written(output, model, observed_base, header_size) matches Ok(bytes) ==> {
            let nt = model.headers.nt_offset as int;
            &&& bytes.len() == output.len()
            &&& bytes[0] == 0x4d && bytes[1] == 0x5a
            &&& u32_at(bytes, 0x3c) == nt
            &&& match model.headers.kind {
                PeKind::Pe32 => u32_at(bytes, nt + 52) == observed_base,
                PeKind::Pe32Plus => u64_at(bytes, nt + 48) == observed_base,
            }
            &&& covering_size(model) == Ok::<u32, AppError>(u32_at(bytes, nt + 80))
            &&& u32_at(bytes, nt + 84) == header_size
            &&& u32_at(bytes, model.headers.number_of_directories_offset as int)
                == model.headers.directory_count
        },
{
    if let Ok(bytes) = core_written(output, model, observed_base, header_size) {
        let headers = model.headers;
        let led = crate::pe::rebuild::headers::dos_written(output, model)->Ok_0;
        let marked = put_u16(output, 0, 0x5A4D)->Ok_0;
        let based = crate::pe::rebuild::headers::base_written(led, model, observed_base)->Ok_0;
        let size = covering_size(model)->Ok_0;
        let sized = put_u32(based, headers.size_of_image_offset as int, size)->Ok_0;
        let headed = put_u32(
            sized,
            headers.size_of_headers_offset as int,
            header_size as u32,
        )->Ok_0;
        law_fields_read_back(marked, 0x3c, 0, headers.nt_offset as u32, 0);
        law_fields_read_back(
            led,
            headers.image_base_offset as int,
            0,
            observed_base as u32,
            observed_base,
        );
        law_fields_read_back(based, headers.size_of_image_offset as int, 0, size, 0);
        law_fields_read_back(
            sized,
            headers.size_of_headers_offset as int,
            0,
            header_size as u32,
            0,
        );
        law_fields_read_back(
            headed,
            headers.number_of_directories_offset as int,
            0,
            headers.directory_count as u32,
            0,
        );
        assert(marked[0] == 0x4d && marked[1] == 0x5a);
    }
}

proof fn lemma_layouts_aligned(
    ordered: Seq<SectionModel>,
    memory: Seq<u8>,
    alignment: int,
    index: int,
    raw_offset: int,
    done: Seq<SectionLayout>,
)
    requires
        0 <= index,
        0 <= raw_offset <= usize::MAX,
        memory.len() <= usize::MAX,
        is_power_of_two(alignment),
        raw_offset % alignment == 0,
        forall|i: int|
            0 <= i < done.len() ==> (#[trigger] done[i]).raw_offset as int % alignment == 0
                && done[i].raw_size as int % alignment == 0 && done[i].raw_size
                < done[i].source_length + alignment,
    ensures
        layouts_from(ordered, memory, alignment, index, raw_offset, done) matches Ok(layouts)
            ==> forall|i: int|
            0 <= i < layouts.len() ==> (#[trigger] layouts[i]).raw_offset as int % alignment == 0
                && layouts[i].raw_size as int % alignment == 0 && layouts[i].raw_size
                < layouts[i].source_length + alignment,
    decreases ordered.len() - index,
{
    lemma_power_of_two_positive(alignment);
    if index < ordered.len() {
        if let Ok(raw_size) = stored_size(ordered, memory, alignment, index) {
            let length = captured_length(ordered, memory, index);
            law_rounding_gives_the_next_multiple(length, alignment);
            assert(0int % alignment == 0) by (nonlinear_arith)
                requires
                    alignment > 0,
            ;
            assert((raw_offset + raw_size) % alignment == 0) by {
                vstd::arithmetic::div_mod::lemma_add_mod_noop(raw_offset, raw_size, alignment);
            }
            if raw_offset + raw_size <= usize::MAX {
                lemma_layouts_aligned(
                    ordered,
                    memory,
                    alignment,
                    index + 1,
                    raw_offset + raw_size,
                    done.push(layout_at(ordered, memory, index, raw_offset, raw_size)),
                );
            }
        }
    }
}

/// Sections are stored at multiples of the file alignment and take a multiple of it, less
/// than one more than their captured bytes need; and so do the headers, which take in the
/// whole section table.
pub proof fn law_stored_sections_are_aligned(model: ModelView, memory: Seq<u8>)
    requires
        memory.len() <= usize::MAX,
        output_plan(model, memory) is Ok,
    ensures
        ({
            let plan = output_plan(model, memory)->Ok_0;
            let alignment = model.headers.file_alignment as int;
            &&& plan.header_size % alignment == 0
            &&& crate::pe::rebuild::clipped(model.sections.last().header_offset + 40)
                <= plan.header_size
            &&& forall|i: int|
                0 <= i < plan.layouts.len() ==> (#[trigger] plan.layouts[i]).raw_offset as int
                    % alignment == 0 && plan.layouts[i].raw_size as int % alignment == 0
                    && plan.layouts[i].raw_size < plan.layouts[i].source_length + alignment
        }),
{
    let plan = output_plan(model, memory)->Ok_0;
    let alignment = model.headers.file_alignment as int;
    lemma_power_of_two_positive(alignment);
    law_rounding_gives_the_next_multiple(
        crate::pe::rebuild::clipped(model.sections.last().header_offset + 40),
        alignment,
    );
    lemma_layouts_aligned(
        by_address(model.sections),
        memory,
        alignment,
        0,
        plan.header_size,
        Seq::empty(),
    );
}

/// A section whose name cannot be read gets a new one: `.sec` and its number with two digits,
/// where no other section has that name. One whose name can be read keeps it.
pub proof fn law_unreadable_names_are_replaced(layouts: Seq<SectionLayout>, index: int)
    requires
        0 <= index < layouts.len(),
        index + 1 < 100,
    ensures
        ({
            let number = index + 1;
            let name = [
                0x2eu8,
                0x73,
                0x65,
                0x63,
                (0x30 + number / 10) as u8,
                (0x30 + number % 10) as u8,
                0,
                0,
            ];
            &&& readable_name(layouts[index].model.name@) ==> new_name(layouts, index) is None
            &&& !readable_name(layouts[index].model.name@) && (forall|other: int|
                0 <= other < layouts.len() && other != index ==> (
                #[trigger] layouts[other]).model.name != name) ==> new_name(layouts, index) == Some(
                name,
            )
        }),
{
    reveal_with_fuel(free_name, 2);
    let number = index + 1;
    assert(number / 10 % 10 == number / 10);
    assert(number / 1 % 10 == number % 10);
}

/// Headers from disk are refused where the captured ones name another machine or format, or
/// the image is larger than what was captured. Else the captured entry point is kept where
/// the captured machine or format is that of the headers from disk and the address lies in an
/// executable section.
pub proof fn law_conflicting_headers_are_refused(memory: Seq<u8>, model: ModelView, kind: PeKind)
    requires
        model.headers.kind == kind,
        model.headers.entry_point_offset == model.headers.nt_offset + 40,
        model.headers.nt_offset + 44 <= memory.len(),
    ensures
        ({
            let nt = model.headers.nt_offset as int;
            let machine = u16_at(memory, nt + 4);
            let magic = u16_at(memory, nt + 24);
            let entry = u32_at(memory, nt + 40);
            let (own_machine, own_magic): (u16, u16) = match kind {
                PeKind::Pe32 => (0x014C, 0x010B),
                PeKind::Pe32Plus => (0x8664, 0x020B),
            };
            let other_machine: u16 = match kind {
                PeKind::Pe32 => 0x8664,
                PeKind::Pe32Plus => 0x014C,
            };
            let other_magic: u16 = match kind {
                PeKind::Pe32 => 0x020B,
                PeKind::Pe32Plus => 0x010B,
            };
            kept_entry_point(memory, model) == if model.headers.image_size > memory.len() {
                Err::<Option<u32>, AppError>(AppError::DiskImageTooLarge)
            } else if machine == other_machine {
                Err(AppError::ArchitectureConflict)
            } else if magic == other_magic {
                Err(AppError::FormatConflict)
            } else if (machine == own_machine || magic == own_magic) && model.executable_at(
                entry as int,
            ) {
                Ok(Some(entry))
            } else {
                Ok(None)
            }
        }),
{
}

} // verus!
