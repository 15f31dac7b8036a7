//! What holds of a rebuilt file as a whole.

use vstd::prelude::*;

use crate::pe::align::{law_rounding_gives_the_next_multiple, lemma_power_of_two_positive};
use crate::pe::image::{
    law_fields_read_back, law_writes_leave_other_fields, le_u32, put_u32, u32_at,
};
use crate::pe::rebuild::sections::{
    by_address, captured_length, furthest_end, header_end, law_ordering_keeps_every_section,
    layout_at, layouts_from, name_written, output_plan, placed, section_layouts, section_written,
    sections_written, stored_size, zero_range,
};
use crate::pe::rebuild::{captured_at, clipped, file_offset, section_file_offset, SectionLayout};
use crate::pe::{ModelView, SectionModel};

verus! {

/// Whether stored sections stand behind `base`, one behind the other, with room for the
/// captured bytes.
pub open spec fn apart(layouts: Seq<SectionLayout>, base: int, end: int) -> bool {
    &&& forall|i: int|
        0 <= i < layouts.len() && (#[trigger] layouts[i]).raw_size > 0 ==> base
            <= layouts[i].raw_offset && layouts[i].source_length <= layouts[i].raw_size
            && layouts[i].raw_offset + layouts[i].raw_size <= end
    &&& forall|i: int, j: int|
        0 <= i < j < layouts.len() && (#[trigger] layouts[i]).raw_size > 0 && (
        #[trigger] layouts[j]).raw_size > 0 ==> layouts[i].raw_offset + layouts[i].raw_size
            <= layouts[j].raw_offset
}

/// Whether the layouts are those of the sections, with what was captured of each; a section
/// is stored exactly where a byte other than zero was captured.
pub open spec fn describes(
    layouts: Seq<SectionLayout>,
    ordered: Seq<SectionModel>,
    memory: Seq<u8>,
    count: int,
) -> bool {
    &&& layouts.len() == count
    &&& forall|i: int|
        0 <= i < count ==> (#[trigger] layouts[i]).model == ordered[i] && layouts[i].source_length
            == captured_length(ordered, memory, i) && (layouts[i].raw_size == 0 <==> zero_range(
            memory,
            ordered[i].start(),
            captured_length(ordered, memory, i),
        ) || captured_length(ordered, memory, i) == 0)
}

proof fn lemma_layouts_from(
    ordered: Seq<SectionModel>,
    memory: Seq<u8>,
    alignment: int,
    index: int,
    raw_offset: int,
    done: Seq<SectionLayout>,
    base: int,
)
    requires
        0 <= index <= ordered.len(),
        0 <= base <= raw_offset <= usize::MAX,
        memory.len() <= usize::MAX,
        describes(done, ordered, memory, index),
        apart(done, base, raw_offset),
    ensures
        layouts_from(ordered, memory, alignment, index, raw_offset, done) matches Ok(layouts)
            ==> describes(layouts, ordered, memory, ordered.len() as int) && apart(
            layouts,
            base,
            usize::MAX as int,
        ),
    decreases ordered.len() - index,
{
    if index < ordered.len() {
        if let Ok(raw_size) = stored_size(ordered, memory, alignment, index) {
            let length = captured_length(ordered, memory, index);
            if !(length == 0 || zero_range(memory, ordered[index].start(), length)) {
                lemma_power_of_two_positive(alignment);
                law_rounding_gives_the_next_multiple(length, alignment);
            }
            if raw_offset + raw_size <= usize::MAX {
                lemma_layouts_from(
                    ordered,
                    memory,
                    alignment,
                    index + 1,
                    raw_offset + raw_size,
                    done.push(layout_at(ordered, memory, index, raw_offset, raw_size)),
                    base,
                );
            }
        }
    }
}

/// Sections are stored behind the headers, by address and without overlap, each with room
/// for its captured bytes; none is lost, and those of which only zeros were captured take
/// no room.
pub proof fn law_sections_stand_apart(model: ModelView, memory: Seq<u8>, header_size: int)
    requires
        0 <= header_size <= usize::MAX,
        memory.len() <= usize::MAX,
    ensures
        section_layouts(model, memory, header_size) matches Ok(layouts) ==> describes(
            layouts,
            by_address(model.sections),
            memory,
            model.sections.len() as int,
        ) && apart(layouts, header_size, usize::MAX as int),
{
    law_ordering_keeps_every_section(model.sections);
    lemma_layouts_from(
        by_address(model.sections),
        memory,
        model.headers.file_alignment as int,
        0,
        header_size,
        Seq::empty(),
        header_size,
    );
}

/// Whether every entry of the section table lies in the headers.
pub open spec fn table_in_headers(layouts: Seq<SectionLayout>, header_size: int) -> bool {
    forall|i: int|
        0 <= i < layouts.len() ==> (#[trigger] layouts[i]).model.header_offset + 40 <= header_size
}

/// Whether the captured bytes of the section stand in the file.
pub open spec fn stored(output: Seq<u8>, memory: Seq<u8>, layout: SectionLayout) -> bool {
    forall|k: int|
        0 <= k < layout.source_length ==> output[#[trigger] (layout.raw_offset + k)]
            == memory[layout.model.start() + k]
}

proof fn lemma_sections_written(
    output: Seq<u8>,
    memory: Seq<u8>,
    layouts: Seq<SectionLayout>,
    index: int,
    header_size: int,
)
    requires
        0 <= index <= layouts.len(),
        apart(layouts, header_size, usize::MAX as int),
        table_in_headers(layouts, header_size),
        forall|j: int|
            0 <= j < index && (#[trigger] layouts[j]).raw_size > 0 ==> stored(
                output,
                memory,
                layouts[j],
            ),
        forall|j: int|
            0 <= j < layouts.len() && (#[trigger] layouts[j]).raw_size > 0
                ==> layouts[j].raw_offset + layouts[j].raw_size <= output.len(),
    ensures
        sections_written(output, memory, layouts, index) matches Ok(bytes) ==> bytes.len()
            == output.len() && forall|j: int|
            0 <= j < layouts.len() && (#[trigger] layouts[j]).raw_size > 0 ==> stored(
                bytes,
                memory,
                layouts[j],
            ),
    decreases layouts.len() - index,
{
    if index < layouts.len() {
        if let Ok(bytes) = section_written(output, memory, layouts, index) {
            let layout = layouts[index];
            let header = layout.model.header_offset as int;
            assert(bytes.len() == output.len());
            assert forall|i: int|
                0 <= i < bytes.len() && i >= header_size && !(layout.raw_size > 0
                    && layout.raw_offset <= i < layout.raw_offset
                    + layout.source_length) implies #[trigger] bytes[i] == output[i] by {
                assert(header + 40 <= header_size);
            }
            assert forall|j: int|
                0 <= j <= index && (#[trigger] layouts[j]).raw_size > 0 implies stored(
                bytes,
                memory,
                layouts[j],
            ) by {
                if j < index {
                    assert(stored(output, memory, layouts[j]));
                    assert(layouts[j].raw_size > 0);
                    assert forall|k: int|
                        0 <= k < layouts[j].source_length implies bytes[#[trigger] (
                    layouts[j].raw_offset + k)] == memory[layouts[j].model.start() + k] by {
                        let at = layouts[j].raw_offset + k;
                        assert(layouts[j].raw_offset + layouts[j].raw_size <= output.len());
                        if layout.raw_size > 0 {
                            assert(layouts[j].raw_offset + layouts[j].raw_size
                                <= layouts[index].raw_offset);
                        }
                        assert(bytes[at] == output[at]);
                    }
                }
            }
            lemma_sections_written(bytes, memory, layouts, index + 1, header_size);
        }
    }
}

/// Writing the sections changes no length and leaves the captured bytes of every stored
/// section at its place in the file.
pub proof fn law_written_sections_hold_captured_bytes(
    output: Seq<u8>,
    memory: Seq<u8>,
    layouts: Seq<SectionLayout>,
    header_size: int,
)
    requires
        apart(layouts, header_size, output.len() as int),
        output.len() <= usize::MAX,
        table_in_headers(layouts, header_size),
    ensures
        sections_written(output, memory, layouts, 0) matches Ok(bytes) ==> bytes.len()
            == output.len() && forall|j: int|
            0 <= j < layouts.len() && (#[trigger] layouts[j]).raw_size > 0 ==> stored(
                bytes,
                memory,
                layouts[j],
            ),
{
    lemma_sections_written(output, memory, layouts, 0, header_size);
}

proof fn lemma_furthest_end(layouts: Seq<SectionLayout>, floor: int)
    ensures
        furthest_end(layouts, floor) >= floor,
        forall|i: int|
            0 <= i < layouts.len() ==> clipped(
                (#[trigger] layouts[i]).raw_offset + layouts[i].raw_size,
            ) <= furthest_end(layouts, floor),
    decreases layouts.len(),
{
    if layouts.len() > 0 {
        lemma_furthest_end(layouts.drop_last(), floor);
        assert forall|i: int| 0 <= i < layouts.len() implies clipped(
            (#[trigger] layouts[i]).raw_offset + layouts[i].raw_size,
        ) <= furthest_end(layouts, floor) by {
            if i < layouts.len() - 1 {
                assert(layouts.drop_last()[i] == layouts[i]);
            }
        }
    }
}

/// The rebuilt file has room for its headers and for every stored section.
pub proof fn law_output_holds_sections(model: ModelView, memory: Seq<u8>)
    requires
        memory.len() <= usize::MAX,
    ensures
        output_plan(model, memory) matches Ok(plan) ==> 0 <= plan.header_size <= plan.bytes.len()
            && apart(plan.layouts, plan.header_size, plan.bytes.len() as int),
{
    if let Ok(header_size) = header_end(model) {
        lemma_power_of_two_positive(model.headers.file_alignment as int);
        law_rounding_gives_the_next_multiple(
            clipped(model.sections.last().header_offset + 40),
            model.headers.file_alignment as int,
        );
        law_sections_stand_apart(model, memory, header_size);
        if let Ok(layouts) = section_layouts(model, memory, header_size) {
            lemma_furthest_end(layouts, header_size);
        }
    }
}

/// In a file whose sections do not overlap in memory, the byte that an address had in a
/// stored section stands at the file offset that is computed for the address.
pub proof fn law_addresses_lead_to_captured_bytes(
    output: Seq<u8>,
    memory: Seq<u8>,
    layouts: Seq<SectionLayout>,
    header_size: int,
    index: int,
    rva: int,
)
    requires
        0 <= index < layouts.len(),
        layouts[index].raw_size > 0,
        captured_at(layouts[index], rva),
        rva >= header_size,
        forall|j: int| 0 <= j < index ==> !captured_at(#[trigger] layouts[j], rva),
        stored(output, memory, layouts[index]),
        layouts[index].raw_offset + layouts[index].source_length <= output.len() <= usize::MAX,
    ensures
        file_offset(rva, layouts, header_size) matches Some(offset) && offset < output.len()
            && output[offset] == memory[rva],
{
    lemma_first_holder(layouts, rva, 0, index);
    let k = rva - layouts[index].model.start();
    assert(output[layouts[index].raw_offset + k] == memory[layouts[index].model.start() + k]);
}

proof fn lemma_first_holder(layouts: Seq<SectionLayout>, rva: int, from: int, index: int)
    requires
        0 <= from <= index < layouts.len(),
        captured_at(layouts[index], rva),
        forall|j: int| from <= j < index ==> !captured_at(#[trigger] layouts[j], rva),
    ensures
        section_file_offset(layouts, rva, from) == section_file_offset(layouts, rva, index),
    decreases index - from,
{
    if from < index {
        assert(!captured_at(layouts[from], rva));
        lemma_first_holder(layouts, rva, from + 1, index);
    }
}

/// Whether the entries of two sections in the section table do not overlap.
pub open spec fn entries_differ(left: SectionModel, right: SectionModel) -> bool {
    left.header_offset + 40 <= right.header_offset || right.header_offset + 40
        <= left.header_offset
}

/// Whether the entry of a section overlaps that of none of the sections.
pub open spec fn differs_from_all(sections: Seq<SectionModel>, section: SectionModel) -> bool {
    forall|i: int| 0 <= i < sections.len() ==> entries_differ(#[trigger] sections[i], section)
}

/// Whether no two entries of the section table overlap.
pub open spec fn entries_apart(sections: Seq<SectionModel>) -> bool {
    forall|i: int, j: int|
        0 <= i < j < sections.len() ==> entries_differ(
            #[trigger] sections[i],
            #[trigger] sections[j],
        )
}

proof fn lemma_placed_apart(
    sorted: Seq<SectionModel>,
    section: SectionModel,
    other: SectionModel,
)
    requires
        entries_apart(sorted),
        differs_from_all(sorted, section),
    ensures
        entries_apart(placed(sorted, section)),
        differs_from_all(sorted, other) && entries_differ(section, other) ==> differs_from_all(
            placed(sorted, section),
            other,
        ),
    decreases sorted.len(),
{
    if sorted.len() > 0 && sorted.last().start() > section.start() {
        let rest = sorted.drop_last();
        assert(forall|i: int| 0 <= i < rest.len() ==> #[trigger] rest[i] == sorted[i]);
        lemma_placed_apart(rest, section, other);
        lemma_placed_apart(rest, section, sorted.last());
        assert(differs_from_all(placed(rest, section), sorted.last()));
    }
}

/// Ordering by address keeps entries of the section table apart.
pub proof fn lemma_ordering_keeps_apart(sections: Seq<SectionModel>, other: SectionModel)
    requires
        entries_apart(sections),
    ensures
        entries_apart(by_address(sections)),
        differs_from_all(sections, other) ==> differs_from_all(by_address(sections), other),
    decreases sections.len(),
{
    if sections.len() > 0 {
        let rest = sections.drop_last();
        assert(forall|i: int| 0 <= i < rest.len() ==> #[trigger] rest[i] == sections[i]);
        lemma_ordering_keeps_apart(rest, sections.last());
        lemma_ordering_keeps_apart(rest, other);
        assert(differs_from_all(rest, sections.last())) by {
            assert forall|i: int| 0 <= i < rest.len() implies entries_differ(
                #[trigger] rest[i],
                sections.last(),
            ) by {
                assert(entries_differ(sections[i], sections[sections.len() - 1]));
            }
        }
        lemma_placed_apart(by_address(rest), sections.last(), other);
    }
}

/// Whether no two layouts have entries of the section table that overlap.
pub open spec fn layouts_apart(layouts: Seq<SectionLayout>) -> bool {
    forall|i: int, j: int|
        0 <= i < j < layouts.len() ==> entries_differ(
            (#[trigger] layouts[i]).model,
            (#[trigger] layouts[j]).model,
        )
}

/// Whether the entry of a section says where it stands in the file.
pub open spec fn placed_right(bytes: Seq<u8>, layout: SectionLayout) -> bool {
    let header = layout.model.header_offset as int;
    &&& u32_at(bytes, header + 16) == layout.raw_size
    &&& u32_at(bytes, header + 20) == layout.raw_offset
}

/// Writing a section changes, of the headers, its own entry only.
pub proof fn lemma_section_written(
    output: Seq<u8>,
    memory: Seq<u8>,
    layouts: Seq<SectionLayout>,
    index: int,
    header_size: int,
)
    requires
        0 <= index < layouts.len(),
        apart(layouts, header_size, output.len() as int),
        table_in_headers(layouts, header_size),
        header_size <= output.len(),
    ensures
        section_written(output, memory, layouts, index) matches Ok(bytes) ==> {
            let header = layouts[index].model.header_offset as int;
            &&& bytes.len() == output.len()
            &&& placed_right(bytes, layouts[index])
            &&& forall|p: int|
                0 <= p < header_size && !(header <= p < header + 40) ==> #[trigger] bytes[p]
                    == output[p]
        },
{
    if let Ok(bytes) = section_written(output, memory, layouts, index) {
        let layout = layouts[index];
        let header = layout.model.header_offset as int;
        let named = name_written(output, layouts, index)->Ok_0;
        let sized = put_u32(named, header + 16, layout.raw_size as u32)->Ok_0;
        let set = put_u32(sized, header + 20, layout.raw_offset as u32)->Ok_0;
        law_fields_read_back(named, header + 16, 0, layout.raw_size as u32, 0);
        law_fields_read_back(sized, header + 20, 0, layout.raw_offset as u32, 0);
        law_writes_leave_other_fields(
            sized,
            header + 20,
            le_u32(layout.raw_offset as u32),
            header + 16,
        );
        assert(placed_right(set, layout));
        assert(header + 40 <= header_size);
        assert forall|p: int| 0 <= p < header_size implies #[trigger] bytes[p] == set[p] by {
            if layout.raw_size > 0 {
                assert(header_size <= layout.raw_offset);
            }
        }
        assert(bytes[header + 16] == set[header + 16] && bytes[header + 17] == set[header + 17]
            && bytes[header + 18] == set[header + 18] && bytes[header + 19] == set[header + 19]);
        assert(bytes[header + 20] == set[header + 20] && bytes[header + 21] == set[header + 21]
            && bytes[header + 22] == set[header + 22] && bytes[header + 23] == set[header + 23]);
    }
}

proof fn lemma_entries_written(
    output: Seq<u8>,
    memory: Seq<u8>,
    layouts: Seq<SectionLayout>,
    index: int,
    header_size: int,
)
    requires
        0 <= index <= layouts.len(),
        apart(layouts, header_size, output.len() as int),
        table_in_headers(layouts, header_size),
        layouts_apart(layouts),
        header_size <= output.len(),
        forall|j: int| 0 <= j < index ==> placed_right(output, #[trigger] layouts[j]),
    ensures
        sections_written(output, memory, layouts, index) matches Ok(bytes) ==> forall|j: int|
            0 <= j < layouts.len() ==> placed_right(bytes, #[trigger] layouts[j]),
    decreases layouts.len() - index,
{
    if index < layouts.len() {
        if let Ok(bytes) = section_written(output, memory, layouts, index) {
            lemma_section_written(output, memory, layouts, index, header_size);
            let header = layouts[index].model.header_offset as int;
            assert forall|j: int| 0 <= j < index + 1 implies placed_right(
                bytes,
                #[trigger] layouts[j],
            ) by {
                if j < index {
                    assert(placed_right(output, layouts[j]));
                    assert(entries_differ(layouts[j].model, layouts[index].model));
                    let h = layouts[j].model.header_offset as int;
                    assert(h + 40 <= header_size);
                    assert(bytes[h + 16] == output[h + 16] && bytes[h + 17] == output[h + 17]
                        && bytes[h + 18] == output[h + 18] && bytes[h + 19] == output[h + 19]);
                    assert(bytes[h + 20] == output[h + 20] && bytes[h + 21] == output[h + 21]
                        && bytes[h + 22] == output[h + 22] && bytes[h + 23] == output[h + 23]);
                }
            }
            lemma_entries_written(bytes, memory, layouts, index + 1, header_size);
        }
    }
}

/// Once sections are written, the section table says of each where its bytes stand in the
/// file and how many they are.
pub proof fn law_section_table_says_where_sections_stand(
    output: Seq<u8>,
    memory: Seq<u8>,
    layouts: Seq<SectionLayout>,
    header_size: int,
)
    requires
        apart(layouts, header_size, output.len() as int),
        table_in_headers(layouts, header_size),
        layouts_apart(layouts),
        header_size <= output.len(),
    ensures
        sections_written(output, memory, layouts, 0) matches Ok(bytes) ==> forall|j: int|
            0 <= j < layouts.len() ==> placed_right(bytes, #[trigger] layouts[j]),
{
    lemma_entries_written(output, memory, layouts, 0, header_size);
}

} // verus!
