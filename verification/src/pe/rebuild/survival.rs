//! What the repairs of a file leave alone.

use vstd::prelude::*;

use crate::error::{AppError, ParseError};
use crate::pe::image::{fits, overwrite, put_u32, u16_at, u32_at};
use crate::pe::imports::plan::PlanView;
use crate::pe::imports::ranges::Scene;
use crate::pe::parse::{
    dos_model, dos_target, memory_model, model_at, salvage_from, section_at,
};
use crate::pe::rebuild::directories::{
    bad_cleared, debug_entries_repaired, debug_pointer, debug_repaired, law_bad_directories_go,
    nothing_cleared, ClearedView,
};
use crate::pe::rebuild::exception::{
    exception_repaired, functions_written, law_rewritten_table_reads_back, lemma_table_functions,
    slot_written, table_functions, table_written, RuntimeFunction,
};
use crate::pe::rebuild::headers::{
    checksum_written, derived_sizes, derived_written, entry_written, fields_apart, finished,
    flag_written,
};
use crate::pe::rebuild::import_section::{
    imports_appended, imports_committed, last_header, payload_of, section_header_written,
    zero_filled,
};
use crate::pe::rebuild::laws::{
    apart, entries_apart, entries_differ, law_output_holds_sections, law_sections_stand_apart,
    layouts_apart, lemma_ordering_keeps_apart, stored, table_in_headers,
};
use crate::pe::rebuild::sections::{
    by_address, law_ordering_keeps_every_section, output_plan, sections_written, OutputView,
};
use crate::pe::rebuild::{drafted, file_offset, imports_written, lesser, repaired, SectionLayout};
use crate::pe::{EntryPointRva, ModelView, PeHeaders};

verus! {

/// The table of runtime functions: where it stands in the file and how long it is.
pub open spec fn unwind_span(
    output: Seq<u8>,
    model: ModelView,
    layouts: Seq<SectionLayout>,
    header_size: int,
) -> (int, int) {
    match model.headers.directory_slot(3) {
        Ok(Some(slot)) => match file_offset(u32_at(output, slot) as int, layouts, header_size) {
            Some(offset) => (offset, u32_at(output, slot + 4) as int),
            None => (0, 0),
        },
        _ => (0, 0),
    }
}

/// The table of debug entries: where it stands in the file and how long the part of it is
/// that is repaired.
pub open spec fn debug_span(
    output: Seq<u8>,
    model: ModelView,
    layouts: Seq<SectionLayout>,
    header_size: int,
) -> (int, int) {
    match model.headers.directory_slot(6) {
        Ok(Some(slot)) => match file_offset(u32_at(output, slot) as int, layouts, header_size) {
            Some(table) => (table, 28 * lesser(u32_at(output, slot + 4) as int / 28, 256)),
            None => (0, 0),
        },
        _ => (0, 0),
    }
}

/// Whether the place lies in the span.
pub open spec fn in_span(span: (int, int), place: int) -> bool {
    span.0 <= place < span.0 + span.1
}

/// Whether every header field that is rewritten lies before `end`.
pub open spec fn fields_before(headers: PeHeaders, end: int) -> bool {
    &&& headers.nt_offset + 24 <= end
    &&& headers.size_of_code_offset + 4 <= end
    &&& headers.size_of_initialized_data_offset + 4 <= end
    &&& headers.size_of_uninitialized_data_offset + 4 <= end
    &&& headers.entry_point_offset + 4 <= end
    &&& headers.base_of_code_offset + 4 <= end
    &&& headers.size_of_image_offset + 4 <= end
    &&& headers.size_of_headers_offset + 8 <= end
    &&& headers.dll_characteristics_offset + 2 <= end
    &&& headers.directories_offset + 8 * headers.directory_count <= end
}

#[verifier::rlimit(40)]
#[verifier::spinoff_prover]
proof fn lemma_exception_keeps(
    output: Seq<u8>,
    model: ModelView,
    layouts: Seq<SectionLayout>,
    header_size: int,
    end: int,
)
    requires
        fields_before(model.headers, end),
    ensures
        exception_repaired(output, model, layouts, header_size) matches Ok((bytes, found))
            ==> bytes.len() == output.len() && forall|p: int|
            end <= p < output.len() && !in_span(
                unwind_span(output, model, layouts, header_size),
                p,
            ) ==> #[trigger] bytes[p] == output[p],
{
    if let Ok((bytes, found)) = exception_repaired(output, model, layouts, header_size) {
        if let Ok(Some(slot)) = model.headers.directory_slot(3) {
            let rva = u32_at(output, slot) as int;
            let size = u32_at(output, slot + 4) as int;
            lemma_file_offset_nonnegative(rva, layouts, header_size);
            if let Some(offset) = file_offset(rva, layouts, header_size) {
                let valid = table_functions(output, model, layouts, header_size, offset, size);
                lemma_table_functions(output, model, layouts, header_size, offset, size);
                lemma_functions_keep(output, slot, offset, size, valid);
                assert(bytes == output || functions_written(output, slot, offset, size, valid)
                    == Ok::<Seq<u8>, AppError>(bytes));
                assert(slot + 8 <= end);
            }
        }
    }
}

/// Rewriting a table of runtime functions changes the table and its slot only.
pub proof fn lemma_functions_keep(
    output: Seq<u8>,
    slot: int,
    offset: int,
    size: int,
    valid: Seq<RuntimeFunction>,
)
    requires
        0 <= offset,
        12 * valid.len() <= size,
    ensures
        functions_written(output, slot, offset, size, valid) matches Ok(bytes) ==> bytes.len()
            == output.len() && forall|p: int|
            0 <= p < output.len() && !(offset <= p < offset + size) && !(slot <= p < slot + 8)
                ==> #[trigger] bytes[p] == output[p],
{
    if functions_written(output, slot, offset, size, valid) is Ok {
        law_rewritten_table_reads_back(output, offset, size, valid);
        lemma_slot_keeps(table_written(output, offset, size, valid), slot, valid.len() as int);
    }
}

proof fn lemma_slot_keeps(table: Seq<u8>, slot: int, count: int)
    ensures
        slot_written(table, slot, count) matches Ok(bytes) ==> bytes.len() == table.len()
            && forall|p: int|
            0 <= p < table.len() && !(slot <= p < slot + 8) ==> #[trigger] bytes[p] == table[p],
{
}

/// Repairing debug entries changes their table only.
pub proof fn lemma_debug_keeps(
    output: Seq<u8>,
    layouts: Seq<SectionLayout>,
    header_size: int,
    table: int,
    index: int,
    count: int,
    repaired: int,
)
    requires
        0 <= table,
        0 <= index,
    ensures
        ({
            let bytes = debug_entries_repaired(
                output,
                layouts,
                header_size,
                table,
                index,
                count,
                repaired,
            ).0;
            bytes.len() == output.len() && forall|p: int|
                0 <= p < output.len() && !(table <= p < table + 28 * count) ==> #[trigger] bytes[p]
                    == output[p]
        }),
    decreases count - index,
{
    let entry = table + 28 * index;
    if index < count && fits(output, entry + 20, 8) {
        let pointer = debug_pointer(u32_at(output, entry + 20), layouts, header_size);
        if u32_at(output, entry + 24) == pointer {
            lemma_debug_keeps(output, layouts, header_size, table, index + 1, count, repaired);
        } else {
            lemma_debug_keeps(
                put_u32(output, entry + 24, pointer)->Ok_0,
                layouts,
                header_size,
                table,
                index + 1,
                count,
                repaired + 1,
            );
        }
    }
}

/// File offsets are not negative.
pub proof fn lemma_file_offset_nonnegative(rva: int, layouts: Seq<SectionLayout>, header_size: int)
    requires
        0 <= rva,
    ensures
        file_offset(rva, layouts, header_size) matches Some(offset) ==> 0 <= offset,
{
    lemma_section_offset_nonnegative(rva, layouts, 0);
}

proof fn lemma_section_offset_nonnegative(rva: int, layouts: Seq<SectionLayout>, index: int)
    ensures
        crate::pe::rebuild::section_file_offset(layouts, rva, index) matches Some(offset) ==> 0
            <= offset,
    decreases layouts.len() - index,
{
    if index < layouts.len() {
        lemma_section_offset_nonnegative(rva, layouts, index + 1);
    }
}

proof fn lemma_repairs_keep(
    output: Seq<u8>,
    model: ModelView,
    layouts: Seq<SectionLayout>,
    header_size: int,
    end: int,
)
    requires
        fields_before(model.headers, end),
    ensures
        repaired(output, model, layouts, header_size) matches Ok((bytes, found)) ==> {
            let first = bad_cleared(
                output,
                model,
                layouts,
                header_size,
                0,
                nothing_cleared(),
            )->Ok_0.0;
            let second = exception_repaired(first, model, layouts, header_size)->Ok_0.0;
            &&& bytes.len() == output.len()
            &&& forall|p: int|
                end <= p < output.len() && !in_span(
                    unwind_span(first, model, layouts, header_size),
                    p,
                ) && !in_span(debug_span(second, model, layouts, header_size), p)
                    ==> #[trigger] bytes[p] == output[p]
        },
{
    if let Ok((bytes, found)) = repaired(output, model, layouts, header_size) {
        let first = bad_cleared(
            output,
            model,
            layouts,
            header_size,
            0,
            nothing_cleared(),
        )->Ok_0.0;
        law_bad_directories_go(output, model, layouts, header_size);
        let second = exception_repaired(first, model, layouts, header_size)->Ok_0.0;
        lemma_exception_keeps(first, model, layouts, header_size, end);
        let third = debug_repaired(second, model, layouts, header_size)->Ok_0.0;
        assert(third.len() == second.len() && forall|p: int|
            0 <= p < second.len() && !in_span(debug_span(second, model, layouts, header_size), p)
                ==> #[trigger] third[p] == second[p]) by {
            if let Ok(Some(slot)) = model.headers.directory_slot(6) {
                let rva = u32_at(second, slot) as int;
                let size = u32_at(second, slot + 4) as int;
                lemma_file_offset_nonnegative(rva, layouts, header_size);
                if let Some(table) = file_offset(rva, layouts, header_size) {
                    lemma_debug_keeps(
                        second,
                        layouts,
                        header_size,
                        table,
                        0,
                        lesser(size / 28, 256),
                        0,
                    );
                }
            }
        }
        assert forall|p: int|
            end <= p < output.len() && !in_span(
                unwind_span(first, model, layouts, header_size),
                p,
            ) && !in_span(
                debug_span(second, model, layouts, header_size),
                p,
            ) implies #[trigger] bytes[p] == output[p] by {
            assert(first[p] == output[p]);
            assert(second[p] == first[p]);
            assert(third[p] == second[p]);
        }
    }
}

/// Where the header of a section that is added stands.
pub open spec fn added_header(model: ModelView) -> (int, int) {
    (last_header(model.sections) + 40, 40)
}

proof fn lemma_commit_keeps(
    output: Seq<u8>,
    model: ModelView,
    plan: PlanView,
    virtual_address: u32,
    length: int,
    end: int,
)
    requires
        fields_before(model.headers, end),
    ensures
        imports_committed(output, model, plan, virtual_address, length) matches Ok((bytes, cleared))
            ==> bytes.len() == output.len() && forall|p: int|
            end <= p < output.len() ==> #[trigger] bytes[p] == output[p],
{
}

proof fn lemma_section_header_keeps(
    output: Seq<u8>,
    header: int,
    virtual_address: u32,
    virtual_size: int,
    raw_offset: int,
    raw_size: int,
)
    ensures
        section_header_written(output, header, virtual_address, virtual_size, raw_offset, raw_size)
            matches Ok(bytes) ==> bytes.len() == output.len() && forall|p: int|
            0 <= p < output.len() && !(header <= p < header + 40) ==> #[trigger] bytes[p]
                == output[p],
{
}

proof fn lemma_append_keeps(output: Seq<u8>, model: ModelView, plan: PlanView, end: int)
    requires
        fields_before(model.headers, end),
    ensures
        imports_appended(output, model, plan) matches Ok(appended) ==> output.len()
            <= appended.bytes.len() && forall|p: int|
            end <= p < output.len() && !in_span(added_header(model), p)
                ==> #[trigger] appended.bytes[p] == output[p],
{
    if let Ok(appended) = imports_appended(output, model, plan) {
        if appended.written {
            let header = last_header(model.sections) + 40;
            let image_size = u32_at(output, model.headers.size_of_image_offset as int);
            let virtual_address = crate::pe::align::aligned(
                image_size as int,
                model.headers.section_alignment as int,
                u64::MAX as int,
            )->Ok_0 as u32;
            let payload = payload_of(plan, model.headers.kind, virtual_address)->Ok_0;
            let alignment = model.headers.file_alignment as int;
            crate::pe::align::lemma_power_of_two_positive(alignment);
            crate::pe::align::law_rounding_gives_the_next_multiple(output.len() as int, alignment);
            crate::pe::align::law_rounding_gives_the_next_multiple(payload.len() as int, alignment);
            let raw_offset = crate::pe::align::aligned(
                output.len() as int,
                alignment,
                usize::MAX as int,
            )->Ok_0;
            let raw_size = crate::pe::align::aligned(
                payload.len() as int,
                alignment,
                usize::MAX as int,
            )->Ok_0;
            let filled = overwrite(
                zero_filled(output, raw_offset + raw_size),
                raw_offset,
                payload,
            );
            let headed = section_header_written(
                filled,
                header,
                virtual_address,
                payload.len() as int,
                raw_offset,
                raw_size,
            )->Ok_0;
            lemma_section_header_keeps(
                filled,
                header,
                virtual_address,
                payload.len() as int,
                raw_offset,
                raw_size,
            );
            lemma_commit_keeps(
                headed,
                model,
                plan,
                virtual_address,
                payload.len() as int,
                end,
            );
            assert(appended.bytes == imports_committed(
                headed,
                model,
                plan,
                virtual_address,
                payload.len() as int,
            )->Ok_0.0);
            assert forall|p: int|
                end <= p < output.len() && !in_span(
                    added_header(model),
                    p,
                ) implies #[trigger] appended.bytes[p] == output[p] by {
                assert(filled[p] == output[p]);
                assert(headed[p] == filled[p]);
            }
        }
    }
}

proof fn lemma_imports_keep(
    output: Seq<u8>,
    model: ModelView,
    plan: PlanView,
    cleared: ClearedView,
    end: int,
)
    requires
        fields_before(model.headers, end),
    ensures
        imports_written(output, model, plan, cleared) matches Ok(imports) ==> output.len()
            <= imports.bytes.len() && forall|p: int|
            end <= p < output.len() && !in_span(added_header(model), p)
                ==> #[trigger] imports.bytes[p] == output[p],
{
    lemma_append_keeps(output, model, plan, end);
}

proof fn lemma_entry_keeps(
    output: Seq<u8>,
    model: ModelView,
    entry_point: Option<EntryPointRva>,
    end: int,
)
    requires
        fields_before(model.headers, end),
    ensures
        entry_written(output, model, entry_point) matches Ok(bytes) ==> same_from(
            output,
            bytes,
            end,
        ),
{
}

proof fn lemma_derived_keeps(output: Seq<u8>, model: ModelView, end: int)
    requires
        fields_before(model.headers, end),
    ensures
        derived_written(output, model) matches Ok(bytes) ==> same_from(output, bytes, end),
{
    if let Ok(bytes) = derived_written(output, model) {
        let sizes = derived_sizes(output, model)->Ok_0;
        let first = put_u32(output, model.headers.size_of_code_offset as int, sizes.code)->Ok_0;
        let second = put_u32(
            first,
            model.headers.size_of_initialized_data_offset as int,
            sizes.initialized_data,
        )->Ok_0;
        let third = put_u32(
            second,
            model.headers.size_of_uninitialized_data_offset as int,
            sizes.uninitialized_data,
        )->Ok_0;
        assert(same_from(output, first, end));
        assert(same_from(first, second, end));
        assert(same_from(second, third, end));
        assert(same_from(third, bytes, end));
    }
}

proof fn lemma_flag_keeps(output: Seq<u8>, model: ModelView, end: int)
    requires
        fields_before(model.headers, end),
    ensures
        flag_written(output, model) matches Ok((bytes, added)) ==> same_from(output, bytes, end),
{
}

proof fn lemma_checksum_keeps(output: Seq<u8>, model: ModelView, end: int)
    requires
        fields_before(model.headers, end),
    ensures
        checksum_written(output, model) matches Ok(bytes) ==> same_from(output, bytes, end),
{
    if let Ok(bytes) = checksum_written(output, model) {
        let cleared = put_u32(output, model.headers.size_of_headers_offset + 4, 0)->Ok_0;
        assert(same_from(output, cleared, end));
        assert(same_from(cleared, bytes, end));
    }
}

/// Whether `after` is as long as `before` and has its bytes from `end` on.
pub open spec fn same_from(before: Seq<u8>, after: Seq<u8>, end: int) -> bool {
    before.len() == after.len() && forall|p: int|
        end <= p < before.len() ==> #[trigger] after[p] == before[p]
}

proof fn lemma_finish_keeps(
    output: Seq<u8>,
    model: ModelView,
    entry_point: Option<EntryPointRva>,
    end: int,
)
    requires
        fields_before(model.headers, end),
    ensures
        finished(output, model, entry_point) matches Ok(last) ==> same_from(
            output,
            last.bytes,
            end,
        ),
{
    if let Ok(last) = finished(output, model, entry_point) {
        lemma_entry_keeps(output, model, entry_point, end);
        let entered = entry_written(output, model, entry_point)->Ok_0;
        lemma_derived_keeps(entered, model, end);
        let derived = derived_written(entered, model)->Ok_0;
        lemma_flag_keeps(derived, model, end);
        let (flagged, added) = flag_written(derived, model)->Ok_0;
        lemma_checksum_keeps(flagged, model, end);
        assert forall|p: int| end <= p < output.len() implies #[trigger] last.bytes[p]
            == output[p] by {
            assert(entered[p] == output[p]);
            assert(derived[p] == entered[p]);
            assert(flagged[p] == derived[p]);
        }
    }
}

/// The captured bytes of every stored section stand in the finished file, at the place of
/// the section, but for the tables that repairs rewrite: those of runtime functions and of
/// debug entries, and the header of an added section.
pub proof fn law_captured_bytes_survive(
    output: OutputView,
    scene: Scene,
    model: ModelView,
    entry_point: Option<EntryPointRva>,
    index: int,
    k: int,
)
    requires
        0 <= output.header_size <= output.bytes.len() <= usize::MAX,
        apart(output.layouts, output.header_size, output.bytes.len() as int),
        table_in_headers(output.layouts, output.header_size),
        fields_before(model.headers, output.header_size),
        0 <= index < output.layouts.len(),
        output.layouts[index].raw_size > 0,
        0 <= k < output.layouts[index].source_length,
        drafted(output, scene, model) is Ok,
    ensures
        ({
            let layout = output.layouts[index];
            let place = layout.raw_offset + k;
            let headed = crate::pe::rebuild::headers::core_written(
                output.bytes,
                model,
                scene.base,
                output.header_size,
            )->Ok_0;
            let filled = sections_written(headed, scene.memory, output.layouts, 0)->Ok_0;
            let first = bad_cleared(
                filled,
                model,
                output.layouts,
                output.header_size,
                0,
                nothing_cleared(),
            )->Ok_0.0;
            let second = exception_repaired(
                first,
                model,
                output.layouts,
                output.header_size,
            )->Ok_0.0;
            let draft = drafted(output, scene, model)->Ok_0;
            finished(draft.bytes, model, entry_point) matches Ok(last) ==> in_span(
                unwind_span(first, model, output.layouts, output.header_size),
                place,
            ) || in_span(
                debug_span(second, model, output.layouts, output.header_size),
                place,
            ) || in_span(added_header(model), place) || (place < last.bytes.len()
                && last.bytes[place] == scene.memory[layout.model.start() + k])
        }),
{
    let layout = output.layouts[index];
    let place = layout.raw_offset + k;
    let end = output.header_size;
    let headed = crate::pe::rebuild::headers::core_written(
        output.bytes,
        model,
        scene.base,
        output.header_size,
    )->Ok_0;
    let filled = sections_written(headed, scene.memory, output.layouts, 0)->Ok_0;
    assert(headed.len() == output.bytes.len());
    crate::pe::rebuild::laws::law_written_sections_hold_captured_bytes(
        headed,
        scene.memory,
        output.layouts,
        end,
    );
    assert(stored(filled, scene.memory, layout));
    assert(filled[layout.raw_offset + k] == scene.memory[layout.model.start() + k]);
    lemma_repairs_keep(filled, model, output.layouts, end, end);
    let (mended, repairs) = repaired(filled, model, output.layouts, end)->Ok_0;
    let draft = drafted(output, scene, model)->Ok_0;
    lemma_imports_keep(mended, model, draft.plan, repairs.cleared, end);
    lemma_finish_keeps(draft.bytes, model, entry_point, end);
    assert(place < output.bytes.len());
    if let Ok(last) = finished(draft.bytes, model, entry_point) {
        assert(end <= place < mended.len());
        assert(last.bytes[place] == draft.bytes[place]);
    }
}

/// Where the NT headers stand that the structure was read from.
pub proof fn lemma_model_place(bytes: Seq<u8>) -> (place: (int, bool))
    requires
        memory_model(bytes) is Ok,
    ensures
        0 <= place.0,
        model_at(bytes, place.0, place.1) == memory_model(bytes),
{
    match dos_model(bytes) {
        Ok(_) => (dos_target(bytes)->Ok_0, false),
        Err(error) => (lemma_salvage_place(bytes, 0, error), true),
    }
}

proof fn lemma_salvage_place(bytes: Seq<u8>, offset: int, otherwise: ParseError) -> (place: int)
    requires
        0 <= offset,
        salvage_from(bytes, offset, otherwise) is Ok,
    ensures
        0 <= place,
        model_at(bytes, place, true) == salvage_from(bytes, offset, otherwise),
    decreases 0x1_0004 - offset,
{
    match model_at(bytes, offset, true) {
        Ok(_) => offset,
        Err(_) => lemma_salvage_place(bytes, offset + 4, otherwise),
    }
}

/// In a file that was planned from a captured image every header field and every entry of
/// the section table lies in the headers, entries do not overlap, nor do the fields that are
/// written last, and stored sections stand behind the headers, one behind the other, inside
/// the file.
pub proof fn law_planned_files_are_well_formed(source: Seq<u8>)
    requires
        source.len() <= usize::MAX,
        memory_model(source) is Ok,
    ensures
        ({
            let model = memory_model(source)->Ok_0;
            output_plan(model, source) matches Ok(plan) ==> {
                &&& fields_before(model.headers, plan.header_size)
                &&& fields_apart(model.headers)
                &&& table_in_headers(plan.layouts, plan.header_size)
                &&& layouts_apart(plan.layouts)
                &&& 0 <= plan.header_size <= plan.bytes.len()
                &&& apart(plan.layouts, plan.header_size, plan.bytes.len() as int)
            }
        }),
{
    let model = memory_model(source)->Ok_0;
    if let Ok(plan) = output_plan(model, source) {
        let (nt, salvaged) = lemma_model_place(source);
        law_output_holds_sections(model, source);
        let count = u16_at(source, nt + 6) as int;
        let table = nt + 24 + u16_at(source, nt + 20);
        assert(model.sections.len() == count);
        assert(model.sections.last() == section_at(source, table + 40 * (count - 1)));
        assert(model.sections.last().header_offset == table + 40 * (count - 1));
        let alignment = model.headers.file_alignment as int;
        crate::pe::align::lemma_power_of_two_positive(alignment);
        crate::pe::align::law_rounding_gives_the_next_multiple(table + 40 * count, alignment);
        assert(table + 40 * count <= plan.header_size);
        law_sections_stand_apart(model, source, plan.header_size);
        law_ordering_keeps_every_section(model.sections);
        assert forall|i: int| 0 <= i < plan.layouts.len() implies (
        #[trigger] plan.layouts[i]).model.header_offset + 40 <= plan.header_size by {
            let ordered = by_address(model.sections);
            let section = ordered[i];
            assert(plan.layouts[i].model == section);
            broadcast use vstd::seq_lib::group_to_multiset_ensures;

            assert(ordered.to_multiset().count(section) > 0);
            assert(model.sections.to_multiset().count(section) > 0);
            assert(model.sections.contains(section));
            let j: int = choose|j: int|
                0 <= j < model.sections.len() && model.sections[j] == section;
            assert(model.sections[j] == section_at(source, table + 40 * j));
        }
        assert(entries_apart(model.sections)) by {
            assert forall|i: int, j: int| 0 <= i < j < model.sections.len() implies entries_differ(
                #[trigger] model.sections[i],
                #[trigger] model.sections[j],
            ) by {
                assert(model.sections[i] == section_at(source, table + 40 * i));
                assert(model.sections[j] == section_at(source, table + 40 * j));
            }
        }
        lemma_ordering_keeps_apart(model.sections, model.sections[0]);
        assert forall|i: int, j: int| 0 <= i < j < plan.layouts.len() implies entries_differ(
            (#[trigger] plan.layouts[i]).model,
            (#[trigger] plan.layouts[j]).model,
        ) by {
            let ordered = by_address(model.sections);
            assert(plan.layouts[i].model == ordered[i]);
            assert(plan.layouts[j].model == ordered[j]);
            assert(entries_differ(ordered[i], ordered[j]));
        }
    }
}

} // verus!
