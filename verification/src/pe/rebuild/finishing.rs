//! What holds of a file once it is repaired and finished.

use vstd::prelude::*;

use crate::error::AppError;
use crate::pe::image::{fits, law_fields_read_back, le_u32, put_u16, put_u32, u16_at, u32_at};
use crate::pe::imports::plan::PlanView;
use crate::pe::imports::plan_of;
use crate::pe::imports::ranges::Scene;
use crate::pe::rebuild::appended::law_added_imports_are_declared;
use crate::pe::rebuild::directories::{
    bad_cleared, base_fixed, debug_repaired, law_bad_directories_go,
    law_debug_entries_point_into_the_file, debug_entry_right, nothing_cleared, settled,
    ClearedView,
};
use crate::pe::rebuild::exception::{
    exception_repaired, functions_written, lemma_table_functions, table_functions,
};
use crate::pe::rebuild::files::{
    law_core_fields_read_back, law_derived_sizes_sum_the_table, slot_of, table_sum,
};
use crate::pe::rebuild::headers::{
    checksum, checksum_written, core_written, derived_sizes, derived_written, entry_written, fields_apart,
    finished, flag_written, law_checksum_is_that_of_the_file, sizes_written,
};
use crate::pe::rebuild::import_section::{imports_appended, last_header, payload_of};
use crate::pe::rebuild::laws::{apart, lemma_section_written, table_in_headers};
use crate::pe::rebuild::sections::{section_written, sections_written, OutputView};
use crate::pe::rebuild::survival::{
    debug_span, fields_before, lemma_debug_keeps, lemma_file_offset_nonnegative,
    lemma_functions_keep, unwind_span,
};
use crate::pe::rebuild::{drafted, file_offset, imports_written, lesser, repaired, SectionLayout};
use crate::pe::{EntryPointRva, ModelView, PeHeaders, PeKind};

verus! {

/// Whether the place is one of the fields that are written last: the flags of the file, the
/// sums over the section table, the entry point, the base of code and the checksum.
pub open spec fn last_field(headers: PeHeaders, place: int) -> bool {
    let optional = headers.nt_offset + 24;
    ||| optional - 2 <= place < optional
    ||| optional + 4 <= place < optional + 24
    ||| optional + 64 <= place < optional + 68
}

proof fn lemma_finished_frame(
    output: Seq<u8>,
    model: ModelView,
    entry_point: Option<EntryPointRva>,
)
    requires
        fields_apart(model.headers),
    ensures
        finished(output, model, entry_point) matches Ok(last) ==> last.bytes.len() == output.len()
            && forall|p: int|
            0 <= p < output.len() && !last_field(model.headers, p) ==> #[trigger] last.bytes[p]
                == output[p],
{
    if let Ok(last) = finished(output, model, entry_point) {
        let entered = entry_written(output, model, entry_point)->Ok_0;
        let sizes = derived_sizes(entered, model)->Ok_0;
        let derived = derived_written(entered, model)->Ok_0;
        let first = put_u32(entered, model.headers.size_of_code_offset as int, sizes.code)->Ok_0;
        let second = put_u32(
            first,
            model.headers.size_of_initialized_data_offset as int,
            sizes.initialized_data,
        )->Ok_0;
        let third = put_u32(
            second,
            model.headers.size_of_uninitialized_data_offset as int,
            sizes.uninitialized_data,
        )->Ok_0;
        let flagged = flag_written(derived, model)->Ok_0.0;
        let field = model.headers.size_of_headers_offset + 4;
        let cleared = put_u32(flagged, field, 0)->Ok_0;
        assert forall|p: int| 0 <= p < output.len() && !last_field(model.headers, p) implies
            #[trigger] last.bytes[p] == output[p] by {
            assert(entered[p] == output[p]);
            assert(first[p] == entered[p]);
            assert(second[p] == first[p]);
            assert(third[p] == second[p]);
            assert(derived[p] == third[p]);
            assert(flagged[p] == derived[p]);
            assert(cleared[p] == flagged[p]);
        }
    }
}

proof fn lemma_table_sum_same(
    left: Seq<u8>,
    right: Seq<u8>,
    table: int,
    flag: u32,
    field: int,
    index: int,
    count: int,
)
    requires
        0 <= table,
        0 <= index,
        0 <= field <= 36,
        table + 40 * count <= left.len(),
        left.len() == right.len(),
        forall|p: int| table <= p < left.len() ==> #[trigger] right[p] == left[p],
    ensures
        table_sum(left, table, flag, field, index, count) == table_sum(
            right,
            table,
            flag,
            field,
            index,
            count,
        ),
    decreases count - index,
{
    if index < count {
        let h = table + 40 * index;
        let f = h + field;
        assert(right[h + 36] == left[h + 36] && right[h + 37] == left[h + 37] && right[h + 38]
            == left[h + 38] && right[h + 39] == left[h + 39]);
        assert(right[f] == left[f] && right[f + 1] == left[f + 1] && right[f + 2] == left[f + 2]
            && right[f + 3] == left[f + 3]);
        lemma_table_sum_same(left, right, table, flag, field, index + 1, count);
    }
}

proof fn lemma_sizes_read_back(
    output: Seq<u8>,
    model: ModelView,
    sizes: crate::pe::rebuild::headers::DerivedSizes,
)
    requires
        fields_apart(model.headers),
    ensures
        sizes_written(output, model, sizes) matches Ok(bytes) ==> {
            let optional = model.headers.nt_offset + 24;
            &&& bytes.len() == output.len()
            &&& u32_at(bytes, optional + 4) == sizes.code
            &&& u32_at(bytes, optional + 8) == sizes.initialized_data
            &&& u32_at(bytes, optional + 12) == sizes.uninitialized_data
            &&& u32_at(bytes, optional + 20) == sizes.base_of_code
        },
{
    if let Ok(bytes) = sizes_written(output, model, sizes) {
        let optional = model.headers.nt_offset + 24;
        let first = put_u32(output, optional + 4, sizes.code)->Ok_0;
        let second = put_u32(first, optional + 8, sizes.initialized_data)->Ok_0;
        let third = put_u32(second, optional + 12, sizes.uninitialized_data)->Ok_0;
        law_fields_read_back(output, optional + 4, 0, sizes.code, 0);
        law_fields_read_back(first, optional + 8, 0, sizes.initialized_data, 0);
        law_fields_read_back(second, optional + 12, 0, sizes.uninitialized_data, 0);
        law_fields_read_back(third, optional + 20, 0, sizes.base_of_code, 0);
    }
}

/// The headers of a finished file are right: its checksum is that of its bytes with zero in
/// the field's place, it has the flag of an executable image, and its sizes of code and of
/// initialized data are the sums over its own section table. No other byte has changed.
pub proof fn law_finished_headers_are_right(
    output: Seq<u8>,
    model: ModelView,
    entry_point: Option<EntryPointRva>,
)
    requires
        fields_apart(model.headers),
        model.sections.len() > 0,
        model.headers.nt_offset + 92 <= model.sections[0].header_offset,
        model.sections[0].header_offset + 40 * u16_at(output, model.headers.nt_offset + 6)
            <= output.len(),
    ensures
        finished(output, model, entry_point) matches Ok(last) ==> {
            let nt = model.headers.nt_offset as int;
            let optional = nt + 24;
            let table = model.sections[0].header_offset as int;
            let count = u16_at(last.bytes, nt + 6) as int;
            &&& last.bytes.len() == output.len()
            &&& count == u16_at(output, nt + 6)
            &&& checksum(put_u32(last.bytes, optional + 64, 0)->Ok_0) == Ok::<u32, AppError>(
                u32_at(last.bytes, optional + 64),
            )
            &&& u16_at(last.bytes, nt + 22) & 0x0002 != 0
            &&& last.executable_flag_added == (u16_at(output, nt + 22) & 0x0002 == 0)
            &&& u32_at(last.bytes, optional + 4) == table_sum(
                last.bytes,
                table,
                0x20,
                16,
                0,
                count,
            )
            &&& u32_at(last.bytes, optional + 8) == table_sum(
                last.bytes,
                table,
                0x40,
                16,
                0,
                count,
            )
            &&& u32_at(last.bytes, optional + 16) == last.entry_point
            &&& forall|p: int|
                0 <= p < output.len() && !last_field(model.headers, p) ==> #[trigger] last.bytes[p]
                    == output[p]
        },
{
    if finished(output, model, entry_point) is Ok {
        lemma_finished_frame(output, model, entry_point);
        lemma_finished_sums(output, model, entry_point);
        lemma_finished_flag(output, model, entry_point);
        let nt = model.headers.nt_offset as int;
        let bytes = finished(output, model, entry_point)->Ok_0.bytes;
        assert(bytes[nt + 6] == output[nt + 6] && bytes[nt + 7] == output[nt + 7]);
        let entered = entry_written(output, model, entry_point)->Ok_0;
        let derived = derived_written(entered, model)->Ok_0;
        law_checksum_is_that_of_the_file(flag_written(derived, model)->Ok_0.0, model);
    }
}

proof fn lemma_entered(output: Seq<u8>, model: ModelView, entry_point: Option<EntryPointRva>)
    requires
        fields_apart(model.headers),
    ensures
        entry_written(output, model, entry_point) matches Ok(entered) ==> entered.len()
            == output.len() && forall|p: int|
            0 <= p < output.len() && !(model.headers.nt_offset + 40 <= p < model.headers.nt_offset
                + 44) ==> #[trigger] entered[p] == output[p],
{
}

proof fn lemma_finished_sums(
    output: Seq<u8>,
    model: ModelView,
    entry_point: Option<EntryPointRva>,
)
    requires
        fields_apart(model.headers),
        model.sections.len() > 0,
        model.headers.nt_offset + 92 <= model.sections[0].header_offset,
        model.sections[0].header_offset + 40 * u16_at(output, model.headers.nt_offset + 6)
            <= output.len(),
        finished(output, model, entry_point) is Ok,
    ensures
        ({
            let bytes = finished(output, model, entry_point)->Ok_0.bytes;
            let optional = model.headers.nt_offset + 24;
            let table = model.sections[0].header_offset as int;
            let count = u16_at(output, model.headers.nt_offset + 6) as int;
            &&& u32_at(bytes, optional + 4) == table_sum(bytes, table, 0x20, 16, 0, count)
            &&& u32_at(bytes, optional + 8) == table_sum(bytes, table, 0x40, 16, 0, count)
        }),
{
    let nt = model.headers.nt_offset as int;
    let table = model.sections[0].header_offset as int;
    let count = u16_at(output, nt + 6) as int;
    let bytes = finished(output, model, entry_point)->Ok_0.bytes;
    lemma_finished_frame(output, model, entry_point);
    lemma_entered(output, model, entry_point);
    let entered = entry_written(output, model, entry_point)->Ok_0;
    assert(entered[nt + 6] == output[nt + 6] && entered[nt + 7] == output[nt + 7]);
    assert(u16_at(entered, nt + 6) == count);
    law_derived_sizes_sum_the_table(entered, model);
    let derived = derived_written(entered, model)->Ok_0;
    lemma_sizes_read_back(entered, model, derived_sizes(entered, model)->Ok_0);
    let flagged = flag_written(derived, model)->Ok_0.0;
    lemma_flag_set(derived, flagged, bytes, model);
    assert forall|p: int| table <= p < output.len() implies #[trigger] bytes[p] == entered[p] by {
        assert(bytes[p] == output[p]);
    }
    lemma_table_sum_same(entered, bytes, table, 0x20, 16, 0, count);
    lemma_table_sum_same(entered, bytes, table, 0x40, 16, 0, count);
}

proof fn lemma_finished_flag(
    output: Seq<u8>,
    model: ModelView,
    entry_point: Option<EntryPointRva>,
)
    requires
        fields_apart(model.headers),
        finished(output, model, entry_point) is Ok,
    ensures
        ({
            let last = finished(output, model, entry_point)->Ok_0;
            let nt = model.headers.nt_offset as int;
            &&& u16_at(last.bytes, nt + 22) & 0x0002 != 0
            &&& last.executable_flag_added == (u16_at(output, nt + 22) & 0x0002 == 0)
        }),
{
    let nt = model.headers.nt_offset as int;
    let last = finished(output, model, entry_point)->Ok_0;
    lemma_entered(output, model, entry_point);
    let entered = entry_written(output, model, entry_point)->Ok_0;
    let derived = derived_written(entered, model)->Ok_0;
    let sizes = derived_sizes(entered, model)->Ok_0;
    let first = put_u32(entered, nt + 28, sizes.code)->Ok_0;
    let second = put_u32(first, nt + 32, sizes.initialized_data)->Ok_0;
    let third = put_u32(second, nt + 36, sizes.uninitialized_data)->Ok_0;
    let flagged = flag_written(derived, model)->Ok_0.0;
    lemma_flag_set(derived, flagged, last.bytes, model);
    assert(first[nt + 22] == entered[nt + 22] && first[nt + 23] == entered[nt + 23]);
    assert(second[nt + 22] == first[nt + 22] && second[nt + 23] == first[nt + 23]);
    assert(third[nt + 22] == second[nt + 22] && third[nt + 23] == second[nt + 23]);
    assert(derived[nt + 22] == third[nt + 22] && derived[nt + 23] == third[nt + 23]);
    assert(entered[nt + 22] == output[nt + 22] && entered[nt + 23] == output[nt + 23]);
}

proof fn lemma_flag_set(derived: Seq<u8>, flagged: Seq<u8>, bytes: Seq<u8>, model: ModelView)
    requires
        fields_apart(model.headers),
        flag_written(derived, model) matches Ok((found, added)) && found == flagged,
        checksum_written(flagged, model) == Ok::<Seq<u8>, AppError>(bytes),
    ensures
        ({
            let nt = model.headers.nt_offset as int;
            &&& u16_at(bytes, nt + 22) & 0x0002 != 0
            &&& flag_written(derived, model)->Ok_0.1 == (u16_at(derived, nt + 22) & 0x0002 == 0)
            &&& u32_at(bytes, nt + 28) == u32_at(derived, nt + 28)
            &&& u32_at(bytes, nt + 32) == u32_at(derived, nt + 32)
        }),
{
    let nt = model.headers.nt_offset as int;
    let flags = u16_at(derived, nt + 22);
    assert((flags | 0x0002u16) & 0x0002u16 != 0) by (bit_vector);
    law_fields_read_back(derived, nt + 22, flags | 0x0002u16, 0, 0);
    let cleared = put_u32(flagged, nt + 88, 0)->Ok_0;
    assert forall|p: int| 0 <= p < nt + 88 && p < flagged.len() implies #[trigger] bytes[p]
        == flagged[p] by {
        assert(cleared[p] == flagged[p]);
    }
    assert(bytes[nt + 22] == flagged[nt + 22] && bytes[nt + 23] == flagged[nt + 23]);
    assert(u16_at(bytes, nt + 22) == u16_at(flagged, nt + 22));
    assert forall|p: int| nt + 24 <= p < nt + 88 && p < flagged.len() implies #[trigger] bytes[p]
        == derived[p] by {
        assert(bytes[p] == flagged[p]);
    }
    assert(bytes[nt + 28] == derived[nt + 28] && bytes[nt + 29] == derived[nt + 29] && bytes[nt
        + 30] == derived[nt + 30] && bytes[nt + 31] == derived[nt + 31]);
    assert(bytes[nt + 32] == derived[nt + 32] && bytes[nt + 33] == derived[nt + 33] && bytes[nt
        + 34] == derived[nt + 34] && bytes[nt + 35] == derived[nt + 35]);
}

/// What a file is after each repair: without bad directories, and then without invalid
/// runtime functions.
pub open spec fn repair_steps(
    output: Seq<u8>,
    model: ModelView,
    layouts: Seq<SectionLayout>,
    header_size: int,
) -> (Seq<u8>, Seq<u8>) {
    let first = bad_cleared(output, model, layouts, header_size, 0, nothing_cleared())->Ok_0.0;
    (first, exception_repaired(first, model, layouts, header_size)->Ok_0.0)
}

proof fn lemma_exception_keeps_headers(
    output: Seq<u8>,
    model: ModelView,
    layouts: Seq<SectionLayout>,
    header_size: int,
)
    requires
        fields_before(model.headers, header_size),
        unwind_span(output, model, layouts, header_size).1 > 0 ==> unwind_span(
            output,
            model,
            layouts,
            header_size,
        ).0 >= header_size,
    ensures
        exception_repaired(output, model, layouts, header_size) matches Ok((bytes, found)) ==> {
            let slot = model.headers.directories_offset + 24;
            &&& bytes.len() == output.len()
            &&& forall|p: int|
                0 <= p < header_size && p < output.len() && !(slot <= p < slot + 8)
                    ==> #[trigger] bytes[p] == output[p]
        },
{
    if let Ok((bytes, found)) = exception_repaired(output, model, layouts, header_size) {
        if let Ok(Some(slot)) = model.headers.directory_slot(3) {
            let rva = u32_at(output, slot) as int;
            let size = u32_at(output, slot + 4) as int;
            lemma_file_offset_nonnegative(rva, layouts, header_size);
            if let Some(offset) = file_offset(rva, layouts, header_size) {
                let valid = table_functions(output, model, layouts, header_size, offset, size);
                lemma_table_functions(output, model, layouts, header_size, offset, size);
                lemma_functions_keep(output, slot, offset, size, valid);
                assert(bytes == output || functions_written(output, slot, offset, size, valid)
                    == Ok::<Seq<u8>, AppError>(bytes));
            }
        }
    }
}

proof fn lemma_debug_keeps_headers(
    output: Seq<u8>,
    model: ModelView,
    layouts: Seq<SectionLayout>,
    header_size: int,
)
    requires
        debug_span(output, model, layouts, header_size).1 > 0 ==> debug_span(
            output,
            model,
            layouts,
            header_size,
        ).0 >= header_size,
    ensures
        debug_repaired(output, model, layouts, header_size) matches Ok((bytes, entries)) ==> {
            &&& bytes.len() == output.len()
            &&& forall|p: int|
                0 <= p < header_size && p < output.len() ==> #[trigger] bytes[p] == output[p]
        },
{
    if debug_repaired(output, model, layouts, header_size) is Ok {
        if let Ok(Some(slot)) = model.headers.directory_slot(6) {
            let rva = u32_at(output, slot) as int;
            let size = u32_at(output, slot + 4) as int;
            lemma_file_offset_nonnegative(rva, layouts, header_size);
            if let Some(table) = file_offset(rva, layouts, header_size) {
                lemma_debug_keeps(
                    output,
                    layouts,
                    header_size,
                    table,
                    0,
                    lesser(size / 28, 256),
                    0,
                );
            }
        }
    }
}

proof fn lemma_slot_same(left: Seq<u8>, right: Seq<u8>, headers: PeHeaders, index: int)
    requires
        left.len() == right.len(),
        fits(left, headers.directories_offset + 8 * index, 8),
        forall|p: int|
            headers.directories_offset + 8 * index <= p < headers.directories_offset + 8 * index + 8
                ==> #[trigger] right[p] == left[p],
    ensures
        slot_of(left, headers, index) == slot_of(right, headers, index),
{
    let s = headers.directories_offset + 8 * index;
    assert(right[s] == left[s] && right[s + 1] == left[s + 1] && right[s + 2] == left[s + 2]
        && right[s + 3] == left[s + 3] && right[s + 4] == left[s + 4] && right[s + 5] == left[s + 5]
        && right[s + 6] == left[s + 6] && right[s + 7] == left[s + 7]);
}

/// Every repair of a file is done. Where the tables of runtime functions and of debug entries
/// stand behind the headers, each directory of the repaired file, beside that of runtime
/// functions, is empty or lies in the image; there is no certificate; every debug entry points
/// to where its data is; and a file without relocations does not have the flag that lets it
/// be loaded anywhere. Of the headers only directories and that flag have changed.
pub proof fn law_repairs_are_all_done(
    output: Seq<u8>,
    model: ModelView,
    layouts: Seq<SectionLayout>,
    header_size: int,
)
    requires
        fields_before(model.headers, header_size),
        header_size <= output.len() <= usize::MAX,
        model.headers.dll_characteristics_offset + 2 <= model.headers.directories_offset,
        ({
            let (first, second) = repair_steps(output, model, layouts, header_size);
            let unwind = unwind_span(first, model, layouts, header_size);
            let debug = debug_span(second, model, layouts, header_size);
            &&& unwind.1 > 0 ==> unwind.0 >= header_size
            &&& debug.1 > 0 ==> debug.0 >= header_size
        }),
    ensures
        repaired(output, model, layouts, header_size) matches Ok((bytes, found)) ==> {
            &&& bytes.len() == output.len()
            &&& forall|j: int|
                0 <= j < model.headers.directory_count && j != 3 ==> #[trigger] settled(
                    bytes,
                    model.headers,
                    layouts,
                    header_size,
                    j,
                )
            &&& model.headers.directory_count > 4 ==> slot_of(bytes, model.headers, 4) == (
                0u32,
                0u32,
            )
            &&& (model.headers.directory_count <= 5 || slot_of(bytes, model.headers, 5).0 == 0
                || slot_of(bytes, model.headers, 5).1 == 0) ==> u16_at(
                bytes,
                model.headers.dll_characteristics_offset as int,
            ) & 0x0040 == 0
            &&& model.headers.directory_count > 6 && slot_of(bytes, model.headers, 6).0 != 0
                ==> match file_offset(
                slot_of(bytes, model.headers, 6).0 as int,
                layouts,
                header_size,
            ) {
                Some(table) => forall|i: int|
                    0 <= i < 256 && 28 * i + 28 <= slot_of(bytes, model.headers, 6).1
                        ==> #[trigger] debug_entry_right(bytes, layouts, header_size, table, i),
                None => true,
            }
            &&& forall|p: int|
                0 <= p < header_size && !(model.headers.dll_characteristics_offset <= p
                    < model.headers.dll_characteristics_offset + 2) && !(
                model.headers.directories_offset <= p < model.headers.directories_offset + 8
                    * model.headers.directory_count) ==> #[trigger] bytes[p] == output[p]
        },
{
    let headers = model.headers;
    if let Ok((bytes, found)) = repaired(output, model, layouts, header_size) {
        let (first, second) = repair_steps(output, model, layouts, header_size);
        law_bad_directories_go(output, model, layouts, header_size);
        lemma_exception_keeps_headers(first, model, layouts, header_size);
        let third = debug_repaired(second, model, layouts, header_size)->Ok_0.0;
        lemma_debug_keeps_headers(second, model, layouts, header_size);
        let at = headers.dll_characteristics_offset as int;
        assert(base_fixed(third, headers) is Ok);
        assert(bytes == base_fixed(third, headers)->Ok_0.0);
        assert(bytes.len() == third.len() && forall|p: int|
            0 <= p < third.len() && !(at <= p < at + 2) ==> #[trigger] bytes[p] == third[p]) by {
            let flags = u16_at(third, at);
            if base_fixed(third, headers)->Ok_0.1 {
                assert(bytes == put_u16(third, at, flags & !0x0040u16)->Ok_0);
            }
        }
        assert forall|j: int| 0 <= j < headers.directory_count && j != 3 implies slot_of(
            first,
            headers,
            j,
        ) == #[trigger] slot_of(bytes, headers, j) by {
            let s = headers.directories_offset + 8 * j;
            assert forall|p: int| s <= p < s + 8 implies #[trigger] bytes[p] == first[p] by {
                assert(second[p] == first[p]);
                assert(third[p] == second[p]);
                assert(bytes[p] == third[p]);
            }
            lemma_slot_same(first, bytes, headers, j);
        }
        assert forall|j: int| 0 <= j < headers.directory_count && j != 3 implies #[trigger] settled(
            bytes,
            headers,
            layouts,
            header_size,
            j,
        ) by {
            assert(settled(first, headers, layouts, header_size, j));
            assert(slot_of(first, headers, j) == slot_of(bytes, headers, j));
        }
        if headers.directory_count > 4 {
            assert(settled(bytes, headers, layouts, header_size, 4));
        }
        crate::pe::rebuild::directories::law_images_without_relocations_are_fixed(third, headers);
        if headers.directory_count > 5 {
            let s = headers.directories_offset + 40;
            assert forall|p: int| s <= p < s + 8 implies #[trigger] bytes[p] == third[p] by {}
            lemma_slot_same(third, bytes, headers, 5);
        }
        if headers.directory_count > 6 {
            let s = headers.directories_offset + 48;
            assert forall|p: int| s <= p < s + 8 implies #[trigger] bytes[p] == second[p] by {
                assert(third[p] == second[p]);
                assert(bytes[p] == third[p]);
            }
            lemma_slot_same(second, bytes, headers, 6);
            let (rva, size) = slot_of(bytes, headers, 6);
            if rva != 0 {
                if let Some(table) = file_offset(rva as int, layouts, header_size) {
                    lemma_file_offset_nonnegative(rva as int, layouts, header_size);
                    let count = lesser(size as int / 28, 256);
                    law_debug_entries_point_into_the_file(
                        second,
                        layouts,
                        header_size,
                        table,
                        count,
                    );
                    assert forall|i: int| 0 <= i < 256 && 28 * i + 28 <= size implies
                        #[trigger] debug_entry_right(bytes, layouts, header_size, table, i) by {
                        assert(debug_span(second, model, layouts, header_size) == (
                            table,
                            28 * count,
                        ));
                        assert(debug_entry_right(third, layouts, header_size, table, i));
                        lemma_entry_same(third, bytes, layouts, header_size, table, i);
                    }
                }
            }
        }
        assert forall|p: int|
            0 <= p < header_size && !(at <= p < at + 2) && !(headers.directories_offset <= p
                < headers.directories_offset + 8 * headers.directory_count) implies
            #[trigger] bytes[p] == output[p] by {
            assert(first[p] == output[p]);
            assert(second[p] == first[p]) by {
                let slot = headers.directories_offset + 24;
                if headers.directory_count <= 3 {
                    assert(second == first);
                }
            }
            assert(third[p] == second[p]);
            assert(bytes[p] == third[p]);
        }
    }
}

proof fn lemma_entry_same(
    left: Seq<u8>,
    right: Seq<u8>,
    layouts: Seq<SectionLayout>,
    header_size: int,
    table: int,
    index: int,
)
    requires
        left.len() == right.len(),
        header_size <= table,
        0 <= table,
        0 <= index,
        forall|p: int| header_size <= p < left.len() ==> #[trigger] right[p] == left[p],
        debug_entry_right(left, layouts, header_size, table, index),
    ensures
        debug_entry_right(right, layouts, header_size, table, index),
{
    let e = table + 28 * index + 20;
    if fits(left, e, 8) {
        assert(right[e] == left[e] && right[e + 1] == left[e + 1] && right[e + 2] == left[e + 2]
            && right[e + 3] == left[e + 3] && right[e + 4] == left[e + 4] && right[e + 5] == left[e
            + 5] && right[e + 6] == left[e + 6] && right[e + 7] == left[e + 7]);
    }
}

/// The imports of a plan are written: a section is added wherever the plan has a group, the
/// image has an import directory and the headers have room for the entry; the file is then
/// the one with that section. Where none is added and no descriptors were kept, the import
/// directory is emptied.
pub proof fn law_imports_are_written(
    output: Seq<u8>,
    model: ModelView,
    plan: PlanView,
    cleared: ClearedView,
)
    requires
        model.headers.directories_offset + 8 * model.headers.directory_count <= usize::MAX,
        last_header(model.sections) + 80 <= usize::MAX,
        model.sections.len() > 0,
    ensures
        imports_written(output, model, plan, cleared) matches Ok(imports) ==> {
            &&& imports.written <==> plan.groups.len() > 0 && model.headers.directory_count > 1
                && last_header(model.sections) + 80 <= u32_at(
                output,
                model.headers.size_of_headers_offset as int,
            )
            &&& imports.written ==> imports_appended(output, model, plan) is Ok && imports.bytes
                == imports_appended(output, model, plan)->Ok_0.bytes
            &&& !imports.written && plan.existing.len() > 0 ==> imports.bytes == output
            &&& !imports.written && plan.existing.len() == 0 && model.headers.directory_count > 1
                ==> slot_of(imports.bytes, model.headers, 1) == (0u32, 0u32)
        },
{
    if let Ok(imports) = imports_written(output, model, plan, cleared) {
        if !imports.written && plan.existing.len() == 0 && model.headers.directory_count > 1 {
            let slot = model.headers.directories_offset + 8;
            let first = put_u32(output, slot, 0)->Ok_0;
            law_fields_read_back(output, slot, 0, 0, 0);
            law_fields_read_back(first, slot + 4, 0, 0, 0);
            crate::pe::image::law_writes_leave_other_fields(first, slot + 4, le_u32(0), slot);
        }
    }
}

proof fn lemma_sections_keep_headers(
    output: Seq<u8>,
    memory: Seq<u8>,
    layouts: Seq<SectionLayout>,
    index: int,
    header_size: int,
    place: int,
)
    requires
        0 <= index <= layouts.len(),
        apart(layouts, header_size, output.len() as int),
        table_in_headers(layouts, header_size),
        header_size <= output.len(),
        0 <= place < header_size,
        forall|i: int|
            0 <= i < layouts.len() ==> place < (#[trigger] layouts[i]).model.header_offset,
    ensures
        sections_written(output, memory, layouts, index) matches Ok(bytes) ==> bytes.len()
            == output.len() && bytes[place] == output[place],
    decreases layouts.len() - index,
{
    if index < layouts.len() {
        if let Ok(bytes) = section_written(output, memory, layouts, index) {
            lemma_section_written(output, memory, layouts, index, header_size);
            assert(place < layouts[index].model.header_offset);
            lemma_sections_keep_headers(
                bytes,
                memory,
                layouts,
                index + 1,
                header_size,
                place,
            );
        }
    }
}

/// Whether the header fields stand where they do in NT headers that follow the DOS header,
/// before every entry of the section table.
pub open spec fn header_in_order(model: ModelView, layouts: Seq<SectionLayout>) -> bool {
    let headers = model.headers;
    let optional = headers.nt_offset + 24;
    let fixed: int = match headers.kind {
        PeKind::Pe32 => 96,
        PeKind::Pe32Plus => 112,
    };
    &&& headers.nt_offset >= 0x40
    &&& headers.image_base_offset == match headers.kind {
        PeKind::Pe32 => optional + 28,
        PeKind::Pe32Plus => optional + 24,
    }
    &&& headers.size_of_image_offset == optional + 56
    &&& headers.size_of_headers_offset == optional + 60
    &&& headers.dll_characteristics_offset == optional + 70
    &&& headers.number_of_directories_offset == optional + fixed - 4
    &&& headers.directories_offset == optional + fixed
    &&& forall|i: int|
        0 <= i < layouts.len() ==> headers.directories_offset + 8 * headers.directory_count <= (
        #[trigger] layouts[i]).model.header_offset
}

/// The recovered imports are in the file. Where the tables of runtime functions and of debug
/// entries stand behind the headers, a section is added exactly where the plan of the image
/// has a group, the image has an import directory and the headers have room for one more
/// entry; the import directory of the file then leads to it, and it holds the payload of the
/// plan.
pub proof fn law_files_have_their_imports(output: OutputView, scene: Scene, model: ModelView)
    requires
        0 <= output.header_size <= output.bytes.len() <= usize::MAX,
        apart(output.layouts, output.header_size, output.bytes.len() as int),
        table_in_headers(output.layouts, output.header_size),
        fields_before(model.headers, output.header_size),
        header_in_order(model, output.layouts),
        model.sections.len() > 0,
        model.headers.directory_count <= 16,
        model.headers.directories_offset + 8 * model.headers.directory_count <= last_header(
            model.sections,
        ) + 40,
        last_header(model.sections) + 80 <= output.bytes.len(),
        drafted(output, scene, model) is Ok,
        ({
            let headed = core_written(
                output.bytes,
                model,
                scene.base,
                output.header_size,
            )->Ok_0;
            let filled = sections_written(headed, scene.memory, output.layouts, 0)->Ok_0;
            let (first, second) = repair_steps(
                filled,
                model,
                output.layouts,
                output.header_size,
            );
            let unwind = unwind_span(first, model, output.layouts, output.header_size);
            let debug = debug_span(second, model, output.layouts, output.header_size);
            &&& unwind.1 > 0 ==> unwind.0 >= output.header_size
            &&& debug.1 > 0 ==> debug.0 >= output.header_size
        }),
    ensures
        ({
            let draft = drafted(output, scene, model)->Ok_0;
            let plan = plan_of(scene, model);
            let header = last_header(model.sections) + 40;
            let bytes = draft.bytes;
            let address = u32_at(bytes, header + 12);
            let length = u32_at(bytes, header + 8) as int;
            let raw_offset = u32_at(bytes, header + 20) as int;
            &&& draft.plan == plan
            &&& draft.written <==> plan.groups.len() > 0 && model.headers.directory_count > 1
                && header + 40 <= output.header_size
            &&& draft.written ==> {
                &&& slot_of(bytes, model.headers, 1) == (
                    address,
                    (20 * (plan.groups.len() + 1) + plan.existing.len()) as u32,
                )
                &&& raw_offset + length <= bytes.len()
                &&& payload_of(plan, model.headers.kind, address) == Ok::<Seq<u8>, AppError>(
                    bytes.subrange(raw_offset, raw_offset + length),
                )
            }
        }),
{
    let headed = core_written(output.bytes, model, scene.base, output.header_size)->Ok_0;
    let filled = sections_written(headed, scene.memory, output.layouts, 0)->Ok_0;
    let (mended, repairs) = repaired(
        filled,
        model,
        output.layouts,
        output.header_size,
    )->Ok_0;
    let draft = drafted(output, scene, model)->Ok_0;
    let plan = plan_of(scene, model);
    let field = model.headers.size_of_headers_offset as int;
    law_core_fields_read_back(output.bytes, model, scene.base, output.header_size);
    assert forall|p: int| field <= p < field + 4 implies #[trigger] filled[p] == headed[p]
        && filled.len() == headed.len() by {
        lemma_sections_keep_headers(
            headed,
            scene.memory,
            output.layouts,
            0,
            output.header_size,
            p,
        );
    }
    assert(filled[field] == headed[field] && filled[field + 1] == headed[field + 1] && filled[field
        + 2] == headed[field + 2] && filled[field + 3] == headed[field + 3]);
    law_repairs_are_all_done(filled, model, output.layouts, output.header_size);
    assert(mended[field] == filled[field] && mended[field + 1] == filled[field + 1] && mended[field
        + 2] == filled[field + 2] && mended[field + 3] == filled[field + 3]);
    assert(u32_at(mended, field) == output.header_size);
    law_imports_are_written(mended, model, plan, repairs.cleared);
    if draft.written {
        law_added_imports_are_declared(mended, model, plan);
    }
}

} // verus!
