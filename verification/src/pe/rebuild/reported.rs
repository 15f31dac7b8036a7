//! What the numbers that are reported of a rebuilt file count.

use vstd::prelude::*;

use crate::pe::image::{all_zero, fits, u16_at, u32_at};
use crate::pe::imports::ranges::{unbound_from, Scene};
use crate::pe::imports::thunks::pointer_at;
use crate::pe::rebuild::directories::{
    block_fits, entries_fit, has_fixup, relocation_type, walkable,
};
use crate::pe::rebuild::exception::{function_at, valid_functions};
use crate::pe::rebuild::files::describes_code;
use crate::pe::rebuild::headers::{byte_sum, checksum, folded, word_count, word_sum};
use crate::pe::rebuild::observe::{
    absent_total, bogus_pdata, bogus_pdata_total, callback_total, callbacks_from, occurrences,
    section_holding, trimmed, verdict_total, write_execute_total,
};
use crate::pe::rebuild::sections::{new_name, renamed_total};
use crate::pe::rebuild::{file_offset, SectionLayout};
use crate::pe::{directory_of, ModelView, PeKind, RegionEvidence};

verus! {

/// How many of the numbers below `count` the property holds of.
pub open spec fn count_where(count: int, holds: spec_fn(int) -> bool) -> int
    decreases count,
{
    if count <= 0 {
        0
    } else {
        count_where(count - 1, holds) + if holds(count - 1) {
            1int
        } else {
            0
        }
    }
}

/// Whether a region that can be written and executed has a byte of what was captured of the
/// section, where neither ends behind the largest address.
pub open spec fn written_and_run(layout: SectionLayout, regions: Seq<RegionEvidence>) -> bool {
    exists|i: int|
        0 <= i < regions.len() && (#[trigger] regions[i]).writable && regions[i].executable
            && regions[i].offset < layout.model.virtual_address.0 + layout.source_length
            && layout.model.virtual_address.0 < regions[i].offset + regions[i].size
}

/// The sections that were seen writable and executable at once are counted, each once.
pub proof fn law_write_execute_sections_are_counted(
    layouts: Seq<SectionLayout>,
    regions: Seq<RegionEvidence>,
    count: int,
)
    requires
        0 <= count <= layouts.len(),
        forall|i: int|
            0 <= i < layouts.len() ==> (#[trigger] layouts[i]).model.virtual_address.0
                + layouts[i].source_length <= usize::MAX,
        forall|i: int|
            0 <= i < regions.len() ==> (#[trigger] regions[i]).offset + regions[i].size
                <= usize::MAX,
    ensures
        write_execute_total(layouts, regions, count) == count_where(
            count,
            |i: int| written_and_run(layouts[i], regions),
        ),
    decreases count,
{
    let chosen = |i: int| written_and_run(layouts[i], regions);
    if count > 0 {
        law_write_execute_sections_are_counted(layouts, regions, count - 1);
        let layout = layouts[count - 1];
        assert(layout.model.virtual_address.0 + layout.source_length <= usize::MAX);
        assert(chosen(count - 1) == written_and_run(layout, regions));
        assert(written_and_run(layout, regions)
            == crate::pe::rebuild::observe::seen_write_execute(layout, regions)) by {
            if written_and_run(layout, regions) {
                let i = choose|i: int|
                    0 <= i < regions.len() && (#[trigger] regions[i]).writable
                        && regions[i].executable && regions[i].offset
                        < layout.model.virtual_address.0 + layout.source_length
                        && layout.model.virtual_address.0 < regions[i].offset + regions[i].size;
                assert(regions[i].writable);
            }
        }
    }
}

/// Whether the section is executable, at least 1024 bytes of it were captured, and all of
/// these are zero.
pub open spec fn missing_code(memory: Seq<u8>, layout: SectionLayout) -> bool {
    let start = layout.model.virtual_address.0 as int;
    &&& layout.model.characteristics & 0x2000_0000 != 0
    &&& layout.source_length >= 1024
    &&& start + layout.source_length <= memory.len()
    &&& forall|p: int| start <= p < start + layout.source_length ==> #[trigger] memory[p] == 0
}

/// The executable sections of which only zeros were captured are counted, each once.
pub proof fn law_absent_sections_are_counted(
    memory: Seq<u8>,
    layouts: Seq<SectionLayout>,
    count: int,
)
    requires
        0 <= count <= layouts.len(),
    ensures
        absent_total(memory, layouts, count) == count_where(
            count,
            |i: int| missing_code(memory, layouts[i]),
        ),
    decreases count,
{
    let chosen = |i: int| missing_code(memory, layouts[i]);
    if count > 0 {
        law_absent_sections_are_counted(memory, layouts, count - 1);
        let layout = layouts[count - 1];
        let start = layout.model.start();
        let end = start + layout.source_length;
        assert(chosen(count - 1) == missing_code(memory, layout));
        if end <= memory.len() {
            let part = memory.subrange(start, end);
            if all_zero(part) {
                assert forall|p: int| start <= p < end implies #[trigger] memory[p] == 0 by {
                    assert(part[p - start] == 0);
                }
            }
        }
    }
}

/// Whether more than half of the entries of a section named `.pdata` do not describe code,
/// and the section is not the one that the headers declare.
pub open spec fn spoiled_pdata(
    output: Seq<u8>,
    model: ModelView,
    layouts: Seq<SectionLayout>,
    header_size: int,
    layout: SectionLayout,
) -> bool {
    let entries: int = if layout.source_length as int / 12 <= 65_536 {
        layout.source_length as int / 12
    } else {
        65_536
    };
    let wrong = count_where(
        entries,
        |i: int|
            layout.raw_offset + 12 * i + 12 <= output.len() && !describes_code(
                output,
                function_at(output, layout.raw_offset + 12 * i),
                model,
                layouts,
                header_size,
            ),
    );
    &&& layout.model.name@ == seq![0x2eu8, 0x70, 0x64, 0x61, 0x74, 0x61, 0, 0]
    &&& layout.raw_size != 0
    &&& entries > 0
    &&& wrong > entries / 2
}

proof fn lemma_wrong_entries(
    output: Seq<u8>,
    model: ModelView,
    layouts: Seq<SectionLayout>,
    header_size: int,
    offset: int,
    complete: int,
    count: int,
)
    requires
        0 <= complete <= count,
        0 <= offset,
        complete == count || offset + 12 * complete + 12 > output.len(),
        complete > 0 ==> offset + 12 * complete <= output.len(),
    ensures
        complete - valid_functions(output, model, layouts, header_size, offset, complete).len()
            == count_where(
            count,
            |i: int|
                offset + 12 * i + 12 <= output.len() && !describes_code(
                    output,
                    function_at(output, offset + 12 * i),
                    model,
                    layouts,
                    header_size,
                ),
        ),
    decreases count,
{
    let chosen = |i: int|
        offset + 12 * i + 12 <= output.len() && !describes_code(
            output,
            function_at(output, offset + 12 * i),
            model,
            layouts,
            header_size,
        );
    if count > 0 {
        let last = function_at(output, offset + 12 * (count - 1));
        assert(chosen(count - 1) == (offset + 12 * (count - 1) + 12 <= output.len()
            && !describes_code(output, last, model, layouts, header_size)));
        if complete == count {
            lemma_wrong_entries(
                output,
                model,
                layouts,
                header_size,
                offset,
                complete - 1,
                count - 1,
            );
            assert(crate::pe::rebuild::exception::valid_function(
                output,
                last,
                model,
                layouts,
                header_size,
            ) == describes_code(output, last, model, layouts, header_size));
        } else {
            lemma_wrong_entries(
                output,
                model,
                layouts,
                header_size,
                offset,
                complete,
                count - 1,
            );
        }
    }
}

/// The sections are counted that are named as tables of runtime functions but do not hold
/// any to speak of, each once, but for the one that the headers declare.
pub proof fn law_spoiled_tables_are_counted(
    output: Seq<u8>,
    model: ModelView,
    layouts: Seq<SectionLayout>,
    header_size: int,
    count: int,
)
    requires
        0 <= count <= layouts.len(),
    ensures
        bogus_pdata_total(output, model, layouts, header_size, count) == count_where(
            count,
            |i: int|
                spoiled_pdata(output, model, layouts, header_size, layouts[i])
                    && !crate::pe::rebuild::observe::holds(
                    layouts[i],
                    crate::pe::rebuild::observe::exception_address(output, model.headers),
                ),
        ),
    decreases count,
{
    let chosen = |i: int|
        spoiled_pdata(output, model, layouts, header_size, layouts[i])
            && !crate::pe::rebuild::observe::holds(
            layouts[i],
            crate::pe::rebuild::observe::exception_address(output, model.headers),
        );
    if count > 0 {
        law_spoiled_tables_are_counted(output, model, layouts, header_size, count - 1);
        let layout = layouts[count - 1];
        let entries: int = if layout.source_length as int / 12 <= 65_536 {
            layout.source_length as int / 12
        } else {
            65_536
        };
        let complete = crate::pe::rebuild::exception::complete_entries(
            output,
            layout.raw_offset as int,
            entries,
        );
        lemma_wrong_entries(
            output,
            model,
            layouts,
            header_size,
            layout.raw_offset as int,
            complete,
            entries,
        );
        assert(chosen(count - 1) == bogus_pdata(output, model, layouts, header_size, layout));
    }
}

/// Whether `count` pointers other than null stand in the table before a null pointer or one
/// that cannot be read, or there are as many as are counted.
pub open spec fn callbacks_stand(memory: Seq<u8>, table: int, width: int, count: int) -> bool {
    &&& 0 <= count <= 1_024
    &&& forall|i: int| 0 <= i < count ==> #[trigger] calls_back(memory, table, width, i)
    &&& count == 1_024 || !calls_back(memory, table, width, count)
}

/// Whether the entry of the table is a pointer other than null.
pub open spec fn calls_back(memory: Seq<u8>, table: int, width: int, at: int) -> bool {
    let value = pointer_at(memory, table + at * width, width);
    value is Some && value != Some(0u64)
}

proof fn lemma_callbacks(memory: Seq<u8>, table: int, width: int, index: int, count: int)
    requires
        callbacks_stand(memory, table, width, count),
        0 <= index <= count,
    ensures
        callbacks_from(memory, table, width, index) == count - index,
    decreases count - index,
{
    if index < count {
        assert(calls_back(memory, table, width, index));
        lemma_callbacks(memory, table, width, index + 1, count);
    }
}

/// The callbacks of the thread-local storage directory are counted: the pointers before the
/// first null pointer of the table that its fourth pointer leads to.
pub proof fn law_callbacks_are_counted(
    memory: Seq<u8>,
    model: ModelView,
    base: u64,
    rva: u32,
    table: u64,
    count: int,
)
    requires
        directory_of(memory, model.headers, 9) matches Ok(Some(directory)) && directory.rva.0 == rva,
        pointer_at(
            memory,
            rva + 3 * model.headers.kind.width(),
            model.headers.kind.width(),
        ) == Some(table),
        base <= table,
        callbacks_stand(memory, table - base, model.headers.kind.width(), count),
    ensures
        callback_total(memory, model, base) == count,
{
    lemma_callbacks(memory, table - base, model.headers.kind.width(), 0, count);
}

/// The pointers of a delay-load table that lead to no export are counted, each once.
pub proof fn law_unbound_pointers_are_counted(scene: Scene, start: int, count: int)
    requires
        0 <= start,
        0 <= count,
        start + count * scene.kind.width() <= scene.memory.len(),
    ensures
        unbound_from(scene, start, start + count * scene.kind.width()) == count_where(
            count,
            |i: int|
                scene.export(
                    scene.pointer(start + (count - 1 - i) * scene.kind.width())->Some_0,
                ) is None,
        ),
    decreases count,
{
    let width = scene.kind.width();
    let chosen = |i: int|
        scene.export(scene.pointer(start + (count - 1 - i) * width)->Some_0) is None;
    if count > 0 {
        assert(count * width == width + (count - 1) * width) by (nonlinear_arith);
        assert((count - 1) * width >= 0) by (nonlinear_arith)
            requires
                0 <= count - 1,
                0 < width,
        ;
        assert(scene.pointer(start) is Some);
        law_unbound_pointers_are_counted(scene, start + width, count - 1);
        let rest = |i: int|
            scene.export(scene.pointer(start + width + (count - 2 - i) * width)->Some_0) is None;
        assert forall|i: int| 0 <= i < count - 1 implies #[trigger] chosen(i) == rest(i) by {
            assert((count - 1 - i) * width == width + (count - 2 - i) * width)
                by (nonlinear_arith);
        }
        lemma_count_same(count - 1, chosen, rest);
        assert(0 * width == 0) by (nonlinear_arith);
        assert(chosen(count - 1) == (scene.export(scene.pointer(start)->Some_0) is None));
        assert(start + width + (count - 1) * width == start + count * width);
    } else {
        assert(0 * width == 0) by (nonlinear_arith);
    }
}

/// What two properties that agree hold of is counted alike.
pub proof fn lemma_count_same(count: int, left: spec_fn(int) -> bool, right: spec_fn(int) -> bool)
    requires
        forall|i: int| 0 <= i < count ==> #[trigger] left(i) == right(i),
    ensures
        count_where(count, left) == count_where(count, right),
    decreases count,
{
    if count > 0 {
        assert(left(count - 1) == right(count - 1));
        lemma_count_same(count - 1, left, right);
    }
}

/// The sections that get a new name are counted, each once.
pub proof fn law_renamed_sections_are_counted(layouts: Seq<SectionLayout>, count: int)
    requires
        0 <= count <= layouts.len(),
    ensures
        renamed_total(layouts, count) == count_where(
            count,
            |i: int| new_name(layouts, i) is Some,
        ),
    decreases count,
{
    let chosen = |i: int| new_name(layouts, i) is Some;
    if count > 0 {
        law_renamed_sections_are_counted(layouts, count - 1);
        assert(chosen(count - 1) == (new_name(layouts, count - 1) is Some));
    }
}

/// The verdicts that hold are counted, each once.
pub proof fn law_verdicts_are_counted(verdicts: Seq<bool>, count: int)
    requires
        0 <= count <= verdicts.len(),
    ensures
        verdict_total(verdicts, count) == count_where(count, |i: int| verdicts[i]),
    decreases count,
{
    let chosen = |i: int| verdicts[i];
    if count > 0 {
        law_verdicts_are_counted(verdicts, count - 1);
        assert(chosen(count - 1) == verdicts[count - 1]);
    }
}

/// Trimming takes the zeros at the end off, and nothing else.
pub proof fn law_trimming_takes_off_zeros(bytes: Seq<u8>)
    ensures
        trimmed(bytes).len() <= bytes.len(),
        trimmed(bytes) == bytes.take(trimmed(bytes).len() as int),
        trimmed(bytes).len() > 0 ==> trimmed(bytes).last() != 0,
        forall|p: int| trimmed(bytes).len() <= p < bytes.len() ==> #[trigger] bytes[p] == 0,
    decreases bytes.len(),
{
    if bytes.len() > 0 && bytes.last() == 0 {
        let rest = bytes.drop_last();
        law_trimming_takes_off_zeros(rest);
        assert(bytes.take(trimmed(bytes).len() as int) =~= rest.take(trimmed(rest).len() as int));
        assert forall|p: int| trimmed(bytes).len() <= p < bytes.len() implies #[trigger] bytes[p]
            == 0 by {
            if p < rest.len() {
                assert(rest[p] == 0);
            }
        }
    } else {
        assert(bytes.take(bytes.len() as int) =~= bytes);
    }
}

/// The occurrences of a byte are counted, each once.
pub proof fn law_occurrences_are_counted(bytes: Seq<u8>, byte: u8)
    ensures
        occurrences(bytes, byte) == count_where(bytes.len() as int, |i: int| bytes[i] == byte),
    decreases bytes.len(),
{
    let chosen = |i: int| bytes[i] == byte;
    if bytes.len() > 0 {
        let rest = bytes.drop_last();
        law_occurrences_are_counted(rest, byte);
        let before = |i: int| rest[i] == byte;
        assert forall|i: int| 0 <= i < rest.len() implies #[trigger] chosen(i) == before(i) by {}
        lemma_count_same(rest.len() as int, chosen, before);
        assert(chosen(bytes.len() - 1) == (bytes.last() == byte));
    }
}

/// The section that holds an address is the first whose range does; where none is given, no
/// section does.
pub proof fn law_holding_section_is_the_first(layouts: Seq<SectionLayout>, rva: int, from: int)
    requires
        0 <= from <= layouts.len(),
    ensures
        match section_holding(layouts, rva, from) {
            Some(index) => from <= index < layouts.len() && layouts[index].model.contains(rva)
                && forall|j: int|
                from <= j < index ==> !(#[trigger] layouts[j]).model.contains(rva),
            None => forall|j: int|
                from <= j < layouts.len() ==> !(#[trigger] layouts[j]).model.contains(rva),
        },
    decreases layouts.len() - from,
{
    if from < layouts.len() && !layouts[from].model.contains(rva) {
        law_holding_section_is_the_first(layouts, rva, from + 1);
    }
}

/// The sum of the first `count` words.
pub open spec fn plain_sum(bytes: Seq<u8>, count: int) -> int
    decreases count,
{
    if count <= 0 {
        0
    } else {
        plain_sum(bytes, count - 1) + bytes[2 * (count - 1)] + 0x100 * bytes[2 * (count - 1) + 1]
    }
}

/// The sum of all words of a file, where an odd byte at its end is one more.
pub open spec fn file_sum(bytes: Seq<u8>) -> int {
    plain_sum(bytes, bytes.len() as int / 2) + if bytes.len() % 2 != 0 {
        bytes.last() as int
    } else {
        0
    }
}

proof fn lemma_word_sum(bytes: Seq<u8>, count: int) -> (carry: int)
    requires
        0 <= count,
    ensures
        0 <= word_sum(bytes, count) <= 0xFFFF,
        0 <= carry,
        plain_sum(bytes, count) == word_sum(bytes, count) + 0xFFFF * carry,
        word_sum(bytes, count) == 0 ==> plain_sum(bytes, count) == 0,
    decreases count,
{
    if count > 0 {
        let before = lemma_word_sum(bytes, count - 1);
        let sum = word_sum(bytes, count - 1) + u16_at(bytes, 2 * (count - 1));
        assert(folded(sum) == sum - 0xFFFF * (sum / 0x1_0000));
        before + sum / 0x1_0000
    } else {
        0
    }
}

/// The checksum of a file is its length and the sum of its words with the carry added round:
/// what is left of the sum when 65535 is taken off as often as that leaves anything.
pub proof fn law_checksum_sums_the_words(bytes: Seq<u8>)
    requires
        bytes.len() <= 0x4000_0000,
    ensures
        checksum(bytes) matches Ok(value) && {
            let rest = value - bytes.len();
            &&& 0 <= rest <= 0xFFFF
            &&& (file_sum(bytes) - rest) % 0xFFFF == 0
            &&& rest <= file_sum(bytes)
            &&& rest == 0 <==> file_sum(bytes) == 0
        },
{
    let half = bytes.len() as int / 2;
    assert(word_count(bytes) == half);
    let carry = lemma_word_sum(bytes, half);
    let words = word_sum(bytes, half);
    let sum = byte_sum(bytes);
    let extra: int = if bytes.len() % 2 != 0 {
        bytes.last() as int
    } else {
        0
    };
    let all = words + extra;
    assert(folded(all) == all - 0xFFFF * (all / 0x1_0000));
    assert(0 <= sum <= 0xFFFF);
    assert(folded(sum) == sum);
    let more: int = if bytes.len() % 2 != 0 {
        all / 0x1_0000
    } else {
        0
    };
    assert(file_sum(bytes) - sum == 0xFFFF * (carry + more));
    vstd::arithmetic::div_mod::lemma_mod_multiples_basic(carry + more, 0xFFFF);
    vstd::arithmetic::mul::lemma_mul_is_commutative(carry + more, 0xFFFF);
}

/// Whether the relocation block at `cursor` is well formed: it lies in the table, its page
/// lies in the file, and its entries are padding or relocations of a pointer of the format.
pub open spec fn block_is_good(
    output: Seq<u8>,
    kind: PeKind,
    layouts: Seq<SectionLayout>,
    header_size: int,
    cursor: int,
    end: int,
) -> bool {
    let size = u32_at(output, cursor + 4) as int;
    &&& 0 <= cursor && cursor + 8 <= output.len()
    &&& 8 <= size && size % 2 == 0 && cursor + size <= end
    &&& file_offset(u32_at(output, cursor) as int, layouts, header_size) is Some
    &&& forall|i: int|
        0 <= i < (size - 8) / 2 ==> #[trigger] entry_is_good(output, kind, cursor + 8, i)
}

/// Whether the entry of a relocation block is padding or a relocation of a pointer.
pub open spec fn entry_is_good(output: Seq<u8>, kind: PeKind, first: int, at: int) -> bool {
    let entry = u16_at(output, first + 2 * at) as int / 0x1000;
    &&& first + 2 * at + 2 <= output.len()
    &&& entry == 0 || entry == match kind {
        PeKind::Pe32 => 3int,
        PeKind::Pe32Plus => 10,
    }
}

/// Whether the block has an entry other than padding.
pub open spec fn block_relocates(output: Seq<u8>, cursor: int) -> bool {
    exists|i: int|
        0 <= i < (u32_at(output, cursor + 4) - 8) / 2 && #[trigger] entry_relocates(
            output,
            cursor + 8,
            i,
        )
}

/// Whether the entry is not padding.
pub open spec fn entry_relocates(output: Seq<u8>, first: int, at: int) -> bool {
    u16_at(output, first + 2 * at) as int / 0x1000 != 0
}

proof fn lemma_entries_fit(output: Seq<u8>, kind: PeKind, first: int, count: int)
    requires
        0 <= first,
        forall|i: int| 0 <= i < count ==> #[trigger] entry_is_good(output, kind, first, i),
    ensures
        entries_fit(output, kind, first, count),
    decreases count,
{
    if count > 0 {
        lemma_entries_fit(output, kind, first, count - 1);
        assert(entry_is_good(output, kind, first, count - 1));
        assert(relocation_type(output, first + 2 * (count - 1)) == u16_at(
            output,
            first + 2 * (count - 1),
        ) as int / 0x1000);
    }
}

proof fn lemma_entries(output: Seq<u8>, kind: PeKind, first: int, count: int)
    requires
        0 <= first,
    ensures
        entries_fit(output, kind, first, count) <==> forall|i: int|
            0 <= i < count ==> #[trigger] entry_is_good(output, kind, first, i),
        has_fixup(output, first, count) <==> exists|i: int|
            0 <= i < count && #[trigger] entry_relocates(output, first, i),
{
    assert forall|i: int| #[trigger] entry_is_good(output, kind, first, i) == (first + 2 * i + 2
        <= output.len() && (relocation_type(output, first + 2 * i) == 0 || relocation_type(
        output,
        first + 2 * i,
    ) == crate::pe::rebuild::directories::pointer_relocation(kind))) by {}
    assert forall|i: int| #[trigger] entry_relocates(output, first, i) == (relocation_type(
        output,
        first + 2 * i,
    ) != 0) by {}
    if forall|i: int| 0 <= i < count ==> #[trigger] entry_is_good(output, kind, first, i) {
        lemma_entries_fit(output, kind, first, count);
    }
    if entries_fit(output, kind, first, count) {
        assert forall|i: int| 0 <= i < count implies #[trigger] entry_is_good(
            output,
            kind,
            first,
            i,
        ) by {
            let place = first + 2 * i;
            assert(relocation_type(output, first + 2 * i) == u16_at(output, place) as int / 0x1000);
            assert(fits(output, first + 2 * i, 2));
        }
    }
    if exists|i: int| 0 <= i < count && #[trigger] entry_relocates(output, first, i) {
        let i = choose|i: int| 0 <= i < count && #[trigger] entry_relocates(output, first, i);
        assert(relocation_type(output, first + 2 * i) != 0);
    }
    if has_fixup(output, first, count) {
        let i = choose|i: int|
            #![trigger relocation_type(output, first + 2 * i)]
            0 <= i < count && relocation_type(output, first + 2 * i) != 0;
        assert(entry_relocates(output, first, i));
    }
}

proof fn lemma_block(
    output: Seq<u8>,
    kind: PeKind,
    layouts: Seq<SectionLayout>,
    header_size: int,
    cursor: int,
    end: int,
)
    requires
        0 <= cursor,
    ensures
        block_is_good(output, kind, layouts, header_size, cursor, end) == block_fits(
            output,
            kind,
            layouts,
            header_size,
            cursor,
            end,
        ),
        block_relocates(output, cursor) == has_fixup(
            output,
            cursor + 8,
            (u32_at(output, cursor + 4) - 8) / 2,
        ),
{
    lemma_entries(output, kind, cursor + 8, (u32_at(output, cursor + 4) - 8) / 2);
}

/// A relocation table can be walked where its blocks follow each other from its start to its
/// end, each well formed, and one of them relocates something; and it cannot be where none
/// does.
pub proof fn law_good_relocations_are_walkable(
    output: Seq<u8>,
    kind: PeKind,
    layouts: Seq<SectionLayout>,
    header_size: int,
    cursors: Seq<int>,
    end: int,
    found: bool,
    blocks: int,
)
    requires
        0 < cursors.len() <= blocks,
        cursors.last() == end,
        forall|i: int|
            0 <= i < cursors.len() - 1 ==> #[trigger] block_is_good(
                output,
                kind,
                layouts,
                header_size,
                cursors[i],
                end,
            ) && cursors[i + 1] == cursors[i] + u32_at(output, cursors[i] + 4),
    ensures
        walkable(output, kind, layouts, header_size, cursors[0], end, found, blocks) <==> found || (
        exists|i: int|
            0 <= i < cursors.len() - 1 && #[trigger] block_relocates(output, cursors[i])),
    decreases cursors.len(),
{
    if cursors.len() > 1 {
        let rest = cursors.drop_first();
        assert(block_is_good(output, kind, layouts, header_size, cursors[0], end));
        lemma_block(output, kind, layouts, header_size, cursors[0], end);
        assert(rest[0] == cursors[1]);
        assert forall|i: int| 0 <= i < rest.len() - 1 implies #[trigger] block_is_good(
            output,
            kind,
            layouts,
            header_size,
            rest[i],
            end,
        ) && rest[i + 1] == rest[i] + u32_at(output, rest[i] + 4) by {
            assert(block_is_good(output, kind, layouts, header_size, cursors[i + 1], end));
        }
        let here = block_relocates(output, cursors[0]);
        law_good_relocations_are_walkable(
            output,
            kind,
            layouts,
            header_size,
            rest,
            end,
            found || here,
            blocks - 1,
        );
        if exists|i: int|
            0 <= i < rest.len() - 1 && #[trigger] block_relocates(output, rest[i]) {
            let i = choose|i: int|
                0 <= i < rest.len() - 1 && #[trigger] block_relocates(output, rest[i]);
            assert(block_relocates(output, cursors[i + 1]));
        }
        if exists|i: int|
            0 <= i < cursors.len() - 1 && #[trigger] block_relocates(output, cursors[i]) {
            let i = choose|i: int|
                0 <= i < cursors.len() - 1 && #[trigger] block_relocates(output, cursors[i]);
            if i > 0 {
                assert(block_relocates(output, rest[i - 1]));
            }
        }
    }
}

} // verus!
