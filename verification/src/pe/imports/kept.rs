//! What the descriptors that a plan keeps have to do with those in the image.

use vstd::prelude::*;

use crate::pe::image::{all_zero, fits, u32_at};
use crate::pe::imports::attestation::span;
use crate::pe::imports::descriptors::{
    array_at, array_from, declared_descriptors, declared_from, descriptor_bytes, nonempty,
    orphan_from, orphan_in_sections, orphaned_descriptors, thunk_length, thunks_from, ArrayView,
};
use crate::pe::imports::tables::is_data;
use crate::pe::imports::thunks::{name_at, pointer_at};
use crate::pe::rebuild::lesser;
use crate::pe::{directory_of, ModelView, PeKind, SectionModel};

verus! {

/// Whether the entry of a thunk table imports something: it has the mark of an ordinal, which
/// is the highest bit, or leads to a name behind a hint of two bytes.
pub open spec fn imports_something(memory: Seq<u8>, kind: PeKind, table: int, at: int) -> bool {
    match pointer_at(memory, table + at * kind.width(), kind.width()) {
        None => false,
        Some(value) => {
            &&& value != 0
            &&& name_at(memory, value + 2) || match kind {
                PeKind::Pe32 => value & 0x8000_0000 != 0,
                PeKind::Pe32Plus => value & 0x8000_0000_0000_0000 != 0,
            }
        },
    }
}

/// Whether the thunk table has `count` entries that import something, and a null entry behind
/// them.
pub open spec fn has_thunks(memory: Seq<u8>, kind: PeKind, table: int, count: int) -> bool {
    &&& count > 0
    &&& forall|i: int| 0 <= i < count ==> #[trigger] imports_something(memory, kind, table, i)
    &&& pointer_at(memory, table + count * kind.width(), kind.width()) == Some(0u64)
}

/// Whether the descriptor at `offset` has a name and a table of `count` thunks: that of names
/// where it gives one, else that of addresses.
pub open spec fn usable(memory: Seq<u8>, kind: PeKind, offset: int, count: int) -> bool {
    &&& name_at(memory, u32_at(memory, offset + 12) as int)
    &&& has_thunks(
        memory,
        kind,
        if u32_at(memory, offset) != 0 {
            u32_at(memory, offset) as int
        } else {
            u32_at(memory, offset + 16) as int
        },
        count,
    )
}

proof fn lemma_thunks_from(
    memory: Seq<u8>,
    kind: PeKind,
    table: int,
    index: int,
    count: int,
    limit: int,
)
    requires
        0 <= index <= count < limit,
        has_thunks(memory, kind, table, count),
    ensures
        thunks_from(memory, kind, table, index, limit) == (Some(count), limit - count - 1),
    decreases count - index,
{
    if index < count {
        assert(imports_something(memory, kind, table, index));
        lemma_thunks_from(memory, kind, table, index + 1, count, limit);
    }
}

/// A thunk table is measured right, as far as the budget goes; each entry that is read, the
/// null entry included, takes one off it.
pub proof fn law_thunk_tables_are_measured(
    memory: Seq<u8>,
    kind: PeKind,
    original: u32,
    first: u32,
    count: int,
    budget: int,
)
    requires
        has_thunks(
            memory,
            kind,
            if original != 0 {
                original as int
            } else {
                first as int
            },
            count,
        ),
        count < budget,
    ensures
        thunk_length(memory, kind, original, first, budget) == (Some(count), budget - count - 1),
{
    lemma_thunks_from(
        memory,
        kind,
        if original != 0 {
            original as int
        } else {
            first as int
        },
        0,
        count,
        budget,
    );
}

/// How many entries are read to measure the thunk tables of the first `count` descriptors,
/// where each has as many thunks as `lengths` says, and one without a name has none.
pub open spec fn entries_read(lengths: Seq<int>, count: int) -> int
    decreases count,
{
    if count <= 0 {
        0
    } else {
        entries_read(lengths, count - 1) + if lengths[count - 1] > 0 {
            lengths[count - 1] + 1
        } else {
            0
        }
    }
}

/// The first `count` descriptors of the table one behind the other, without those that have
/// no name.
pub open spec fn named_ones(memory: Seq<u8>, table: int, lengths: Seq<int>, count: int) -> Seq<u8>
    decreases count,
{
    if count <= 0 {
        Seq::empty()
    } else if lengths[count - 1] > 0 {
        named_ones(memory, table, lengths, count - 1) + memory.subrange(
            table + 20 * (count - 1),
            table + 20 * (count - 1) + 20,
        )
    } else {
        named_ones(memory, table, lengths, count - 1)
    }
}

/// Whether the descriptors at the start of the table lie in memory and are not all zero, and
/// each has either no name or as many thunks as `lengths` says.
#[verifier::opaque]
pub open spec fn described(memory: Seq<u8>, kind: PeKind, table: int, lengths: Seq<int>) -> bool {
    forall|i: int|
        0 <= i < lengths.len() ==> {
            let offset = table + 20 * i;
            &&& fits(memory, offset, 20)
            &&& !all_zero(memory.subrange(offset, offset + 20))
            &&& if (#[trigger] lengths[i]) > 0 {
                usable(memory, kind, offset, lengths[i])
            } else {
                !name_at(memory, u32_at(memory, offset + 12) as int)
            }
        }
}

proof fn lemma_entries_grow(lengths: Seq<int>, from: int, to: int)
    requires
        0 <= from <= to <= lengths.len(),
    ensures
        0 <= entries_read(lengths, from) <= entries_read(lengths, to),
    decreases to,
{
    if from < to {
        lemma_entries_grow(lengths, from, to - 1);
    } else if from > 0 {
        lemma_entries_grow(lengths, from - 1, from - 1);
    }
}

proof fn lemma_declared_from(
    memory: Seq<u8>,
    kind: PeKind,
    table: int,
    at: int,
    count: int,
    lengths: Seq<int>,
)
    requires
        0 <= at <= lengths.len() <= count,
        described(memory, kind, table, lengths),
        entries_read(lengths, lengths.len() as int) <= 65_536,
        lengths.len() == count || (fits(memory, table + 20 * lengths.len(), 20) && all_zero(
            memory.subrange(table + 20 * lengths.len(), table + 20 * lengths.len() + 20),
        )),
    ensures
        declared_from(
            memory,
            kind,
            table,
            at,
            count,
            65_536 - entries_read(lengths, at),
            named_ones(memory, table, lengths, at),
        ) == nonempty(named_ones(memory, table, lengths, lengths.len() as int)),
    decreases lengths.len() - at,
{
    if at < lengths.len() {
        let offset = table + 20 * at;
        let budget = 65_536 - entries_read(lengths, at);
        let found = named_ones(memory, table, lengths, at);
        lemma_entries_grow(lengths, at + 1, lengths.len() as int);
        lemma_entries_grow(lengths, at, at);
        lemma_declared_from(memory, kind, table, at + 1, count, lengths);
        assert(fits(memory, offset, 20) && !all_zero(memory.subrange(offset, offset + 20)) && (
        if lengths[at] > 0 {
            usable(memory, kind, offset, lengths[at])
        } else {
            !name_at(memory, u32_at(memory, offset + 12) as int)
        })) by {
            reveal(described);
        }
        if lengths[at] > 0 {
            law_thunk_tables_are_measured(
                memory,
                kind,
                u32_at(memory, offset),
                u32_at(memory, offset + 16),
                lengths[at],
                budget,
            );
        }
    }
}

/// The descriptors of an import directory are kept: all that have a name and a thunk table,
/// in order, up to the end of the directory or the descriptor that is all zero; those without
/// a name are left out, and where nothing is left there are none.
pub proof fn law_import_directories_are_kept(
    memory: Seq<u8>,
    model: ModelView,
    rva: u32,
    size: u32,
    lengths: Seq<int>,
)
    requires
        directory_of(memory, model.headers, 1) matches Ok(Some(directory)) && directory.rva.0 == rva
            && directory.size == size,
        20 <= size,
        20 * lengths.len() <= size,
        lengths.len() <= 4_096,
        described(memory, model.headers.kind, rva as int, lengths),
        entries_read(lengths, lengths.len() as int) <= 65_536,
        20 * (lengths.len() + 1) > size || lengths.len() == 4_096 || (fits(
            memory,
            rva + 20 * lengths.len(),
            20,
        ) && all_zero(
            memory.subrange(rva + 20 * lengths.len(), rva + 20 * lengths.len() + 20),
        )),
    ensures
        ({
            let kept = named_ones(memory, rva as int, lengths, lengths.len() as int);
            declared_descriptors(memory, model) == if kept.len() > 0 {
                Some(kept)
            } else {
                None
            }
        }),
{
    lemma_declared_from(
        memory,
        model.headers.kind,
        rva as int,
        0,
        lesser(size as int / 20, 4_096),
        lengths,
    );
}

proof fn lemma_all_named(memory: Seq<u8>, table: int, lengths: Seq<int>, count: int)
    requires
        0 <= count <= lengths.len(),
        fits(memory, table, 20 * count),
        forall|i: int| 0 <= i < lengths.len() ==> #[trigger] lengths[i] > 0,
    ensures
        named_ones(memory, table, lengths, count) == memory.subrange(table, table + 20 * count),
    decreases count,
{
    if count > 0 {
        lemma_all_named(memory, table, lengths, count - 1);
        assert(lengths[count - 1] > 0);
        assert(memory.subrange(table, table + 20 * (count - 1)) + memory.subrange(
            table + 20 * (count - 1),
            table + 20 * (count - 1) + 20,
        ) =~= memory.subrange(table, table + 20 * count));
    } else {
        assert(memory.subrange(table, table) =~= Seq::empty());
    }
}

/// An import directory whose descriptors all have a name and a thunk table is kept whole.
pub proof fn law_whole_directories_stay_whole(
    memory: Seq<u8>,
    table: int,
    lengths: Seq<int>,
)
    requires
        fits(memory, table, 20 * lengths.len() as int),
        forall|i: int| 0 <= i < lengths.len() ==> #[trigger] lengths[i] > 0,
    ensures
        named_ones(memory, table, lengths, lengths.len() as int) == memory.subrange(
            table,
            table + 20 * lengths.len(),
        ),
{
    lemma_all_named(memory, table, lengths, lengths.len() as int);
}

/// How many thunks there are in all.
pub open spec fn thunk_sum(lengths: Seq<int>, count: int) -> int
    decreases count,
{
    if count <= 0 {
        0
    } else {
        thunk_sum(lengths, count - 1) + lengths[count - 1]
    }
}

/// Whether an array of descriptors stands at `start`: each has a name, an address table and
/// as many thunks as `lengths` says, and one that is all zero ends it.
#[verifier::opaque]
pub open spec fn array_stands(memory: Seq<u8>, kind: PeKind, start: int, lengths: Seq<int>) -> bool {
    let stop = start + 20 * lengths.len();
    &&& 0 < lengths.len() < 4_096
    &&& fits(memory, start, 20 * lengths.len() as int + 20)
    &&& all_zero(memory.subrange(stop, stop + 20))
    &&& forall|i: int|
        0 <= i < lengths.len() ==> (#[trigger] lengths[i]) > 0 && usable(
            memory,
            kind,
            start + 20 * i,
            lengths[i],
        ) && u32_at(memory, start + 20 * i + 12) != 0 && u32_at(memory, start + 20 * i + 16) != 0
}

proof fn lemma_array_from(
    memory: Seq<u8>,
    kind: PeKind,
    start: int,
    at: int,
    lengths: Seq<int>,
)
    requires
        0 <= at <= lengths.len(),
        array_stands(memory, kind, start, lengths),
        entries_read(lengths, lengths.len() as int) <= 65_536,
    ensures
        array_from(
            memory,
            kind,
            start,
            at,
            65_536 - entries_read(lengths, at),
            ArrayView {
                found: memory.subrange(start, start + 20 * at),
                thunks: thunk_sum(lengths, at),
            },
        ) == Some(
            ArrayView {
                found: memory.subrange(start, start + 20 * lengths.len()),
                thunks: thunk_sum(lengths, lengths.len() as int),
            },
        ),
    decreases lengths.len() - at,
{
    reveal(array_stands);
    if at < lengths.len() {
        let offset = start + 20 * at;
        assert(lengths[at] > 0);
        lemma_entries_grow(lengths, at + 1, lengths.len() as int);
        lemma_entries_grow(lengths, at, at);
        law_thunk_tables_are_measured(
            memory,
            kind,
            u32_at(memory, offset),
            u32_at(memory, offset + 16),
            lengths[at],
            65_536 - entries_read(lengths, at),
        );
        let descriptor = descriptor_bytes(memory, offset);
        if all_zero(descriptor) {
            assert(descriptor[12] == 0 && descriptor[13] == 0 && descriptor[14] == 0
                && descriptor[15] == 0);
        }
        assert(memory.subrange(start, start + 20 * at) + descriptor =~= memory.subrange(
            start,
            start + 20 * (at + 1),
        ));
        lemma_array_from(memory, kind, start, at + 1, lengths);
    }
}

/// An array of descriptors is read whole where it has at least two thunks for each of them.
pub proof fn law_descriptor_arrays_are_read(
    memory: Seq<u8>,
    kind: PeKind,
    start: int,
    lengths: Seq<int>,
)
    requires
        array_stands(memory, kind, start, lengths),
        entries_read(lengths, lengths.len() as int) <= 65_536,
    ensures
        array_at(memory, kind, start) == if thunk_sum(lengths, lengths.len() as int) >= 2
            * lengths.len() {
            Some(memory.subrange(start, start + 20 * lengths.len()))
        } else {
            None
        },
{
    lemma_array_from(memory, kind, start, 0, lengths);
    assert(memory.subrange(start, start) =~= Seq::empty());
    assert(0 < lengths.len() && fits(memory, start, 20 * lengths.len() as int + 20)) by {
        reveal(array_stands);
    }
}

/// How many bytes of a section were captured.
pub open spec fn captured_part(section: SectionModel, memory: Seq<u8>) -> int {
    let start = section.virtual_address.0 as int;
    if start >= memory.len() {
        0
    } else if start + span(section) <= memory.len() {
        span(section)
    } else {
        memory.len() - start
    }
}

/// How many places are tried at most in the data sections before the one at `count`.
pub open spec fn places_before(sections: Seq<SectionModel>, memory: Seq<u8>, count: int) -> int
    decreases count,
{
    if count <= 0 {
        0
    } else {
        places_before(sections, memory, count - 1) + if is_data(sections[count - 1]) {
            captured_part(sections[count - 1], memory) / 4 + 1
        } else {
            0
        }
    }
}

proof fn lemma_orphan_from(
    memory: Seq<u8>,
    kind: PeKind,
    offset: int,
    end: int,
    steps: int,
    place: int,
)
    requires
        offset <= place,
        (place - offset) % 4 == 0,
        place + 20 <= end,
        array_at(memory, kind, place) is Some,
        (place - offset) / 4 < steps,
    ensures
        orphan_from(memory, kind, offset, end, steps).0 is Some,
    decreases place - offset,
{
    if offset < place && array_at(memory, kind, offset) is None {
        lemma_orphan_from(memory, kind, offset + 4, end, steps - 1, place);
    }
}

proof fn lemma_orphan_steps(memory: Seq<u8>, kind: PeKind, offset: int, end: int, steps: int)
    ensures
        ({
            let left = orphan_from(memory, kind, offset, end, steps).1;
            left < steps ==> offset < end && steps - left <= (end - offset) / 4 + 1
        }),
    decreases steps,
{
    if !(offset + 20 > end || steps <= 0) && array_at(memory, kind, offset) is None {
        lemma_orphan_steps(memory, kind, offset + 4, end, steps - 1);
    }
}

proof fn lemma_orphan_in_sections(
    memory: Seq<u8>,
    kind: PeKind,
    sections: Seq<SectionModel>,
    at: int,
    index: int,
    steps: int,
    place: int,
)
    requires
        0 <= at <= index < sections.len(),
        is_data(sections[index]),
        sections[index].start() <= place,
        (place - sections[index].start()) % 4 == 0,
        place + 20 <= sections[index].start() + captured_part(sections[index], memory),
        array_at(memory, kind, place) is Some,
        places_before(sections, memory, index) - places_before(sections, memory, at) + (place
            - sections[index].start()) / 4 < steps,
    ensures
        orphan_in_sections(memory, kind, sections, at, steps) is Some,
    decreases index - at,
{
    assert(0x4000_0000u32 | 0x8000_0000u32 == 0xC000_0000u32) by (bit_vector);
    let section = sections[at];
    let start = section.start();
    let end = lesser(start + section.declared(), memory.len() as int);
    if at == index {
        lemma_orphan_from(memory, kind, start, end, steps, place);
    } else {
        lemma_places_grow(sections, memory, at + 1, index);
        if section.holds_data() {
            let (found, left) = orphan_from(memory, kind, start, end, steps);
            lemma_orphan_steps(memory, kind, start, end, steps);
            lemma_orphan_left(memory, kind, start, end, steps);
            if found is None {
                lemma_orphan_in_sections(memory, kind, sections, at + 1, index, left, place);
            }
        } else {
            lemma_orphan_in_sections(memory, kind, sections, at + 1, index, steps, place);
        }
    }
}

proof fn lemma_orphan_left(memory: Seq<u8>, kind: PeKind, offset: int, end: int, steps: int)
    ensures
        orphan_from(memory, kind, offset, end, steps).1 <= steps,
        offset >= end ==> orphan_from(memory, kind, offset, end, steps).1 == steps,
    decreases steps,
{
    if !(offset + 20 > end || steps <= 0) && array_at(memory, kind, offset) is None {
        lemma_orphan_left(memory, kind, offset + 4, end, steps - 1);
    }
}

proof fn lemma_places_grow(sections: Seq<SectionModel>, memory: Seq<u8>, from: int, to: int)
    requires
        0 <= from <= to <= sections.len(),
    ensures
        0 <= places_before(sections, memory, from) <= places_before(sections, memory, to),
    decreases to,
{
    if from < to {
        lemma_places_grow(sections, memory, from, to - 1);
    } else if from > 0 {
        lemma_places_grow(sections, memory, from - 1, from - 1);
    }
}

/// An array of descriptors that was left behind is found: where one stands in a data section,
/// at a multiple of four from its start, and not too many places come before it, descriptors
/// are found.
pub proof fn law_left_behind_descriptors_are_found(
    memory: Seq<u8>,
    model: ModelView,
    index: int,
    place: int,
    lengths: Seq<int>,
)
    requires
        0 <= index < model.sections.len(),
        is_data(model.sections[index]),
        model.sections[index].start() <= place,
        (place - model.sections[index].start()) % 4 == 0,
        place + 20 <= model.sections[index].start() + captured_part(
            model.sections[index],
            memory,
        ),
        array_stands(memory, model.headers.kind, place, lengths),
        entries_read(lengths, lengths.len() as int) <= 65_536,
        thunk_sum(lengths, lengths.len() as int) >= 2 * lengths.len(),
        places_before(model.sections, memory, index) + (place - model.sections[index].start()) / 4
            < 1_000_000,
    ensures
        orphaned_descriptors(memory, model) is Some,
{
    law_descriptor_arrays_are_read(memory, model.headers.kind, place, lengths);
    lemma_orphan_in_sections(
        memory,
        model.headers.kind,
        model.sections,
        0,
        index,
        1_000_000,
        place,
    );
}

proof fn lemma_orphan_place(
    memory: Seq<u8>,
    kind: PeKind,
    offset: int,
    end: int,
    steps: int,
) -> (place: int)
    requires
        orphan_from(memory, kind, offset, end, steps).0 is Some,
    ensures
        offset <= place,
        (place - offset) % 4 == 0,
        place + 20 <= end,
        orphan_from(memory, kind, offset, end, steps).0 == array_at(memory, kind, place),
        forall|other: int|
            offset <= other < place && (other - offset) % 4 == 0 ==> #[trigger] array_at(
                memory,
                kind,
                other,
            ) is None,
    decreases steps,
{
    if array_at(memory, kind, offset) is Some {
        offset
    } else {
        let place = lemma_orphan_place(memory, kind, offset + 4, end, steps - 1);
        assert(place - (offset + 4) == place - offset - 4);
        assert forall|other: int|
            offset <= other < place && (other - offset) % 4 == 0 implies #[trigger] array_at(
            memory,
            kind,
            other,
        ) is None by {
            if other > offset {
                assert(offset + 4 <= other);
                assert((other - (offset + 4)) % 4 == 0);
            }
        }
        place
    }
}

proof fn lemma_orphan_section(
    memory: Seq<u8>,
    kind: PeKind,
    sections: Seq<SectionModel>,
    at: int,
    steps: int,
) -> (found: (int, int))
    requires
        0 <= at,
        orphan_in_sections(memory, kind, sections, at, steps) is Some,
    ensures
        at <= found.0 < sections.len(),
        is_data(sections[found.0]),
        sections[found.0].start() <= found.1,
        (found.1 - sections[found.0].start()) % 4 == 0,
        found.1 + 20 <= sections[found.0].start() + span(sections[found.0]),
        found.1 + 20 <= memory.len(),
        orphan_in_sections(memory, kind, sections, at, steps) == array_at(memory, kind, found.1),
        forall|other: int|
            sections[found.0].start() <= other < found.1 && (other - sections[found.0].start()) % 4
                == 0 ==> #[trigger] array_at(memory, kind, other) is None,
    decreases sections.len() - at,
{
    assert(0x4000_0000u32 | 0x8000_0000u32 == 0xC000_0000u32) by (bit_vector);
    let section = sections[at];
    if !section.holds_data() {
        lemma_orphan_section(memory, kind, sections, at + 1, steps)
    } else {
        let start = section.start();
        let end = lesser(start + section.declared(), memory.len() as int);
        match orphan_from(memory, kind, start, end, steps) {
            (Some(_), _) => (at, lemma_orphan_place(memory, kind, start, end, steps)),
            (None, left) => lemma_orphan_section(memory, kind, sections, at + 1, left),
        }
    }
}

/// Descriptors that are found are those of an array in a data section, the first such array
/// of that section.
pub proof fn law_found_descriptors_are_an_array(memory: Seq<u8>, model: ModelView)
    requires
        orphaned_descriptors(memory, model) is Some,
    ensures
        exists|index: int, place: int|
            {
                let section = model.sections[index];
                &&& 0 <= index < model.sections.len()
                &&& is_data(section)
                &&& section.start() <= place && place + 20 <= section.start() + span(section)
                &&& orphaned_descriptors(memory, model) == #[trigger] array_in(
                    memory,
                    model,
                    index,
                    place,
                )
                &&& forall|other: int|
                    section.start() <= other < place && (other - section.start()) % 4 == 0
                        ==> #[trigger] array_at(memory, model.headers.kind, other) is None
            },
{
    let (index, place) = lemma_orphan_section(
        memory,
        model.headers.kind,
        model.sections,
        0,
        1_000_000,
    );
    assert(orphaned_descriptors(memory, model) == array_in(memory, model, index, place));
}

/// The array at a place of a section.
pub open spec fn array_in(memory: Seq<u8>, model: ModelView, index: int, place: int) -> Option<
    Seq<u8>,
> {
    array_at(memory, model.headers.kind, place)
}

} // verus!
