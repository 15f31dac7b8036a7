//! What holds of the section that recovered imports are written to.

use vstd::prelude::*;
use vstd::utf8::encode_utf8;

use crate::pe::image::{law_fields_read_back, law_writes_leave_other_fields, put_u32, u32_at};
use crate::pe::imports::plan::{EntryView, GroupView, PlanView};
use crate::pe::imports::thunks::pointer_at;
use crate::pe::rebuild::import_section::{
    descriptor_written, entries_written, entry_added, entry_written, group_written, groups_written,
    ordinal_value, padded, payload_of, thunk_written, with_text, zero_filled,
};
use crate::pe::PeKind;

verus! {

/// Whether a text and a NUL stand at `offset`, not before `floor`.
pub open spec fn text_stands(bytes: Seq<u8>, offset: int, text: Seq<char>, floor: int) -> bool {
    let encoded = encode_utf8(text);
    &&& floor <= offset
    &&& offset + encoded.len() < bytes.len()
    &&& forall|i: int| 0 <= i < encoded.len() ==> bytes[offset + i] == #[trigger] encoded[i]
    &&& bytes[offset + encoded.len()] == 0
}

/// Whether the thunk at `offset` imports what the entry says: by its ordinal, or by a name
/// that the thunk leads to behind two bytes of hint.
pub open spec fn thunk_stands(
    bytes: Seq<u8>,
    kind: PeKind,
    section_rva: u32,
    offset: int,
    entry: EntryView,
    floor: int,
) -> bool {
    match pointer_at(bytes, offset, kind.width()) {
        None => false,
        Some(value) => match entry.name {
            None => value == ordinal_value(kind, entry.ordinal),
            Some(name) => text_stands(bytes, value - section_rva + 2, name, floor),
        },
    }
}

/// Whether the descriptor at `descriptor` describes the group: its slots, its module and,
/// in the order of its imports, its thunks and a null thunk behind them. Nothing that the
/// descriptor leads to stands before `floor`.
pub open spec fn described(
    bytes: Seq<u8>,
    group: GroupView,
    kind: PeKind,
    section_rva: u32,
    descriptor: int,
    floor: int,
) -> bool {
    let lookup = u32_at(bytes, descriptor) - section_rva;
    let module = u32_at(bytes, descriptor + 12) - section_rva;
    &&& u32_at(bytes, descriptor + 16) == group.first_thunk
    &&& text_stands(bytes, module, group.module, floor)
    &&& floor <= lookup
    &&& forall|i: int|
        0 <= i < group.entries.len() ==> thunk_stands(
            bytes,
            kind,
            section_rva,
            lookup + i * kind.width(),
            #[trigger] group.entries[i],
            floor,
        )
    &&& pointer_at(bytes, lookup + group.entries.len() * kind.width(), kind.width()) == Some(0u64)
}

/// Whether `after` goes on with `before` from `from` on.
pub open spec fn keeps(before: Seq<u8>, after: Seq<u8>, from: int) -> bool {
    before.len() <= after.len() && forall|p: int|
        from <= p < before.len() ==> #[trigger] after[p] == before[p]
}

proof fn lemma_text_kept(
    before: Seq<u8>,
    after: Seq<u8>,
    offset: int,
    text: Seq<char>,
    floor: int,
)
    requires
        text_stands(before, offset, text, floor),
        keeps(before, after, floor),
        0 <= floor,
    ensures
        text_stands(after, offset, text, floor),
{
    let encoded = encode_utf8(text);
    assert forall|i: int| 0 <= i < encoded.len() implies after[offset + i]
        == #[trigger] encoded[i] by {
        assert(before[offset + i] == encoded[i]);
        assert(after[offset + i] == before[offset + i]);
    }
}

proof fn lemma_pointer_kept(before: Seq<u8>, after: Seq<u8>, offset: int, width: int)
    requires
        before.len() <= after.len(),
        forall|p: int| offset <= p < offset + width ==> #[trigger] after[p] == before[p],
        pointer_at(before, offset, width) is Some,
    ensures
        pointer_at(after, offset, width) == pointer_at(before, offset, width),
{
    assert(after[offset] == before[offset]);
    assert(after[offset + 1] == before[offset + 1]);
    assert(after[offset + 2] == before[offset + 2]);
    assert(after[offset + 3] == before[offset + 3]);
    if width == 8 {
        assert(after[offset + 4] == before[offset + 4]);
        assert(after[offset + 5] == before[offset + 5]);
        assert(after[offset + 6] == before[offset + 6]);
        assert(after[offset + 7] == before[offset + 7]);
    }
}

proof fn lemma_thunk_kept(
    before: Seq<u8>,
    after: Seq<u8>,
    kind: PeKind,
    section_rva: u32,
    offset: int,
    entry: EntryView,
    floor: int,
    from: int,
)
    requires
        thunk_stands(before, kind, section_rva, offset, entry, floor),
        keeps(before, after, from),
        0 <= from <= floor,
        forall|p: int|
            offset <= p < offset + kind.width() ==> #[trigger] after[p] == before[p],
    ensures
        thunk_stands(after, kind, section_rva, offset, entry, floor),
{
    lemma_pointer_kept(before, after, offset, kind.width());
    if let Some(name) = entry.name {
        let value = pointer_at(before, offset, kind.width())->Some_0;
        lemma_text_kept(before, after, value - section_rva + 2, name, floor);
    }
}

proof fn lemma_thunk_written(bytes: Seq<u8>, offset: int, kind: PeKind, thunk: u64)
    requires
        thunk_written(bytes, offset, kind, thunk as int) is Ok,
    ensures
        ({
            let after = thunk_written(bytes, offset, kind, thunk as int)->Ok_0;
            &&& after.len() == bytes.len()
            &&& pointer_at(after, offset, kind.width()) == Some(thunk)
            &&& forall|p: int|
                0 <= p < bytes.len() && !(offset <= p < offset + kind.width())
                    ==> #[trigger] after[p] == bytes[p]
        }),
{
    law_fields_read_back(bytes, offset, 0, thunk as u32, thunk);
}

proof fn lemma_text_added(bytes: Seq<u8>, text: Seq<char>, floor: int)
    requires
        floor <= bytes.len(),
        with_text(bytes, text) is Ok,
    ensures
        keeps(bytes, with_text(bytes, text)->Ok_0, 0),
        text_stands(with_text(bytes, text)->Ok_0, bytes.len() as int, text, floor),
{
    let after = with_text(bytes, text)->Ok_0;
    let encoded = encode_utf8(text);
    assert(after == bytes + encoded + seq![0u8]);
    assert forall|i: int| 0 <= i < encoded.len() implies after[bytes.len() + i]
        == #[trigger] encoded[i] by {}
}

proof fn lemma_padded(bytes: Seq<u8>, alignment: int)
    requires
        alignment > 0,
        bytes.len() <= usize::MAX,
    ensures
        keeps(bytes, padded(bytes, alignment), 0),
{
    assert((alignment - bytes.len() as int % alignment) % alignment >= 0) by (nonlinear_arith)
        requires
            alignment > 0,
    ;
}

/// What an entry adds behind the payload.
proof fn lemma_entry_added(payload: Seq<u8>, entry: EntryView, kind: PeKind, section_rva: u32)
    requires
        payload.len() <= usize::MAX,
        entry_added(payload, entry, kind, section_rva) is Ok,
    ensures
        ({
            let (bytes, thunk) = entry_added(payload, entry, kind, section_rva)->Ok_0;
            &&& keeps(payload, bytes, 0)
            &&& 0 <= thunk <= u64::MAX
            &&& match entry.name {
                None => thunk == ordinal_value(kind, entry.ordinal),
                Some(name) => text_stands(
                    bytes,
                    thunk - section_rva + 2,
                    name,
                    payload.len() as int,
                ),
            }
        }),
{
    if let Some(name) = entry.name {
        lemma_padded(payload, 2);
        let start = padded(payload, 2);
        let hinted = start + seq![0u8, 0u8];
        lemma_text_added(hinted, name, payload.len() as int);
        let bytes = with_text(hinted, name)->Ok_0;
        assert forall|p: int| 0 <= p < payload.len() implies #[trigger] bytes[p] == payload[p] by {
            assert(bytes[p] == hinted[p]);
            assert(hinted[p] == start[p]);
        }
    }
}

/// What one entry adds: its thunk stands, and nothing else before the end has changed.
proof fn lemma_entry_written(
    payload: Seq<u8>,
    entry: EntryView,
    kind: PeKind,
    section_rva: u32,
    lookup: int,
    index: int,
    end: int,
)
    requires
        0 <= index,
        0 <= lookup,
        lookup + (index + 1) * kind.width() <= end <= payload.len(),
        payload.len() <= usize::MAX,
        entry_written(payload, entry, kind, section_rva, lookup, index) is Ok,
    ensures
        ({
            let bytes = entry_written(payload, entry, kind, section_rva, lookup, index)->Ok_0;
            let offset = lookup + index * kind.width();
            &&& payload.len() <= bytes.len()
            &&& forall|p: int|
                0 <= p < payload.len() && !(offset <= p < offset + kind.width())
                    ==> #[trigger] bytes[p] == payload[p]
            &&& thunk_stands(bytes, kind, section_rva, offset, entry, end)
        }),
{
    reveal(entry_written);
    let offset = lookup + index * kind.width();
    assert((index + 1) * kind.width() == index * kind.width() + kind.width())
        by (nonlinear_arith);
    assert(0 <= index * kind.width()) by (nonlinear_arith)
        requires
            0 <= index,
            0 < kind.width(),
    ;
    let (grown, thunk) = entry_added(payload, entry, kind, section_rva)->Ok_0;
    let bytes = thunk_written(grown, offset, kind, thunk)->Ok_0;
    lemma_entry_added(payload, entry, kind, section_rva);
    lemma_thunk_written(grown, offset, kind, thunk as u64);
    assert(keeps(grown, bytes, end));
    if let Some(name) = entry.name {
        assert(text_stands(grown, thunk - section_rva + 2, name, end));
        lemma_text_kept(grown, bytes, thunk - section_rva + 2, name, end);
    }
}

/// What the entries of a group add: their thunks stand, and nothing else before the end has
/// changed.
proof fn lemma_entries_written(
    payload: Seq<u8>,
    group: GroupView,
    kind: PeKind,
    section_rva: u32,
    lookup: int,
    index: int,
    end: int,
)
    requires
        0 <= index <= group.entries.len(),
        0 <= lookup,
        lookup + (group.entries.len() + 1) * kind.width() <= end <= payload.len(),
        entries_written(payload, group, kind, section_rva, lookup, index) matches Ok(bytes)
            && bytes.len() < usize::MAX,
    ensures
        ({
            let bytes = entries_written(payload, group, kind, section_rva, lookup, index)->Ok_0;
            &&& payload.len() <= bytes.len()
            &&& forall|p: int|
                0 <= p < payload.len() && !(lookup + index * kind.width() <= p < lookup
                    + group.entries.len() * kind.width()) ==> #[trigger] bytes[p] == payload[p]
            &&& forall|i: int|
                index <= i < group.entries.len() ==> thunk_stands(
                    bytes,
                    kind,
                    section_rva,
                    lookup + i * kind.width(),
                    #[trigger] group.entries[i],
                    end,
                )
        }),
    decreases group.entries.len() - index,
{
    if index < group.entries.len() {
        let count = group.entries.len() as int;
        let width = kind.width();
        assert((index + 1) * width == index * width + width) by (nonlinear_arith);
        assert((count + 1) * width == count * width + width) by (nonlinear_arith);
        assert((index + 1) * width <= count * width) by (nonlinear_arith)
            requires
                index + 1 <= count,
                0 < width,
        ;
        assert(0 <= index * width) by (nonlinear_arith)
            requires
                0 <= index,
                0 < width,
        ;
        let entry = group.entries[index];
        let next = entry_written(payload, entry, kind, section_rva, lookup, index)->Ok_0;
        let bytes = entries_written(payload, group, kind, section_rva, lookup, index)->Ok_0;
        lemma_entries_grow(payload, group, kind, section_rva, lookup, index);
        lemma_entry_written(payload, entry, kind, section_rva, lookup, index, end);
        lemma_entries_written(next, group, kind, section_rva, lookup, index + 1, end);
        let offset = lookup + index * width;
        assert forall|p: int|
            offset <= p < offset + width implies #[trigger] bytes[p] == next[p] by {}
        assert(keeps(next, bytes, end));
        lemma_thunk_kept(next, bytes, kind, section_rva, offset, entry, end, end);
        assert forall|i: int| index <= i < group.entries.len() implies thunk_stands(
            bytes,
            kind,
            section_rva,
            lookup + i * kind.width(),
            #[trigger] group.entries[i],
            end,
        ) by {
            if i > index {
                assert(index + 1 <= i);
            }
        }
    }
}

/// Writing entries does not shorten the payload.
proof fn lemma_entries_grow(
    payload: Seq<u8>,
    group: GroupView,
    kind: PeKind,
    section_rva: u32,
    lookup: int,
    index: int,
)
    ensures
        entries_written(payload, group, kind, section_rva, lookup, index) matches Ok(bytes)
            ==> payload.len() <= bytes.len(),
    decreases group.entries.len() - index,
{
    if index < group.entries.len() {
        if let Ok(next) = entry_written(
            payload,
            group.entries[index],
            kind,
            section_rva,
            lookup,
            index,
        ) {
            assert(payload.len() <= next.len()) by {
                reveal(entry_written);
            }
            lemma_entries_grow(next, group, kind, section_rva, lookup, index + 1);
        }
    }
}

proof fn lemma_descriptor_written(
    payload: Seq<u8>,
    descriptor: int,
    section_rva: u32,
    lookup: int,
    module: int,
    first_thunk: u32,
)
    requires
        0 <= lookup,
        0 <= module,
        descriptor_written(payload, descriptor, section_rva, lookup, module, first_thunk) is Ok,
    ensures
        ({
            let bytes = descriptor_written(
                payload,
                descriptor,
                section_rva,
                lookup,
                module,
                first_thunk,
            )->Ok_0;
            &&& bytes.len() == payload.len()
            &&& u32_at(bytes, descriptor) == section_rva + lookup
            &&& u32_at(bytes, descriptor + 12) == section_rva + module
            &&& u32_at(bytes, descriptor + 16) == first_thunk
            &&& forall|p: int|
                0 <= p < payload.len() && !(descriptor <= p < descriptor + 20)
                    ==> #[trigger] bytes[p] == payload[p]
        }),
{
    let lookup_rva = (section_rva + lookup) as u32;
    let module_rva = (section_rva + module) as u32;
    let first = put_u32(payload, descriptor, lookup_rva)->Ok_0;
    let second = put_u32(first, descriptor + 12, module_rva)->Ok_0;
    let third = put_u32(second, descriptor + 16, first_thunk)->Ok_0;
    law_fields_read_back(payload, descriptor, 0, lookup_rva, 0);
    law_fields_read_back(first, descriptor + 12, 0, module_rva, 0);
    law_fields_read_back(second, descriptor + 16, 0, first_thunk, 0);
    law_writes_leave_other_fields(
        first,
        descriptor + 12,
        crate::pe::image::le_u32(module_rva),
        descriptor,
    );
    law_writes_leave_other_fields(
        second,
        descriptor + 16,
        crate::pe::image::le_u32(first_thunk),
        descriptor,
    );
    law_writes_leave_other_fields(
        second,
        descriptor + 16,
        crate::pe::image::le_u32(first_thunk),
        descriptor + 12,
    );
}

/// The room for a lookup table behind a payload: zeros, at an aligned offset.
proof fn lemma_room(payload: Seq<u8>, alignment: int, size: int)
    requires
        alignment > 0,
        0 <= size,
        payload.len() <= usize::MAX,
        padded(payload, alignment).len() + size <= usize::MAX,
    ensures
        ({
            let start = padded(payload, alignment);
            let sized = zero_filled(start, crate::pe::rebuild::clipped(start.len() + size));
            &&& payload.len() <= start.len()
            &&& sized.len() == start.len() + size
            &&& keeps(payload, sized, 0)
            &&& forall|p: int| start.len() <= p < sized.len() ==> #[trigger] sized[p] == 0
        }),
{
    lemma_padded(payload, alignment);
    let start = padded(payload, alignment);
    let sized = zero_filled(start, crate::pe::rebuild::clipped(start.len() + size));
    assert forall|p: int| 0 <= p < payload.len() implies #[trigger] sized[p] == payload[p] by {
        assert(start[p] == payload[p]);
    }
}

/// What a group adds: its descriptor describes it, and nothing else has changed.
#[verifier::rlimit(60)]
#[verifier::spinoff_prover]
proof fn lemma_group_written(
    payload: Seq<u8>,
    group: GroupView,
    kind: PeKind,
    section_rva: u32,
    descriptor: int,
    floor: int,
)
    requires
        0 <= descriptor,
        descriptor + 20 <= floor <= payload.len(),
        payload.len() <= usize::MAX,
        group_written(payload, group, kind, section_rva, descriptor) matches Ok(bytes)
            && bytes.len() < usize::MAX,
    ensures
        ({
            let bytes = group_written(payload, group, kind, section_rva, descriptor)->Ok_0;
            &&& payload.len() <= bytes.len()
            &&& forall|p: int|
                0 <= p < payload.len() && !(descriptor <= p < descriptor + 20)
                    ==> #[trigger] bytes[p] == payload[p]
            &&& described(bytes, group, kind, section_rva, descriptor, floor)
        }),
{
    reveal(group_written);
    let width = kind.width();
    let count = group.entries.len() as int;
    let start = padded(payload, width);
    let lookup = start.len() as int;
    let size = (count + 1) * width;
    assert(size == count * width + width) by (nonlinear_arith)
        requires
            size == (count + 1) * width,
    ;
    assert(0 <= count * width) by (nonlinear_arith)
        requires
            0 <= count,
            0 < width,
    ;
    let sized = zero_filled(start, crate::pe::rebuild::clipped(lookup + size));
    let filled = entries_written(sized, group, kind, section_rva, lookup, 0)->Ok_0;
    let named = with_text(filled, group.module)->Ok_0;
    let module = filled.len() as int;
    let bytes = descriptor_written(
        named,
        descriptor,
        section_rva,
        lookup,
        module,
        group.first_thunk,
    )->Ok_0;
    assert(bytes == group_written(payload, group, kind, section_rva, descriptor)->Ok_0);
    lemma_entries_grow(sized, group, kind, section_rva, lookup, 0);
    lemma_descriptor_written(
        named,
        descriptor,
        section_rva,
        lookup,
        module,
        group.first_thunk,
    );
    lemma_text_added(filled, group.module, module);
    lemma_room(payload, width, size);
    lemma_entries_written(sized, group, kind, section_rva, lookup, 0, lookup + size);
    assert(0 * width == 0) by (nonlinear_arith);
    assert forall|p: int|
        floor <= p < filled.len() implies #[trigger] bytes[p] == filled[p] by {
        assert(bytes[p] == named[p]);
        assert(named[p] == filled[p]);
    }
    assert forall|p: int|
        0 <= p < payload.len() && !(descriptor <= p < descriptor
            + 20) implies #[trigger] bytes[p] == payload[p] by {
        assert(bytes[p] == named[p]);
        assert(named[p] == filled[p]);
        assert(filled[p] == sized[p]);
        assert(sized[p] == payload[p]);
    }
    assert(text_stands(named, module, group.module, floor));
    lemma_text_kept(named, bytes, module, group.module, floor);
    assert(keeps(filled, bytes, floor));
    assert forall|i: int| 0 <= i < group.entries.len() implies thunk_stands(
        bytes,
        kind,
        section_rva,
        lookup + i * kind.width(),
        #[trigger] group.entries[i],
        floor,
    ) by {
        let entry = group.entries[i];
        assert(0 <= i * width) by (nonlinear_arith)
            requires
                0 <= i,
                0 < width,
        ;
        assert(thunk_stands(filled, kind, section_rva, lookup + i * width, entry, lookup + size));
        assert(thunk_stands(filled, kind, section_rva, lookup + i * width, entry, floor));
        lemma_thunk_kept(
            filled,
            bytes,
            kind,
            section_rva,
            lookup + i * width,
            entry,
            floor,
            floor,
        );
    }
    let last = lookup + count * width;
    assert forall|p: int| last <= p < last + width implies #[trigger] bytes[p] == 0 by {
        assert(sized[p] == 0);
        assert(filled[p] == sized[p]);
    }
    assert(bytes[last] == 0 && bytes[last + 1] == 0 && bytes[last + 2] == 0 && bytes[last + 3]
        == 0);
    if width == 8 {
        assert(bytes[last + 4] == 0 && bytes[last + 5] == 0 && bytes[last + 6] == 0 && bytes[last
            + 7] == 0);
    }
    assert(pointer_at(bytes, last, width) == Some(0u64));
}

proof fn lemma_described_kept(
    before: Seq<u8>,
    after: Seq<u8>,
    group: GroupView,
    kind: PeKind,
    section_rva: u32,
    descriptor: int,
    floor: int,
)
    requires
        described(before, group, kind, section_rva, descriptor, floor),
        0 <= descriptor,
        descriptor + 20 <= floor <= before.len(),
        keeps(before, after, floor),
        forall|p: int|
            descriptor <= p < descriptor + 20 ==> #[trigger] after[p] == before[p],
    ensures
        described(after, group, kind, section_rva, descriptor, floor),
{
    assert(u32_at(after, descriptor) == u32_at(before, descriptor)) by {
        assert(after[descriptor] == before[descriptor]);
        assert(after[descriptor + 1] == before[descriptor + 1]);
        assert(after[descriptor + 2] == before[descriptor + 2]);
        assert(after[descriptor + 3] == before[descriptor + 3]);
    }
    assert(u32_at(after, descriptor + 12) == u32_at(before, descriptor + 12)) by {
        assert(after[descriptor + 12] == before[descriptor + 12]);
        assert(after[descriptor + 13] == before[descriptor + 13]);
        assert(after[descriptor + 14] == before[descriptor + 14]);
        assert(after[descriptor + 15] == before[descriptor + 15]);
    }
    assert(u32_at(after, descriptor + 16) == u32_at(before, descriptor + 16)) by {
        assert(after[descriptor + 16] == before[descriptor + 16]);
        assert(after[descriptor + 17] == before[descriptor + 17]);
        assert(after[descriptor + 18] == before[descriptor + 18]);
        assert(after[descriptor + 19] == before[descriptor + 19]);
    }
    let width = kind.width();
    let lookup = u32_at(before, descriptor) - section_rva;
    let module = u32_at(before, descriptor + 12) - section_rva;
    lemma_text_kept(before, after, module, group.module, floor);
    assert forall|i: int| 0 <= i < group.entries.len() implies thunk_stands(
        after,
        kind,
        section_rva,
        lookup + i * kind.width(),
        #[trigger] group.entries[i],
        floor,
    ) by {
        assert(0 <= i * width) by (nonlinear_arith)
            requires
                0 <= i,
                0 < width,
        ;
        let entry = group.entries[i];
        assert(thunk_stands(before, kind, section_rva, lookup + i * width, entry, floor));
        lemma_thunk_kept(
            before,
            after,
            kind,
            section_rva,
            lookup + i * width,
            entry,
            floor,
            floor,
        );
    }
    let count = group.entries.len() as int;
    assert(0 <= count * width) by (nonlinear_arith)
        requires
            0 <= count,
            0 < width,
    ;
    lemma_pointer_kept(before, after, lookup + count * width, width);
}

/// Writing groups does not shorten the payload.
proof fn lemma_groups_grow(
    payload: Seq<u8>,
    plan: PlanView,
    kind: PeKind,
    section_rva: u32,
    index: int,
)
    ensures
        groups_written(payload, plan, kind, section_rva, index) matches Ok(bytes) ==> payload.len()
            <= bytes.len(),
    decreases plan.groups.len() - index,
{
    if index < plan.groups.len() {
        let descriptor = 20 * index + plan.existing.len();
        if let Ok(next) = group_written(
            payload,
            plan.groups[index],
            kind,
            section_rva,
            descriptor,
        ) {
            assert(payload.len() <= next.len()) by {
                reveal(group_written);
                let group = plan.groups[index];
                let start = padded(payload, kind.width());
                let size = (group.entries.len() + 1) * kind.width();
                let sized = zero_filled(start, crate::pe::rebuild::clipped(start.len() + size));
                lemma_entries_grow(sized, group, kind, section_rva, start.len() as int, 0);
            }
            lemma_groups_grow(next, plan, kind, section_rva, index + 1);
        }
    }
}

proof fn lemma_groups_written(
    payload: Seq<u8>,
    plan: PlanView,
    kind: PeKind,
    section_rva: u32,
    index: int,
    floor: int,
)
    requires
        0 <= index <= plan.groups.len(),
        floor == 20 * (plan.groups.len() + 1) + plan.existing.len(),
        floor <= payload.len(),
        groups_written(payload, plan, kind, section_rva, index) matches Ok(bytes) && bytes.len()
            < usize::MAX,
        forall|i: int|
            0 <= i < index ==> described(
                payload,
                #[trigger] plan.groups[i],
                kind,
                section_rva,
                20 * i + plan.existing.len(),
                floor,
            ),
    ensures
        ({
            let bytes = groups_written(payload, plan, kind, section_rva, index)->Ok_0;
            &&& payload.len() <= bytes.len()
            &&& forall|p: int|
                0 <= p < payload.len() && !(plan.existing.len() <= p < floor - 20)
                    ==> #[trigger] bytes[p] == payload[p]
            &&& forall|i: int|
                0 <= i < plan.groups.len() ==> described(
                    bytes,
                    #[trigger] plan.groups[i],
                    kind,
                    section_rva,
                    20 * i + plan.existing.len(),
                    floor,
                )
        }),
    decreases plan.groups.len() - index,
{
    if index < plan.groups.len() {
        let group = plan.groups[index];
        let descriptor = 20 * index + plan.existing.len() as int;
        let next = group_written(payload, group, kind, section_rva, descriptor)->Ok_0;
        lemma_groups_grow(payload, plan, kind, section_rva, index);
        lemma_groups_grow(next, plan, kind, section_rva, index + 1);
        lemma_group_written(payload, group, kind, section_rva, descriptor, floor);
        assert forall|i: int| 0 <= i < index + 1 implies described(
            next,
            #[trigger] plan.groups[i],
            kind,
            section_rva,
            20 * i + plan.existing.len(),
            floor,
        ) by {
            if i < index {
                lemma_described_kept(
                    payload,
                    next,
                    plan.groups[i],
                    kind,
                    section_rva,
                    20 * i + plan.existing.len(),
                    floor,
                );
            }
        }
        lemma_groups_written(next, plan, kind, section_rva, index + 1, floor);
    }
}

/// The section can be read back: the descriptors that were kept come first, each group is
/// described by the descriptor at its place, with its slots, its module and its imports in
/// order, and an empty descriptor ends the table. A payload as long as the machine's
/// largest size is left out.
pub proof fn law_imports_read_back(plan: PlanView, kind: PeKind, section_rva: u32)
    requires
        payload_of(plan, kind, section_rva) matches Ok(bytes) && bytes.len() < usize::MAX,
    ensures
        ({
            let bytes = payload_of(plan, kind, section_rva)->Ok_0;
            let size = 20 * (plan.groups.len() + 1) + plan.existing.len() as int;
            &&& size <= bytes.len()
            &&& bytes.take(plan.existing.len() as int) == plan.existing
            &&& forall|p: int| size - 20 <= p < size ==> #[trigger] bytes[p] == 0
            &&& forall|i: int|
                0 <= i < plan.groups.len() ==> described(
                    bytes,
                    #[trigger] plan.groups[i],
                    kind,
                    section_rva,
                    20 * i + plan.existing.len(),
                    size,
                )
        }),
{
    let size = 20 * (plan.groups.len() + 1) + plan.existing.len() as int;
    let initial = zero_filled(plan.existing, size);
    lemma_groups_written(initial, plan, kind, section_rva, 0, size);
    let bytes = payload_of(plan, kind, section_rva)->Ok_0;
    assert(bytes.take(plan.existing.len() as int) =~= plan.existing) by {
        assert forall|p: int| 0 <= p < plan.existing.len() implies bytes[p] == plan.existing[p] by {
            assert(bytes[p] == initial[p]);
        }
    }
    assert forall|p: int| size - 20 <= p < size implies #[trigger] bytes[p] == 0 by {
        assert(bytes[p] == initial[p]);
    }
}

} // verus!
