//! What the imports that are recovered from code have to do with the code.

use vstd::prelude::*;

use crate::order::{in_order, law_in_order_lists_the_set};
use crate::pe::exports::ExportView;
use crate::pe::image::u32_at;
use crate::pe::imports::grouping::{
    law_grouping_keeps_counts, law_single_imports_are_kept, lists_import,
};
use crate::pe::imports::plan::{full, taken_slots, with_group_slots, GroupView, PlanView};
use crate::pe::imports::ranges::Scene;
use crate::pe::imports::references::{
    code_of, descriptor_slots, gathered_from, references_from, references_in, references_of,
    references_recovered, searched_length, settled_slots, with_reference, with_table_slots, Code,
    Gathered, ReferencesView,
};
use crate::pe::imports::thunks::pointer_at;
use crate::pe::rebuild::reported::count_where;
use crate::pe::{ModelView, PeKind, SectionModel};

verus! {

/// Whether the address is `distance` away from `from`, where the distance is a 32-bit number
/// in two's complement.
pub open spec fn away(from: int, distance: u32, address: int) -> bool {
    address == if distance < 0x8000_0000 {
        from + distance
    } else {
        from + distance - 0x1_0000_0000
    }
}

/// Whether the instruction calls or jumps through the slot: `FF 15` or `FF 25`, with the
/// address of the slot, or its distance from the next instruction in 64-bit code.
pub open spec fn goes_through(code: Code, instruction: int, slot: u32) -> bool {
    &&& 0 <= instruction && instruction + 6 <= code.memory.len()
    &&& code.memory[instruction] == 0xFF
    &&& code.memory[instruction + 1] == 0x15 || code.memory[instruction + 1] == 0x25
    &&& match code.kind {
        PeKind::Pe32 => u32_at(code.memory, instruction + 2) == code.base + slot,
        PeKind::Pe32Plus => away(
            instruction + 6,
            u32_at(code.memory, instruction + 2),
            slot as int,
        ) && code.base + instruction + 6 <= u64::MAX && code.base + slot <= u64::MAX,
    }
}

/// Whether the instruction loads a register from the slot in 64-bit code: `48 8B` or `4C 8B`,
/// an operand relative to the next instruction, and the distance of the slot from it.
pub open spec fn loads_from(code: Code, instruction: int, slot: u32) -> bool {
    &&& code.kind == PeKind::Pe32Plus
    &&& 0 <= instruction && instruction + 7 <= code.memory.len()
    &&& code.memory[instruction] == 0x48 || code.memory[instruction] == 0x4C
    &&& code.memory[instruction + 1] == 0x8B
    &&& code.memory[instruction + 2] & 0xC7 == 0x05
    &&& away(instruction + 7, u32_at(code.memory, instruction + 3), slot as int)
    &&& code.base + instruction + 7 <= u64::MAX
    &&& code.base + slot <= u64::MAX
}

/// Whether the section may be executed.
pub open spec fn runs(section: SectionModel) -> bool {
    section.characteristics & 0x2000_0000 != 0
}

/// The size of a section: the larger of the two that its header gives.
pub open spec fn span(section: SectionModel) -> int {
    if section.virtual_size >= section.raw_size {
        section.virtual_size as int
    } else {
        section.raw_size as int
    }
}

/// How many bytes of the section were captured.
pub open spec fn captured_span(section: SectionModel, memory: Seq<u8>) -> int {
    let start = section.virtual_address.0 as int;
    if start >= memory.len() {
        0
    } else if start + span(section) <= memory.len() {
        span(section)
    } else {
        memory.len() - start
    }
}

/// How many bytes of the first `count` sections are code.
pub open spec fn code_bytes(sections: Seq<SectionModel>, memory: Seq<u8>, count: int) -> int
    decreases count,
{
    if count <= 0 {
        0
    } else {
        code_bytes(sections, memory, count - 1) + if runs(sections[count - 1]) {
            captured_span(sections[count - 1], memory)
        } else {
            0
        }
    }
}

/// Whether what was seen before is still there.
pub open spec fn keeps(before: ReferencesView, after: ReferencesView) -> bool {
    before.slots.subset_of(after.slots) && before.direct.subset_of(after.direct)
}

proof fn lemma_references_from_keeps(seen: ReferencesView, code: Code, instruction: int, end: int)
    ensures
        keeps(seen, references_from(seen, code, instruction, end)),
    decreases end - instruction,
{
    if !(instruction >= end || seen.slots.len() >= 65_536) {
        lemma_references_from_keeps(
            with_reference(seen, code, instruction),
            code,
            instruction + 1,
            end,
        );
    }
}

proof fn lemma_references_in_keeps(
    seen: ReferencesView,
    code: Code,
    sections: Seq<SectionModel>,
    index: int,
    scanned: int,
)
    ensures
        keeps(seen, references_in(seen, code, sections, index, scanned)),
    decreases sections.len() - index,
{
    if index >= sections.len() || seen.slots.len() >= 65_536 {
    } else if !sections[index].executable() || scanned >= 0x1000_0000 {
        lemma_references_in_keeps(seen, code, sections, index + 1, scanned);
    } else {
        let length = searched_length(sections[index], code.memory, scanned);
        let start = sections[index].start();
        lemma_references_from_keeps(seen, code, start, start + length - 5);
        lemma_references_in_keeps(
            references_from(seen, code, start, start + length - 5),
            code,
            sections,
            index + 1,
            scanned + length,
        );
    }
}

/// Whether the slot was noted, as one that code goes through where it does.
pub open spec fn noted(seen: ReferencesView, code: Code, instruction: int, slot: u32) -> bool {
    &&& seen.slots.contains(slot as u64)
    &&& goes_through(code, instruction, slot) ==> seen.direct.contains(slot as u64)
}

proof fn lemma_reference(seen: ReferencesView, code: Code, instruction: int, slot: u32)
    requires
        code.memory.len() <= usize::MAX,
        goes_through(code, instruction, slot) || loads_from(code, instruction, slot),
    ensures
        noted(with_reference(seen, code, instruction), code, instruction, slot),
{
}

proof fn lemma_reference_from(
    seen: ReferencesView,
    code: Code,
    from: int,
    end: int,
    instruction: int,
    slot: u32,
)
    requires
        code.memory.len() <= usize::MAX,
        from <= instruction < end,
        goes_through(code, instruction, slot) || loads_from(code, instruction, slot),
    ensures
        ({
            let all = references_from(seen, code, from, end);
            noted(all, code, instruction, slot) || all.slots.len() >= 65_536
        }),
    decreases instruction - from,
{
    if seen.slots.len() < 65_536 {
        let next = with_reference(seen, code, from);
        if from == instruction {
            lemma_reference(seen, code, instruction, slot);
            lemma_references_from_keeps(next, code, from + 1, end);
        } else {
            lemma_reference_from(next, code, from + 1, end, instruction, slot);
        }
    }
}

proof fn lemma_reference_in(
    seen: ReferencesView,
    code: Code,
    sections: Seq<SectionModel>,
    at: int,
    index: int,
    instruction: int,
    slot: u32,
)
    requires
        code.memory.len() <= usize::MAX,
        0 <= at <= index < sections.len(),
        runs(sections[index]),
        sections[index].start() <= instruction,
        instruction + 6 <= sections[index].start() + captured_span(sections[index], code.memory),
        code_bytes(sections, code.memory, index) + (instruction + 6 - sections[index].start())
            <= 0x1000_0000,
        goes_through(code, instruction, slot) || loads_from(code, instruction, slot),
    ensures
        ({
            let all = references_in(
                seen,
                code,
                sections,
                at,
                code_bytes(sections, code.memory, at),
            );
            noted(all, code, instruction, slot) || all.slots.len() >= 65_536
        }),
    decreases index - at,
{
    let scanned = code_bytes(sections, code.memory, at);
    let section = sections[at];
    lemma_code_bytes_grow(sections, code.memory, at, index);
    if seen.slots.len() < 65_536 {
        if !section.executable() {
            lemma_reference_in(seen, code, sections, at + 1, index, instruction, slot);
        } else {
            let start = section.start();
            let length = searched_length(section, code.memory, scanned);
            let next = references_from(seen, code, start, start + length - 5);
            if at < index {
                lemma_code_bytes_grow(sections, code.memory, at + 1, index);
                assert(length == captured_span(section, code.memory));
                lemma_reference_in(next, code, sections, at + 1, index, instruction, slot);
            } else {
                lemma_reference_from(
                    seen,
                    code,
                    start,
                    start + length - 5,
                    instruction,
                    slot,
                );
                let all = references_in(next, code, sections, at + 1, scanned + length);
                lemma_references_in_keeps(next, code, sections, at + 1, scanned + length);
                if next.slots.len() >= 65_536 {
                    assert(all == next);
                }
            }
        }
    }
}

proof fn lemma_code_bytes_grow(sections: Seq<SectionModel>, memory: Seq<u8>, from: int, to: int)
    requires
        0 <= from <= to <= sections.len(),
    ensures
        0 <= code_bytes(sections, memory, from) <= code_bytes(sections, memory, to),
    decreases to,
{
    if from < to {
        lemma_code_bytes_grow(sections, memory, from, to - 1);
    } else if from > 0 {
        lemma_code_bytes_grow(sections, memory, from - 1, from - 1);
    }
}

/// Every reference that code makes is found: the slot of each instruction in an executable
/// section that calls, jumps or loads through one, among the code that is searched, unless
/// there are already as many slots as are allowed.
pub proof fn law_every_reference_is_found(
    code: Code,
    model: ModelView,
    index: int,
    instruction: int,
    slot: u32,
)
    requires
        code.memory.len() <= usize::MAX,
        0 <= index < model.sections.len(),
        runs(model.sections[index]),
        model.sections[index].start() <= instruction,
        instruction + 6 <= model.sections[index].start() + captured_span(
            model.sections[index],
            code.memory,
        ),
        code_bytes(model.sections, code.memory, index) + (instruction + 6
            - model.sections[index].start()) <= 0x1000_0000,
        goes_through(code, instruction, slot) || loads_from(code, instruction, slot),
    ensures
        ({
            let found = references_of(code, model);
            noted(found, code, instruction, slot) || found.slots.len() >= 65_536
        }),
{
    lemma_reference_in(
        ReferencesView { slots: Set::empty(), direct: Set::empty() },
        code,
        model.sections,
        0,
        index,
        instruction,
        slot,
    );
}

/// Whether every slot that was seen is one that an instruction in an executable section
/// refers to, and every direct one is one that such an instruction goes through.
pub open spec fn vouched(seen: ReferencesView, code: Code, sections: Seq<SectionModel>) -> bool {
    &&& forall|slot: u64| #[trigger]
        seen.slots.contains(slot) ==> slot <= u32::MAX && exists|i: int, instruction: int|
            #[trigger] refers(code, sections, i, instruction, slot as u32)
    &&& forall|slot: u64| #[trigger]
        seen.direct.contains(slot) ==> slot <= u32::MAX && exists|i: int, instruction: int|
            #[trigger] refers(code, sections, i, instruction, slot as u32) && goes_through(
                code,
                instruction,
                slot as u32,
            )
}

/// Whether the instruction stands in an executable section and refers to the slot.
pub open spec fn refers(
    code: Code,
    sections: Seq<SectionModel>,
    index: int,
    instruction: int,
    slot: u32,
) -> bool {
    &&& 0 <= index < sections.len()
    &&& runs(sections[index])
    &&& sections[index].start() <= instruction < sections[index].start() + captured_span(
        sections[index],
        code.memory,
    )
    &&& goes_through(code, instruction, slot) || loads_from(code, instruction, slot)
}

proof fn lemma_vouched_from(
    seen: ReferencesView,
    code: Code,
    sections: Seq<SectionModel>,
    index: int,
    instruction: int,
    end: int,
)
    requires
        vouched(seen, code, sections),
        0 <= index < sections.len(),
        runs(sections[index]),
        sections[index].start() <= instruction,
        end <= sections[index].start() + captured_span(sections[index], code.memory),
    ensures
        vouched(references_from(seen, code, instruction, end), code, sections),
    decreases end - instruction,
{
    if !(instruction >= end || seen.slots.len() >= 65_536) {
        let next = with_reference(seen, code, instruction);
        if let Some(slot) = crate::pe::imports::references::referenced_slot(
            code.memory,
            code.base,
            code.kind,
            instruction,
        ) {
            assert(refers(code, sections, index, instruction, slot));
            assert(vouched(next, code, sections)) by {
                assert forall|other: u64| #[trigger] next.slots.contains(other) implies other
                    <= u32::MAX && exists|i: int, instruction: int| #[trigger]
                    refers(code, sections, i, instruction, other as u32) by {
                    if other != slot as u64 {
                        assert(seen.slots.contains(other));
                    }
                }
                assert forall|other: u64| #[trigger] next.direct.contains(other) implies other
                    <= u32::MAX && exists|i: int, instruction: int| #[trigger]
                    refers(code, sections, i, instruction, other as u32) && goes_through(
                        code,
                        instruction,
                        other as u32,
                    ) by {
                    if !seen.direct.contains(other) {
                        assert(goes_through(code, instruction, slot));
                    }
                }
            }
        }
        lemma_vouched_from(next, code, sections, index, instruction + 1, end);
    }
}

proof fn lemma_vouched_in(
    seen: ReferencesView,
    code: Code,
    sections: Seq<SectionModel>,
    index: int,
    scanned: int,
)
    requires
        vouched(seen, code, sections),
        0 <= index,
    ensures
        vouched(references_in(seen, code, sections, index, scanned), code, sections),
    decreases sections.len() - index,
{
    if index >= sections.len() || seen.slots.len() >= 65_536 {
    } else if !sections[index].executable() || scanned >= 0x1000_0000 {
        lemma_vouched_in(seen, code, sections, index + 1, scanned);
    } else {
        let length = searched_length(sections[index], code.memory, scanned);
        let start = sections[index].start();
        if length > 5 {
            lemma_vouched_from(seen, code, sections, index, start, start + length - 5);
        }
        lemma_vouched_in(
            references_from(seen, code, start, start + length - 5),
            code,
            sections,
            index + 1,
            scanned + length,
        );
    }
}

/// No reference is made up: every slot that is found is one that an instruction in an
/// executable section refers to, and every direct one is called or jumped through.
pub proof fn law_references_come_from_code(code: Code, model: ModelView)
    ensures
        vouched(references_of(code, model), code, model.sections),
{
    lemma_vouched_in(
        ReferencesView { slots: Set::empty(), direct: Set::empty() },
        code,
        model.sections,
        0,
        0,
    );
}

/// Whether the slot is aligned, and lies in memory and in a section that is readable or
/// writable but not executable.
pub open spec fn stands_in_data(
    memory: Seq<u8>,
    sections: Seq<SectionModel>,
    slot: u32,
    width: int,
) -> bool {
    &&& slot as int % width == 0
    &&& slot + width <= memory.len()
    &&& slot + width <= u32::MAX
    &&& exists|i: int|
        0 <= i < sections.len() && !runs(#[trigger] sections[i]) && sections[i].characteristics
            & 0xC000_0000 != 0 && sections[i].virtual_address.0 <= slot && slot + width
            <= sections[i].virtual_address.0 + span(sections[i])
}

/// Whether the pointer in the slot leads to the export, and to no other.
pub open spec fn imports_export(scene: Scene, slot: int, export: ExportView) -> bool {
    pointer_at(scene.memory, slot, scene.kind.width()) matches Some(value) && scene.export(value)
        == Some((export, false))
}

/// Whether a slot before or behind leads into the same module.
pub open spec fn beside_its_kind(scene: Scene, slot: u32, module: Seq<char>) -> bool {
    exists|other: int, export: ExportView|
        (other == slot - scene.kind.width() || other == slot + scene.kind.width())
            && #[trigger] imports_export(scene, other, export) && crate::text::same_text(
            export.module,
            module,
        )
}

proof fn lemma_gathered_keeps(
    initial: Gathered,
    scene: Scene,
    sections: Seq<SectionModel>,
    taken: Set<u64>,
    direct: Set<u64>,
    remaining: int,
    slots: Seq<u64>,
    count: int,
    total: int,
    import: (u32, ExportView),
)
    requires
        count <= total,
    ensures
        ({
            let some = gathered_from(
                initial,
                scene,
                sections,
                taken,
                direct,
                remaining,
                slots,
                count,
            ).imports;
            let all = gathered_from(
                initial,
                scene,
                sections,
                taken,
                direct,
                remaining,
                slots,
                total,
            ).imports;
            (some.contains(import) ==> all.contains(import)) && some.len() <= all.len()
        }),
    decreases total - count,
{
    if count < total {
        lemma_gathered_keeps(
            initial,
            scene,
            sections,
            taken,
            direct,
            remaining,
            slots,
            count,
            total - 1,
            import,
        );
        let before = gathered_from(
            initial,
            scene,
            sections,
            taken,
            direct,
            remaining,
            slots,
            total - 1,
        ).imports;
        let all = gathered_from(
            initial,
            scene,
            sections,
            taken,
            direct,
            remaining,
            slots,
            total,
        ).imports;
        if before.contains(import) && total > 0 {
            let i = choose|i: int| 0 <= i < before.len() && before[i] == import;
            assert(all[i] == import);
        }
    }
}

/// Every slot that holds an import is gathered: it is not taken, it stands in data, its
/// pointer leads to one export, and code goes through it or a slot beside it leads into the
/// same module; unless as many imports as are wanted were gathered.
pub proof fn law_every_attested_slot_is_gathered(
    initial: Gathered,
    scene: Scene,
    sections: Seq<SectionModel>,
    taken: Set<u64>,
    direct: Set<u64>,
    remaining: int,
    slots: Seq<u64>,
    index: int,
    export: ExportView,
)
    requires
        0 <= index < slots.len(),
        slots[index] <= u32::MAX,
        !taken.contains(slots[index]),
        stands_in_data(scene.memory, sections, slots[index] as u32, scene.kind.width()),
        imports_export(scene, slots[index] as int, export),
        direct.contains(slots[index]) || beside_its_kind(
            scene,
            slots[index] as u32,
            export.module,
        ),
    ensures
        ({
            let found = gathered_from(
                initial,
                scene,
                sections,
                taken,
                direct,
                remaining,
                slots,
                slots.len() as int,
            ).imports;
            found.contains((slots[index] as u32, export)) || found.len() >= remaining
        }),
{
    let slot = slots[index] as u32;
    let width = scene.kind.width();
    let before = gathered_from(
        initial,
        scene,
        sections,
        taken,
        direct,
        remaining,
        slots,
        index,
    );
    let after = gathered_from(
        initial,
        scene,
        sections,
        taken,
        direct,
        remaining,
        slots,
        index + 1,
    );
    let i = choose|i: int|
        0 <= i < sections.len() && !runs(#[trigger] sections[i]) && sections[i].characteristics
            & 0xC000_0000 != 0 && sections[i].virtual_address.0 <= slot && slot + width
            <= sections[i].virtual_address.0 + span(sections[i]);
    assert(0x4000_0000u32 | 0x8000_0000u32 == 0xC000_0000u32) by (bit_vector);
    assert(sections[i].holds_data());
    if !direct.contains(slots[index]) {
        let (other, beside) = choose|other: int, beside: ExportView|
            (other == slot - width || other == slot + width) && #[trigger] imports_export(
                scene,
                other,
                beside,
            ) && crate::text::same_text(beside.module, export.module);
        assert(imports_export(scene, other, beside));
    }
    if before.imports.len() < remaining {
        assert(after.imports == before.imports.push((slot, export)));
        assert(after.imports[before.imports.len() as int] == (slot, export));
    } else {
        assert(after == before);
    }
    lemma_gathered_keeps(
        initial,
        scene,
        sections,
        taken,
        direct,
        remaining,
        slots,
        index + 1,
        slots.len() as int,
        (slot, export),
    );
}

/// Imports that code calls or jumps through are recovered. Where an instruction of an
/// executable section goes through a slot that stands in data and leads to one export, the
/// recovered plan has that import, unless the slot was taken already or a limit is reached:
/// that of slots, of imports or of groups.
pub proof fn law_called_imports_are_recovered(
    plan: PlanView,
    scene: Scene,
    model: ModelView,
    index: int,
    instruction: int,
    slot: u32,
    export: ExportView,
)
    requires
        scene.memory.len() <= usize::MAX,
        !full(plan),
        0 <= plan.recovered,
        0 <= index < model.sections.len(),
        runs(model.sections[index]),
        model.sections[index].start() <= instruction,
        instruction + 6 <= model.sections[index].start() + captured_span(
            model.sections[index],
            scene.memory,
        ),
        code_bytes(model.sections, scene.memory, index) + (instruction + 6
            - model.sections[index].start()) <= 0x1000_0000,
        goes_through(code_of(scene), instruction, slot),
        stands_in_data(scene.memory, model.sections, slot, scene.kind.width()),
        imports_export(scene, slot as int, export),
    ensures
        ({
            let after = references_recovered(plan, scene, model);
            ||| lists_import(after.groups, slot, export, scene.kind.width())
            ||| settled_slots(plan, scene).contains(slot as u64)
            ||| references_of(code_of(scene), model).slots.len() >= 65_536
            ||| after.groups.len() >= 4_096
            ||| after.recovered + references_of(code_of(scene), model).slots.len() >= 65_536
        }),
{
    law_every_reference_is_found(code_of(scene), model, index, instruction, slot);
    let found = references_of(code_of(scene), model);
    if found.slots.len() < 65_536 && !settled_slots(plan, scene).contains(slot as u64) {
        lemma_direct_slot_is_kept(plan, scene, model, slot, export);
    }
}

proof fn lemma_direct_slot_is_kept(
    plan: PlanView,
    scene: Scene,
    model: ModelView,
    slot: u32,
    export: ExportView,
)
    requires
        !full(plan),
        0 <= plan.recovered,
        references_of(code_of(scene), model).slots.contains(slot as u64),
        references_of(code_of(scene), model).direct.contains(slot as u64),
        !settled_slots(plan, scene).contains(slot as u64),
        stands_in_data(scene.memory, model.sections, slot, scene.kind.width()),
        imports_export(scene, slot as int, export),
    ensures
        ({
            let after = references_recovered(plan, scene, model);
            ||| lists_import(after.groups, slot, export, scene.kind.width())
            ||| after.groups.len() >= 4_096
            ||| after.recovered + references_of(code_of(scene), model).slots.len() >= 65_536
        }),
{
    let found = references_of(code_of(scene), model);
    let slots = in_order(found.slots);
    let taken = settled_slots(plan, scene);
    law_in_order_lists_the_set(found.slots);
    assert(slots.contains(slot as u64));
    let at = choose|at: int| 0 <= at < slots.len() && slots[at] == slot as u64;
    let initial = Gathered { imports: Seq::empty(), ambiguous: plan.ambiguous };
    let remaining = 65_536 - plan.recovered;
    law_every_attested_slot_is_gathered(
        initial,
        scene,
        model.sections,
        taken,
        found.direct,
        remaining,
        slots,
        at,
        export,
    );
    let gathered = gathered_from(
        initial,
        scene,
        model.sections,
        taken,
        found.direct,
        remaining,
        slots,
        slots.len() as int,
    );
    lemma_gathered_count(
        initial,
        scene,
        model.sections,
        taken,
        found.direct,
        remaining,
        slots,
        slots.len() as int,
    );
    lemma_in_order_length(found.slots);
    let start = PlanView { ambiguous: gathered.ambiguous, ..plan };
    law_grouping_keeps_counts(start, gathered.imports, scene.kind.width(), 1);
    if gathered.imports.contains((slot, export)) {
        let k = choose|k: int|
            0 <= k < gathered.imports.len() && gathered.imports[k] == (slot, export);
        law_single_imports_are_kept(start, gathered.imports, scene.kind.width(), k);
    }
}

proof fn lemma_in_order_length(addresses: Set<u64>)
    ensures
        in_order(addresses).len() == addresses.len(),
{
    let list = in_order(addresses);
    law_in_order_lists_the_set(addresses);
    assert(list.no_duplicates());
    list.unique_seq_to_set();
    assert(list.to_set() =~= addresses) by {
        assert forall|address: u64| list.to_set().contains(address) == addresses.contains(
            address,
        ) by {
            assert(addresses.contains(address) <==> list.contains(address));
        }
    }
}

proof fn lemma_gathered_count(
    initial: Gathered,
    scene: Scene,
    sections: Seq<SectionModel>,
    taken: Set<u64>,
    direct: Set<u64>,
    remaining: int,
    slots: Seq<u64>,
    count: int,
)
    requires
        initial.imports.len() == 0,
        0 <= count,
    ensures
        gathered_from(
            initial,
            scene,
            sections,
            taken,
            direct,
            remaining,
            slots,
            count,
        ).imports.len() <= count,
    decreases count,
{
    if count > 0 {
        lemma_gathered_count(
            initial,
            scene,
            sections,
            taken,
            direct,
            remaining,
            slots,
            count - 1,
        );
    }
}

proof fn lemma_group_slots(
    slots: Set<u64>,
    first_thunk: u32,
    width: int,
    count: int,
    slot: u64,
)
    requires
        0 <= width,
    ensures
        with_group_slots(slots, first_thunk, width, count).contains(slot) <==> slots.contains(slot)
            || (slot <= u32::MAX && exists|at: int|
            0 <= at < count && slot == #[trigger] place_in_table(first_thunk, width, at)),
    decreases count,
{
    if count > 0 {
        lemma_group_slots(slots, first_thunk, width, count - 1, slot);
        let last = place_in_table(first_thunk, width, count - 1);
        assert(0 <= (count - 1) * width) by (nonlinear_arith)
            requires
                0 <= count - 1,
                0 <= width,
        ;
        if slot == last {
            assert(slot == place_in_table(first_thunk, width, count - 1));
        }
    }
}

/// The address of an entry of a table.
pub open spec fn place_in_table(first: u32, width: int, at: int) -> int {
    first + at * width
}

/// The slots that groups take are those of their imports, and no others.
pub proof fn law_taken_slots_are_those_of_imports(groups: Seq<GroupView>, width: int, slot: u64)
    requires
        0 <= width,
    ensures
        taken_slots(groups, width).contains(slot) <==> slot <= u32::MAX && exists|g: int, at: int|
            0 <= g < groups.len() && 0 <= at < groups[g].entries.len() && slot
                == #[trigger] place_in_table(groups[g].first_thunk, width, at),
    decreases groups.len(),
{
    if groups.len() > 0 {
        let rest = groups.drop_last();
        let last = groups.last();
        law_taken_slots_are_those_of_imports(rest, width, slot);
        lemma_group_slots(
            taken_slots(rest, width),
            last.first_thunk,
            width,
            last.entries.len() as int,
            slot,
        );
        if taken_slots(rest, width).contains(slot) {
            let (g, at) = choose|g: int, at: int|
                0 <= g < rest.len() && 0 <= at < rest[g].entries.len() && slot
                    == #[trigger] place_in_table(rest[g].first_thunk, width, at);
            assert(slot == place_in_table(groups[g].first_thunk, width, at));
        }
        if slot <= u32::MAX && exists|at: int|
            0 <= at < last.entries.len() && slot == #[trigger] place_in_table(
                last.first_thunk,
                width,
                at,
            ) {
            let at = choose|at: int|
                0 <= at < last.entries.len() && slot == #[trigger] place_in_table(
                    last.first_thunk,
                    width,
                    at,
                );
            assert(slot == place_in_table(groups[groups.len() - 1].first_thunk, width, at));
        }
        if exists|g: int, at: int|
            0 <= g < groups.len() && 0 <= at < groups[g].entries.len() && slot
                == #[trigger] place_in_table(groups[g].first_thunk, width, at) {
            let (g, at) = choose|g: int, at: int|
                0 <= g < groups.len() && 0 <= at < groups[g].entries.len() && slot
                    == #[trigger] place_in_table(groups[g].first_thunk, width, at);
            if g < rest.len() {
                assert(slot == place_in_table(rest[g].first_thunk, width, at));
            }
        }
    }
}

/// Whether the address table at `first` has an entry at `at`: it and those before it are
/// pointers other than null.
pub open spec fn table_has(memory: Seq<u8>, first: u32, width: int, at: int) -> bool {
    &&& 0 <= at < 65_536
    &&& forall|i: int|
        0 <= i <= at ==> {
            &&& #[trigger] place_in_table(first, width, i) <= u32::MAX
            &&& pointer_at(memory, place_in_table(first, width, i), width) matches Some(value)
                && value != 0
        }
}

proof fn lemma_table_slots(
    slots: Set<u64>,
    memory: Seq<u8>,
    first: u32,
    width: int,
    index: int,
    slot: u64,
)
    requires
        0 <= index,
        0 <= width,
        index > 0 ==> table_has(memory, first, width, index - 1),
    ensures
        with_table_slots(slots, memory, first, width, index).contains(slot) <==> slots.contains(
            slot,
        ) || exists|at: int|
            index <= at && table_has(memory, first, width, at) && slot == #[trigger] place_in_table(
                first,
                width,
                at,
            ),
    decreases 65_536 - index,
{
    let place = place_in_table(first, width, index);
    let ends = index >= 65_536 || place > u32::MAX || pointer_at(memory, place, width) is None
        || pointer_at(memory, place, width) == Some(0u64);
    assert(0 <= index * width) by (nonlinear_arith)
        requires
            0 <= index,
            0 <= width,
    ;
    if ends {
        assert forall|at: int| index <= at implies !table_has(memory, first, width, at) by {
            if table_has(memory, first, width, at) {
                assert(place_in_table(first, width, index) <= u32::MAX);
            }
        }
    } else {
        assert(table_has(memory, first, width, index)) by {
            assert forall|i: int| 0 <= i <= index implies {
                &&& #[trigger] place_in_table(first, width, i) <= u32::MAX
                &&& pointer_at(memory, place_in_table(first, width, i), width) matches Some(value)
                    && value != 0
            } by {}
        }
        lemma_table_slots(slots.insert(place as u64), memory, first, width, index + 1, slot);
        if slot == place {
            assert(slot == place_in_table(first, width, index));
        }
        if exists|at: int|
            index + 1 <= at && table_has(memory, first, width, at) && slot
                == #[trigger] place_in_table(first, width, at) {
            let at = choose|at: int|
                index + 1 <= at && table_has(memory, first, width, at) && slot
                    == #[trigger] place_in_table(first, width, at);
            assert(slot == place_in_table(first, width, at));
        }
    }
}

/// The slots that descriptors take are those of their address tables, up to the null pointer
/// that ends each, and no others.
pub proof fn law_descriptor_slots_are_those_of_tables(
    slots: Set<u64>,
    memory: Seq<u8>,
    descriptors: Seq<u8>,
    width: int,
    count: int,
    slot: u64,
)
    requires
        0 <= width,
        0 <= count,
    ensures
        descriptor_slots(slots, memory, descriptors, width, count).contains(slot)
            <==> slots.contains(slot) || exists|d: int, at: int|
            0 <= d < count && table_has(memory, u32_at(descriptors, 20 * d + 16), width, at) && slot
                == #[trigger] place_in_table(u32_at(descriptors, 20 * d + 16), width, at),
    decreases count,
{
    if count > 0 {
        law_descriptor_slots_are_those_of_tables(
            slots,
            memory,
            descriptors,
            width,
            count - 1,
            slot,
        );
        let first = u32_at(descriptors, 20 * (count - 1) + 16);
        lemma_table_slots(
            descriptor_slots(slots, memory, descriptors, width, count - 1),
            memory,
            first,
            width,
            0,
            slot,
        );
        assert forall|at: int| table_has(memory, first, width, at) implies 0 <= at by {}
    }
}

/// Whether the slot is one that was not taken, stands in data and leads to an export that
/// more than one module has.
pub open spec fn leads_to_several(
    scene: Scene,
    sections: Seq<SectionModel>,
    taken: Set<u64>,
    slot: u32,
) -> bool {
    &&& !taken.contains(slot as u64)
    &&& stands_in_data(scene.memory, sections, slot, scene.kind.width())
    &&& pointer_at(scene.memory, slot as int, scene.kind.width()) matches Some(value)
        && scene.export(value) matches Some((export, ambiguous)) && ambiguous
}

proof fn lemma_stands_in_data(
    memory: Seq<u8>,
    sections: Seq<SectionModel>,
    slot: u32,
    width: int,
)
    ensures
        stands_in_data(memory, sections, slot, width)
            == crate::pe::imports::references::in_data_section(memory, sections, slot, width),
{
    assert(0x4000_0000u32 | 0x8000_0000u32 == 0xC000_0000u32) by (bit_vector);
    if stands_in_data(memory, sections, slot, width) {
        let i = choose|i: int|
            0 <= i < sections.len() && !runs(#[trigger] sections[i]) && sections[i].characteristics
                & 0xC000_0000 != 0 && sections[i].virtual_address.0 <= slot && slot + width
                <= sections[i].virtual_address.0 + span(sections[i]);
        assert(sections[i].holds_data());
    }
    if crate::pe::imports::references::in_data_section(memory, sections, slot, width) {
        let i = choose|i: int|
            0 <= i < sections.len() && (#[trigger] sections[i]).holds_data() && sections[i].start()
                <= slot && slot + width <= sections[i].start() + sections[i].declared();
        assert(!runs(sections[i]));
    }
}

/// Slots that lead to an export of several modules are counted, each once, and are no
/// imports; unless as many imports as are wanted were gathered.
pub proof fn law_ambiguous_slots_are_counted(
    initial: Gathered,
    scene: Scene,
    sections: Seq<SectionModel>,
    taken: Set<u64>,
    direct: Set<u64>,
    remaining: int,
    slots: Seq<u64>,
    count: int,
)
    requires
        0 <= count <= slots.len(),
        0 <= initial.ambiguous && initial.ambiguous + slots.len() <= usize::MAX,
    ensures
        ({
            let found = gathered_from(
                initial,
                scene,
                sections,
                taken,
                direct,
                remaining,
                slots,
                count,
            );
            let several = count_where(
                count,
                |i: int| leads_to_several(scene, sections, taken, slots[i] as u32),
            );
            &&& 0 <= several <= count
            &&& found.imports.len() < remaining ==> found.ambiguous == initial.ambiguous + several
        }),
    decreases count,
{
    let chosen = |i: int| leads_to_several(scene, sections, taken, slots[i] as u32);
    if count > 0 {
        law_ambiguous_slots_are_counted(
            initial,
            scene,
            sections,
            taken,
            direct,
            remaining,
            slots,
            count - 1,
        );
        let slot = slots[count - 1] as u32;
        lemma_stands_in_data(scene.memory, sections, slot, scene.kind.width());
        assert(chosen(count - 1) == leads_to_several(scene, sections, taken, slot));
    }
}

} // verus!
