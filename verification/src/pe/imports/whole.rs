//! What a plan has of the imports of an image.

use vstd::prelude::*;

use crate::pe::exports::ExportView;
use crate::pe::image::u32_at;
use crate::pe::imports::attestation::{
    captured_span, code_bytes, goes_through, imports_export, law_called_imports_are_recovered,
    law_descriptor_slots_are_those_of_tables, law_taken_slots_are_those_of_imports,
    place_in_table, runs, span, stands_in_data, table_has,
};
use crate::pe::imports::descriptors::{declared_descriptors, orphaned_descriptors};
use crate::pe::imports::grouping::{
    law_groups_are_runs_of_the_list, law_grouping_keeps_counts, lists_import, whole_run,
};
use crate::pe::imports::plan::{empty_plan, full, taken_slots, GroupView, PlanView};
use crate::pe::imports::ranges::{delay_scanned, Scene};
use crate::pe::imports::references::{
    code_of, gathered_from, references_of, references_recovered, settled_slots, Gathered,
};
use crate::pe::imports::tables::{
    aligned_start, delay_start, descriptors_lead, grew, is_data,
    law_declared_tables_are_recovered, law_delay_loads_are_recovered,
    law_import_sections_are_recovered, lemma_delay_scan_grows, lemma_grew_through,
    lemma_listed_through, lemma_trusted_scan_grows, listed_or_full, pointers_read, stand_at,
    whole_table,
};
use crate::pe::imports::{kept_descriptors, plan_of, table_plan};
use crate::pe::{directory_of, ModelView};

verus! {

proof fn lemma_references_grow(plan: PlanView, scene: Scene, model: ModelView)
    ensures
        grew(plan, references_recovered(plan, scene, model)),
        references_recovered(plan, scene, model).existing == plan.existing,
{
    assert(plan.groups.take(plan.groups.len() as int) =~= plan.groups);
    if !full(plan) {
        let references = references_of(code_of(scene), model);
        let slots = crate::order::in_order(references.slots);
        let gathered = gathered_from(
            Gathered { imports: Seq::empty(), ambiguous: plan.ambiguous },
            scene,
            model.sections,
            settled_slots(plan, scene),
            references.direct,
            65_536 - plan.recovered,
            slots,
            slots.len() as int,
        );
        let start = PlanView { ambiguous: gathered.ambiguous, ..plan };
        law_groups_are_runs_of_the_list(start, gathered.imports, scene.kind.width(), 1);
        law_grouping_keeps_counts(start, gathered.imports, scene.kind.width(), 1);
    }
}

/// The plan after the tables and the delay loads, out of which the whole plan grows.
proof fn lemma_plan_grows(scene: Scene, model: ModelView)
    ensures
        grew(empty_plan(), table_plan(scene, model)),
        grew(table_plan(scene, model), delay_scanned(table_plan(scene, model), scene, model)),
        grew(
            delay_scanned(table_plan(scene, model), scene, model),
            plan_of(scene, model),
        ),
        plan_of(scene, model).existing == delay_scanned(
            table_plan(scene, model),
            scene,
            model,
        ).existing,
        0 <= delay_scanned(table_plan(scene, model), scene, model).recovered,
{
    lemma_trusted_scan_grows(empty_plan(), scene, model);
    assert(empty_plan().groups.take(0) =~= Seq::<GroupView>::empty());
    lemma_delay_scan_grows(table_plan(scene, model), scene, model);
    lemma_references_grow(
        delay_scanned(table_plan(scene, model), scene, model),
        scene,
        model,
    );
}

/// Whether the plan has an import for the slot: in one of its groups, or in the address table
/// of one of the descriptors that it keeps.
pub open spec fn has_slot(plan: PlanView, memory: Seq<u8>, width: int, slot: u32) -> bool {
    ||| exists|g: int, at: int|
        0 <= g < plan.groups.len() && 0 <= at < plan.groups[g].entries.len() && slot
            == #[trigger] place_in_table(plan.groups[g].first_thunk, width, at)
    ||| exists|d: int, at: int|
        0 <= d < plan.existing.len() / 20 && table_has(
            memory,
            u32_at(plan.existing, 20 * d + 16),
            width,
            at,
        ) && slot == #[trigger] place_in_table(u32_at(plan.existing, 20 * d + 16), width, at)
}

proof fn lemma_settled_slot(before: PlanView, after: PlanView, scene: Scene, slot: u32)
    requires
        grew(before, after),
        after.existing == before.existing,
        settled_slots(before, scene).contains(slot as u64),
    ensures
        has_slot(after, scene.memory, scene.kind.width(), slot),
{
    let width = scene.kind.width();
    law_descriptor_slots_are_those_of_tables(
        taken_slots(before.groups, width),
        scene.memory,
        before.existing,
        width,
        before.existing.len() as int / 20,
        slot as u64,
    );
    law_taken_slots_are_those_of_imports(before.groups, width, slot as u64);
    if taken_slots(before.groups, width).contains(slot as u64) {
        let (g, at) = choose|g: int, at: int|
            0 <= g < before.groups.len() && 0 <= at < before.groups[g].entries.len() && slot as u64
                == #[trigger] place_in_table(before.groups[g].first_thunk, width, at);
        assert(after.groups.take(before.groups.len() as int)[g] == before.groups[g]);
        assert(slot == place_in_table(after.groups[g].first_thunk, width, at));
    } else {
        let (d, at) = choose|d: int, at: int|
            0 <= d < before.existing.len() as int / 20 && table_has(
                scene.memory,
                u32_at(before.existing, 20 * d + 16),
                width,
                at,
            ) && slot as u64 == #[trigger] place_in_table(
                u32_at(before.existing, 20 * d + 16),
                width,
                at,
            );
        assert(slot == place_in_table(u32_at(after.existing, 20 * d + 16), width, at));
    }
}

/// What code calls or jumps through is in the plan of an image. Where an instruction of an
/// executable section goes through a slot that stands in data and leads to one export, the
/// plan has that import, or has the slot already, unless a limit is reached: that of slots,
/// of imports or of groups.
pub proof fn law_called_imports_are_planned(
    scene: Scene,
    model: ModelView,
    index: int,
    instruction: int,
    slot: u32,
    export: ExportView,
)
    requires
        scene.memory.len() <= usize::MAX,
        0 <= index < model.sections.len(),
        runs(model.sections[index]),
        model.sections[index].start() <= instruction,
        instruction + 6 <= model.sections[index].start() + captured_span(
            model.sections[index],
            scene.memory,
        ),
        code_bytes(model.sections, scene.memory, index) + (instruction + 6
            - model.sections[index].start()) <= 0x1000_0000,
        goes_through(code_of(scene), instruction, slot),
        stands_in_data(scene.memory, model.sections, slot, scene.kind.width()),
        imports_export(scene, slot as int, export),
    ensures
        ({
            let plan = plan_of(scene, model);
            ||| lists_import(plan.groups, slot, export, scene.kind.width())
            ||| has_slot(plan, scene.memory, scene.kind.width(), slot)
            ||| plan.groups.len() >= 4_096
            ||| plan.recovered + references_of(code_of(scene), model).slots.len() >= 65_536
        }),
{
    lemma_plan_grows(scene, model);
    let before = delay_scanned(table_plan(scene, model), scene, model);
    if !full(before) {
        law_called_imports_are_recovered(
            before,
            scene,
            model,
            index,
            instruction,
            slot,
            export,
        );
        if settled_slots(before, scene).contains(slot as u64) {
            lemma_settled_slot(before, plan_of(scene, model), scene, slot);
        }
    }
}

/// The imports of delay-load descriptors are in the plan of an image, where the tables of the
/// first descriptors can be measured, unless the table was recovered before or a limit keeps
/// them out.
pub proof fn law_delay_loads_are_planned(
    scene: Scene,
    model: ModelView,
    rva: u32,
    size: u32,
    lengths: Seq<int>,
    descriptor: int,
    imports: Seq<(u32, ExportView)>,
    from: int,
    to: int,
    index: int,
)
    requires
        scene.export(0) is None,
        directory_of(scene.memory, model.headers, 13) matches Ok(Some(directory)) && directory.rva.0
            == rva && directory.size == size,
        0 <= descriptor < lengths.len() <= 4_096,
        32 * lengths.len() <= size,
        descriptors_lead(scene, rva as int, lengths),
        pointers_read(lengths, lengths.len() as int) <= 65_536,
        imports.len() == lengths[descriptor],
        ({
            let start = delay_start(scene, rva as int, descriptor);
            &&& stand_at(scene, start as int, imports)
            &&& start + imports.len() * scene.kind.width() <= u32::MAX
        }),
        whole_run(imports, scene.kind.width(), from, to),
        from <= index < to,
    ensures
        listed_or_full(
            plan_of(scene, model),
            imports[index],
            to - from,
            scene.kind.width(),
        ) || has_slot(
            plan_of(scene, model),
            scene.memory,
            scene.kind.width(),
            delay_start(scene, rva as int, descriptor),
        ),
{
    lemma_plan_grows(scene, model);
    let tables = table_plan(scene, model);
    let before = delay_scanned(tables, scene, model);
    let start = delay_start(scene, rva as int, descriptor);
    let width = scene.kind.width();
    if taken_slots(tables.groups, width).contains(start as u64) {
        let after = plan_of(scene, model);
        lemma_grew_through(tables, before, after);
        law_taken_slots_are_those_of_imports(tables.groups, width, start as u64);
        let (g, at) = choose|g: int, at: int|
            0 <= g < tables.groups.len() && 0 <= at < tables.groups[g].entries.len() && start as u64
                == #[trigger] place_in_table(tables.groups[g].first_thunk, width, at);
        assert(after.groups.take(tables.groups.len() as int)[g] == tables.groups[g]);
        assert(start == place_in_table(after.groups[g].first_thunk, width, at));
    } else {
        law_delay_loads_are_recovered(
            tables,
            scene,
            model,
            rva,
            size,
            lengths,
            descriptor,
            imports,
            from,
            to,
            index,
        );
        lemma_listed_through(
            before,
            plan_of(scene, model),
            imports[index],
            to - from,
            width,
        );
    }
}

/// Where an image has no descriptors left, the imports of its declared address table are in
/// its plan: those that stand one behind the other in the part that the table shares with a
/// data section, between null pointers or the ends of that part, unless a limit keeps them
/// out.
pub proof fn law_declared_tables_are_planned(
    scene: Scene,
    model: ModelView,
    section: int,
    rva: u32,
    size: u32,
    table: int,
    imports: Seq<(u32, ExportView)>,
    from: int,
    to: int,
    index: int,
)
    requires
        declared_descriptors(scene.memory, model) is None,
        orphaned_descriptors(scene.memory, model) is None,
        scene.export(0) is None,
        0 <= section < model.sections.len(),
        is_data(model.sections[section]),
        directory_of(scene.memory, model.headers, 12) matches Ok(Some(directory)) && directory.rva.0
            == rva && directory.size == size,
        rva + size <= u32::MAX,
        ({
            let start = model.sections[section].virtual_address.0;
            let low = if rva >= start {
                rva as int
            } else {
                start as int
            };
            let top = if rva + size <= start + span(model.sections[section]) {
                rva + size
            } else {
                start + span(model.sections[section])
            };
            let end = if top <= scene.memory.len() {
                top
            } else {
                scene.memory.len() as int
            };
            &&& start + span(model.sections[section]) <= u32::MAX
            &&& low < top
            &&& whole_table(scene, aligned_start(low, scene.kind), table, end, imports)
        }),
        whole_run(imports, scene.kind.width(), from, to),
        from <= index < to,
    ensures
        listed_or_full(
            plan_of(scene, model),
            imports[index],
            to - from,
            scene.kind.width(),
        ),
{
    lemma_plan_grows(scene, model);
    let tables = table_plan(scene, model);
    let before = delay_scanned(tables, scene, model);
    law_declared_tables_are_recovered(
        empty_plan(),
        scene,
        model,
        section,
        rva,
        size,
        table,
        imports,
        from,
        to,
        index,
    );
    lemma_listed_through(tables, before, imports[index], to - from, scene.kind.width());
    lemma_listed_through(
        before,
        plan_of(scene, model),
        imports[index],
        to - from,
        scene.kind.width(),
    );
}

/// Where an image has neither descriptors nor a declared address table, the imports of its
/// section named `.idata` are in its plan: those that stand one behind the other, between
/// null pointers or the ends of the section, at least two of one module together, unless a
/// limit keeps them out.
pub proof fn law_import_sections_are_planned(
    scene: Scene,
    model: ModelView,
    section: int,
    table: int,
    imports: Seq<(u32, ExportView)>,
    from: int,
    to: int,
    index: int,
)
    requires
        declared_descriptors(scene.memory, model) is None,
        orphaned_descriptors(scene.memory, model) is None,
        scene.export(0) is None,
        0 <= section < model.sections.len(),
        is_data(model.sections[section]),
        directory_of(scene.memory, model.headers, 12) matches Ok(None),
        ({
            let name = model.sections[section].name@;
            name[6] == 0 && crate::text::same_letters(
                name.take(6),
                seq![0x2e, 0x69, 0x64, 0x61, 0x74, 0x61],
            )
        }),
        ({
            let start = model.sections[section].virtual_address.0 as int;
            let top = start + span(model.sections[section]);
            let end = if top <= scene.memory.len() {
                top
            } else {
                scene.memory.len() as int
            };
            &&& top <= u32::MAX
            &&& whole_table(scene, aligned_start(start, scene.kind), table, end, imports)
        }),
        whole_run(imports, scene.kind.width(), from, to),
        to - from >= 2,
        from <= index < to,
    ensures
        listed_or_full(
            plan_of(scene, model),
            imports[index],
            to - from,
            scene.kind.width(),
        ),
{
    lemma_plan_grows(scene, model);
    let tables = table_plan(scene, model);
    let before = delay_scanned(tables, scene, model);
    law_import_sections_are_recovered(
        empty_plan(),
        scene,
        model,
        section,
        table,
        imports,
        from,
        to,
        index,
    );
    lemma_listed_through(tables, before, imports[index], to - from, scene.kind.width());
    lemma_listed_through(
        before,
        plan_of(scene, model),
        imports[index],
        to - from,
        scene.kind.width(),
    );
}

/// The plan of an image keeps the descriptors of its import directory where there are any,
/// else those that were left behind elsewhere, else none.
pub proof fn law_descriptors_are_planned(scene: Scene, model: ModelView)
    ensures
        plan_of(scene, model).existing == match declared_descriptors(scene.memory, model) {
            Some(found) => found,
            None => match orphaned_descriptors(scene.memory, model) {
                Some(found) => found,
                None => Seq::empty(),
            },
        },
{
    crate::pe::imports::law_plans_keep_their_limits(scene, model);
    assert(kept_descriptors(scene.memory, model) == match declared_descriptors(
        scene.memory,
        model,
    ) {
        Some(found) => Some(found),
        None => orphaned_descriptors(scene.memory, model),
    });
}

} // verus!
