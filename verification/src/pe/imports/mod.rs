//! Recovering imports.

pub mod attestation;
pub mod descriptors;
pub mod grouping;
pub mod kept;
pub mod plan;
pub mod ranges;
pub mod references;
pub mod tables;
pub mod thunks;
pub mod whole;

use vstd::prelude::*;

use crate::pe::exports::ExportIndex;
use crate::pe::imports::descriptors::{
    declared_descriptors, existing_descriptors, orphaned_descriptors,
    scan_for_orphaned_descriptors,
};
use crate::pe::imports::plan::{
    empty_plan, lemma_grouped_within_limits, within_limits, ImportPlan, PlanView,
};
use crate::pe::imports::ranges::{
    delay_from, delay_scanned, range_scanned, run_from, runs_from, scan_delay_imports,
    scan_trusted_ranges, scene_of, trusted_from, trusted_scanned, with_run, Scene,
};
use crate::pe::imports::references::{recover_referenced_imports, references_recovered};
use crate::pe::{ModelView, PeImage, SectionModel};

verus! {

/// The descriptors that a plan keeps: those of the import directory, else those of an array
/// that was left behind.
pub open spec fn kept_descriptors(memory: Seq<u8>, model: ModelView) -> Option<Seq<u8>> {
    match declared_descriptors(memory, model) {
        Some(found) => Some(found),
        None => orphaned_descriptors(memory, model),
    }
}

/// The plan before delay loads and references are looked at: descriptors where the image
/// still has some, else the imports of the trusted ranges.
pub open spec fn table_plan(scene: Scene, model: ModelView) -> PlanView {
    match kept_descriptors(scene.memory, model) {
        Some(found) => PlanView { existing: found, ..empty_plan() },
        None => trusted_scanned(empty_plan(), scene, model),
    }
}

/// The imports of an image: those of its tables, of its delay loads and of its code.
pub open spec fn plan_of(scene: Scene, model: ModelView) -> PlanView {
    references_recovered(
        delay_scanned(table_plan(scene, model), scene, model),
        scene,
        model,
    )
}

/// Recovers the imports of an image.
pub fn build_plan(image: &PeImage<'_>, observed_base: u64, exports: &ExportIndex) -> (plan:
    ImportPlan)
    ensures
        plan@ == plan_of(scene_of(*image, observed_base, exports@), image.model@),
{
    let mut plan = ImportPlan::new();
    let found = match existing_descriptors(image) {
        Some(existing) => Some(existing),
        None => scan_for_orphaned_descriptors(image),
    };
    match found {
        Some(existing) => {
            plan.existing = existing;
            assert(plan@.groups =~= Seq::empty());
        },
        None => {
            scan_trusted_ranges(image, observed_base, exports, &mut plan);
        },
    }
    scan_delay_imports(image, observed_base, exports, &mut plan);
    recover_referenced_imports(image, observed_base, exports, &mut plan);
    plan
}

/// A plan has no more imports and groups than its limits allow, counts its imports right,
/// and has no empty group; and it keeps the descriptors that the image still has.
pub proof fn law_plans_keep_their_limits(scene: Scene, model: ModelView)
    ensures
        within_limits(plan_of(scene, model)),
        plan_of(scene, model).existing == match kept_descriptors(scene.memory, model) {
            Some(found) => found,
            None => Seq::empty(),
        },
{
    assert(within_limits(empty_plan()));
    if kept_descriptors(scene.memory, model) is None {
        lemma_trusted(
            empty_plan(),
            scene,
            model.sections,
            ranges::declared_table(scene.memory, model),
            0,
        );
    }
    let tables = table_plan(scene, model);
    assert(within_limits(tables));
    if let Ok(Some(directory)) = crate::pe::directory_of(scene.memory, model.headers, 13) {
        if directory.size >= 32 {
            lemma_delay(
                tables,
                scene,
                directory.rva.0 as int,
                crate::pe::rebuild::lesser(directory.size as int / 32, 4_096),
                plan::taken_slots(tables.groups, scene.kind.width()),
                0,
                65_536,
                0,
            );
        }
    }
    let delayed = delay_scanned(tables, scene, model);
    assert(within_limits(delayed));
    if !plan::full(delayed) {
        let found = references::references_of(references::code_of(scene), model);
        let slots = crate::order::in_order(found.slots);
        let gathered = references::gathered_from(
            references::Gathered { imports: Seq::empty(), ambiguous: delayed.ambiguous },
            scene,
            model.sections,
            references::settled_slots(delayed, scene),
            found.direct,
            65_536 - delayed.recovered,
            slots,
            slots.len() as int,
        );
        lemma_grouped_within_limits(
            PlanView { ambiguous: gathered.ambiguous, ..delayed },
            gathered.imports,
            scene.kind.width(),
            1,
        );
    }
}

proof fn lemma_with_run(
    plan: PlanView,
    scene: Scene,
    first: int,
    offset: int,
    end: int,
    minimum: int,
)
    requires
        within_limits(plan),
        minimum >= 1,
    ensures
        within_limits(with_run(plan, scene, first, offset, end, minimum)),
        with_run(plan, scene, first, offset, end, minimum).existing
            == plan.existing,
{
    let run = run_from(scene, offset, end, Seq::empty());
    let counted = PlanView {
        ambiguous: crate::pe::rebuild::clipped(
            plan.ambiguous + if run.ambiguous {
                1int
            } else {
                0
            },
        ),
        ..plan
    };
    lemma_grouped_within_limits(counted, run.imports, scene.kind.width(), minimum);
}

proof fn lemma_runs(
    plan: PlanView,
    scene: Scene,
    first: int,
    offset: int,
    end: int,
    minimum: int,
)
    requires
        within_limits(plan),
        minimum >= 1,
    ensures
        within_limits(runs_from(plan, scene, first, offset, end, minimum)),
        runs_from(plan, scene, first, offset, end, minimum).existing
            == plan.existing,
    decreases crate::pe::rebuild::greater(0, end - offset),
{
    if offset + scene.kind.width() <= end && plan.recovered < 65_536 {
        let run = run_from(scene, offset, end, Seq::empty());
        let next = if run.offset <= offset {
            offset + scene.kind.width()
        } else {
            run.offset
        };
        lemma_with_run(plan, scene, first, offset, end, minimum);
        lemma_runs(
            with_run(plan, scene, first, offset, end, minimum),
            scene,
            first,
            next,
            end,
            minimum,
        );
    }
}

proof fn lemma_range(plan: PlanView, scene: Scene, start: int, end: int, minimum: int)
    requires
        within_limits(plan),
        minimum >= 1,
    ensures
        within_limits(range_scanned(plan, scene, start, end, minimum)),
        range_scanned(plan, scene, start, end, minimum).existing
            == plan.existing,
{
    let first = ranges::first_pointer(start, scene.kind.width());
    lemma_runs(plan, scene, first, first, end, minimum);
}

proof fn lemma_trusted(
    plan: PlanView,
    scene: Scene,
    sections: Seq<SectionModel>,
    declared: Option<(int, int)>,
    index: int,
)
    requires
        within_limits(plan),
    ensures
        within_limits(trusted_from(plan, scene, sections, declared, index)),
        trusted_from(plan, scene, sections, declared, index).existing
            == plan.existing,
    decreases sections.len() - index,
{
    if index < sections.len() {
        lemma_trusted(plan, scene, sections, declared, index + 1);
        if let Some((start, end, minimum)) = ranges::trusted_range(sections[index], declared) {
            let stop = crate::pe::rebuild::lesser(end, scene.memory.len() as int);
            lemma_range(plan, scene, start, stop, minimum);
            lemma_trusted(
                range_scanned(plan, scene, start, stop, minimum),
                scene,
                sections,
                declared,
                index + 1,
            );
        }
    }
}

proof fn lemma_delay(
    plan: PlanView,
    scene: Scene,
    table: int,
    count: int,
    taken: Set<u64>,
    index: int,
    budget: int,
    unbound: int,
)
    requires
        within_limits(plan),
    ensures
        within_limits(delay_from(plan, scene, table, count, taken, index, budget, unbound)),
        delay_from(plan, scene, table, count, taken, index, budget, unbound).existing
            == plan.existing,
    decreases count - index,
{
    if index < count {
        let offset = table + 32 * index;
        let (range, left) = ranges::delay_range(
            scene.memory,
            scene.memory.subrange(offset, offset + 32),
            scene.kind.width(),
            budget,
        );
        lemma_delay(plan, scene, table, count, taken, index + 1, left, unbound);
        if let Some((start, end)) = range {
            lemma_range(plan, scene, start, end, 1);
            lemma_delay(
                range_scanned(plan, scene, start, end, 1),
                scene,
                table,
                count,
                taken,
                index + 1,
                left,
                crate::pe::rebuild::clipped(unbound + ranges::unbound_from(scene, start, end)),
            );
        }
    }
}

} // verus!
