//! What the imports that are recovered from tables of pointers have to do with the tables.

use vstd::prelude::*;

use crate::pe::exports::ExportView;
use crate::pe::image::{all_zero, fits, u32_at};
use crate::pe::imports::attestation::{imports_export, runs, span};
use crate::pe::imports::grouping::{
    law_groups_are_runs_of_the_list, law_grouping_keeps_counts, law_grouping_loses_no_import,
    lemma_listed_stays, lists_import, whole_run,
};
use crate::pe::imports::plan::{full, PlanView};
use crate::pe::imports::ranges::{
    declared_table, delay_from, delay_length_from, delay_range, delay_scanned, first_pointer,
    range_scanned, run_from, runs_from, trusted_from, trusted_range, trusted_scanned, unbound_from,
    with_run, Scene,
};
use crate::pe::imports::thunks::{name_at, pointer_at};
use crate::pe::rebuild::{clipped, greater, lesser};
use crate::pe::{directory_of, ModelView, PeKind, SectionModel};

verus! {

/// Whether the imports stand one behind the other from `offset` on: each in its slot, with
/// the export that its pointer leads to.
#[verifier::opaque]
pub open spec fn stand_at(scene: Scene, offset: int, imports: Seq<(u32, ExportView)>) -> bool {
    forall|k: int|
        0 <= k < imports.len() ==> {
            &&& (#[trigger] imports[k]).0 == offset + k * scene.kind.width()
            &&& imports_export(scene, imports[k].0 as int, imports[k].1)
        }
}

proof fn lemma_run_from(
    scene: Scene,
    start: int,
    offset: int,
    end: int,
    imports: Seq<(u32, ExportView)>,
)
    requires
        0 <= start,
        offset == start + imports.len() * scene.kind.width(),
        stand_at(scene, start, imports),
    ensures
        ({
            let run = run_from(scene, offset, end, imports);
            &&& stand_at(scene, start, run.imports)
            &&& imports.len() <= run.imports.len()
            &&& run.imports.take(imports.len() as int) == imports
            &&& run.offset == start + run.imports.len() * scene.kind.width()
            &&& run.offset + scene.kind.width() > end || run.imports.len() >= 65_536
                || run.offset > u32::MAX || forall|export: ExportView|
                !#[trigger] imports_export(scene, run.offset, export)
            &&& run.ambiguous ==> run.offset + scene.kind.width() <= end
            &&& run.ambiguous ==> exists|value: u64|
                scene.pointer(run.offset) == Some(value) && (#[trigger] scene.export(value))
                    is Some && scene.export(value)->Some_0.1
        }),
    decreases end - offset,
{
    reveal(stand_at);
    let width = scene.kind.width();
    let run = run_from(scene, offset, end, imports);
    assert(imports.take(imports.len() as int) =~= imports);
    if !(offset + width > end || imports.len() >= 65_536) {
        if let Some(value) = scene.pointer(offset) {
            if let Some((export, ambiguous)) = scene.export(value) {
                if ambiguous {
                    assert(scene.export(value) is Some && scene.export(value)->Some_0.1);
                } else if offset <= u32::MAX {
                    let more = imports.push((offset as u32, export));
                    assert((imports.len() + 1) * width == imports.len() * width + width)
                        by (nonlinear_arith);
                    assert(stand_at(scene, start, more)) by {
                        assert forall|k: int| 0 <= k < more.len() implies (
                        #[trigger] more[k]).0 == start + k * width && imports_export(
                            scene,
                            more[k].0 as int,
                            more[k].1,
                        ) by {
                            if k < imports.len() {
                                assert(more[k] == imports[k]);
                            }
                        }
                    }
                    lemma_run_from(scene, start, offset + width, end, more);
                    assert(run.imports.take(imports.len() as int) =~= imports) by {
                        assert forall|k: int| 0 <= k < imports.len() implies run.imports[k]
                            == imports[k] by {
                            assert(run.imports.take(more.len() as int)[k] == more[k]);
                        }
                    }
                }
            }
        }
    }
}

/// A run takes in the pointers from its start on, each with the one export that it leads to,
/// and ends only where the range ends, where a pointer leads to no export or to several, or
/// at a limit.
pub proof fn law_runs_end_where_pointers_lead_nowhere(scene: Scene, offset: int, end: int)
    requires
        0 <= offset,
    ensures
        ({
            let run = run_from(scene, offset, end, Seq::empty());
            &&& stand_at(scene, offset, run.imports)
            &&& run.offset == offset + run.imports.len() * scene.kind.width()
            &&& run.offset + scene.kind.width() > end || run.imports.len() >= 65_536
                || run.offset > u32::MAX || forall|export: ExportView|
                !#[trigger] imports_export(scene, run.offset, export)
        }),
{
    reveal(stand_at);
    lemma_run_from(scene, offset, offset, end, Seq::empty());
}

/// Whether the imports are a table of a range that starts with the pointer at `first` and
/// ends at `end`: they stand one behind the other from `start` on, with the start of the
/// range or a null pointer before them, and the end of the range or a null pointer behind.
#[verifier::opaque]
pub open spec fn whole_table(
    scene: Scene,
    first: int,
    start: int,
    end: int,
    imports: Seq<(u32, ExportView)>,
) -> bool {
    let width = scene.kind.width();
    let stop = start + imports.len() * width;
    &&& 0 < imports.len() < 65_536
    &&& first <= start && (start - first) % width == 0
    &&& stop <= end && stop <= u32::MAX
    &&& stand_at(scene, start, imports)
    &&& start == first || scene.pointer(start - width) == Some(0u64)
    &&& stop == end || scene.pointer(stop) == Some(0u64)
}

/// The first address from `start` on that is aligned to the pointers of the format.
#[verifier::opaque]
pub open spec fn aligned_start(start: int, kind: PeKind) -> int {
    match kind {
        PeKind::Pe32 => (start + 3) / 4 * 4,
        PeKind::Pe32Plus => (start + 7) / 8 * 8,
    }
}

proof fn lemma_aligned_start(start: int, kind: PeKind)
    requires
        0 <= start,
    ensures
        first_pointer(start, kind.width()) == aligned_start(start, kind),
        start <= aligned_start(start, kind),
        start % kind.width() == 0 ==> aligned_start(start, kind) == start,
{
    reveal(aligned_start);
    match kind {
        PeKind::Pe32 => {
            assert(first_pointer(start, 4) == (start + 3) / 4 * 4);
        },
        PeKind::Pe32Plus => {
            assert(first_pointer(start, 8) == (start + 7) / 8 * 8);
        },
    }
}

/// Whether a plan grew out of another: its groups are still there, first and in order, and
/// its count is no lower.
pub open spec fn grew(before: PlanView, after: PlanView) -> bool {
    &&& before.groups.len() <= after.groups.len()
    &&& after.groups.take(before.groups.len() as int) == before.groups
    &&& before.recovered <= after.recovered
}

/// Growing goes through.
pub proof fn lemma_grew_through(first: PlanView, second: PlanView, third: PlanView)
    requires
        grew(first, second),
        grew(second, third),
    ensures
        grew(first, third),
{
    let count = first.groups.len() as int;
    assert(third.groups.take(count) =~= first.groups) by {
        assert forall|g: int| 0 <= g < count implies third.groups[g] == first.groups[g] by {
            assert(second.groups.take(count)[g] == first.groups[g]);
            assert(third.groups.take(second.groups.len() as int)[g] == second.groups[g]);
        }
    }
}

proof fn lemma_run_grows(
    plan: PlanView,
    scene: Scene,
    first: int,
    offset: int,
    end: int,
    minimum: int,
)
    ensures
        grew(plan, with_run(plan, scene, first, offset, end, minimum)),
{
    let run = run_from(scene, offset, end, Seq::empty());
    let counted = PlanView {
        ambiguous: clipped(
            plan.ambiguous + if run.ambiguous {
                1int
            } else {
                0
            },
        ),
        ..plan
    };
    law_groups_are_runs_of_the_list(counted, run.imports, scene.kind.width(), minimum);
    law_grouping_keeps_counts(counted, run.imports, scene.kind.width(), minimum);
    assert(plan.groups.take(plan.groups.len() as int) =~= plan.groups);
}

proof fn lemma_runs_grow(
    plan: PlanView,
    scene: Scene,
    first: int,
    offset: int,
    end: int,
    minimum: int,
)
    ensures
        grew(plan, runs_from(plan, scene, first, offset, end, minimum)),
    decreases greater(0, end - offset),
{
    if offset + scene.kind.width() > end || plan.recovered >= 65_536 {
        assert(plan.groups.take(plan.groups.len() as int) =~= plan.groups);
    } else {
        let run = run_from(scene, offset, end, Seq::empty());
        let next = if run.offset <= offset {
            offset + scene.kind.width()
        } else {
            run.offset
        };
        let more = with_run(plan, scene, first, offset, end, minimum);
        lemma_run_grows(plan, scene, first, offset, end, minimum);
        lemma_runs_grow(more, scene, first, next, end, minimum);
        lemma_grew_through(
            plan,
            more,
            runs_from(plan, scene, first, offset, end, minimum),
        );
    }
}

/// Whether the import is in the plan, or a limit kept it out.
pub open spec fn listed_or_full(
    plan: PlanView,
    import: (u32, ExportView),
    room: int,
    width: int,
) -> bool {
    ||| lists_import(plan.groups, import.0, import.1, width)
    ||| plan.groups.len() >= 4_096
    ||| plan.recovered + room > 65_536
}

/// What a plan has, a plan that grew out of it has.
pub proof fn lemma_listed_through(
    before: PlanView,
    after: PlanView,
    import: (u32, ExportView),
    room: int,
    width: int,
)
    requires
        grew(before, after),
        listed_or_full(before, import, room, width),
    ensures
        listed_or_full(after, import, room, width),
{
    if lists_import(before.groups, import.0, import.1, width) {
        lemma_listed_stays(before.groups, after.groups, import.0, import.1, width);
    }
}

/// A run that starts where a table starts takes in that table and nothing else.
proof fn lemma_run_of_table(
    scene: Scene,
    first: int,
    start: int,
    end: int,
    imports: Seq<(u32, ExportView)>,
)
    requires
        0 <= first,
        scene.export(0) is None,
        whole_table(scene, first, start, end, imports),
    ensures
        run_from(scene, start, end, Seq::empty()).imports == imports,
        run_from(scene, start, end, Seq::empty()).offset == start + imports.len()
            * scene.kind.width(),
{
    reveal(stand_at);
    reveal(whole_table);
    let width = scene.kind.width();
    let run = run_from(scene, start, end, Seq::empty());
    lemma_run_from(scene, start, start, end, Seq::empty());
    let count = run.imports.len() as int;
    if count < imports.len() {
        assert(imports[count].0 == start + count * width);
        assert(imports_export(scene, imports[count].0 as int, imports[count].1));
        assert((count + 1) * width <= imports.len() * width) by (nonlinear_arith)
            requires
                count + 1 <= imports.len(),
                0 < width,
        ;
        assert((count + 1) * width == count * width + width) by (nonlinear_arith);
        assert(false);
    }
    if count > imports.len() {
        let at = imports.len() as int;
        assert(run.imports[at].0 == start + at * width);
        assert(imports_export(scene, run.imports[at].0 as int, run.imports[at].1));
        assert((at + 1) * width <= count * width) by (nonlinear_arith)
            requires
                at + 1 <= count,
                0 < width,
        ;
        assert((at + 1) * width == at * width + width) by (nonlinear_arith);
        lemma_run_inside(scene, start, end, Seq::empty());
        assert(false);
    }
    assert forall|k: int| 0 <= k < imports.len() implies run.imports[k] == imports[k] by {
        assert(imports[k].0 == start + k * width);
        assert(run.imports[k].0 == start + k * width);
        assert(imports_export(scene, imports[k].0 as int, imports[k].1));
        assert(imports_export(scene, run.imports[k].0 as int, run.imports[k].1));
    }
    assert(run.imports =~= imports);
}

/// A run does not leave its range.
proof fn lemma_run_inside(
    scene: Scene,
    offset: int,
    end: int,
    imports: Seq<(u32, ExportView)>,
)
    requires
        offset <= end,
    ensures
        run_from(scene, offset, end, imports).offset <= end,
    decreases end - offset,
{
    let width = scene.kind.width();
    if !(offset + width > end || imports.len() >= 65_536) {
        if let Some(value) = scene.pointer(offset) {
            if let Some((export, ambiguous)) = scene.export(value) {
                if !ambiguous && offset <= u32::MAX {
                    lemma_run_inside(
                        scene,
                        offset + width,
                        end,
                        imports.push((offset as u32, export)),
                    );
                }
            }
        }
    }
}

/// The search for runs comes to the start of every table.
proof fn lemma_table_is_reached(
    plan: PlanView,
    scene: Scene,
    first: int,
    offset: int,
    start: int,
    end: int,
    minimum: int,
    imports: Seq<(u32, ExportView)>,
    from: int,
    to: int,
    index: int,
)
    requires
        0 <= first <= offset <= start,
        (start - offset) % scene.kind.width() == 0,
        scene.export(0) is None,
        whole_table(scene, first, start, end, imports),
        whole_run(imports, scene.kind.width(), from, to),
        to - from >= minimum,
        from <= index < to,
        minimum >= 1,
    ensures
        listed_or_full(
            runs_from(plan, scene, first, offset, end, minimum),
            imports[index],
            to - from,
            scene.kind.width(),
        ),
    decreases start - offset,
{
    reveal(whole_table);
    reveal(stand_at);
    let width = scene.kind.width();
    let result = runs_from(plan, scene, first, offset, end, minimum);
    assert(width <= imports.len() * width) by (nonlinear_arith)
        requires
            1 <= imports.len(),
            0 < width,
    ;
    if plan.recovered < 65_536 {
        let run = run_from(scene, offset, end, Seq::empty());
        let next = if run.offset <= offset {
            offset + width
        } else {
            run.offset
        };
        let more = with_run(plan, scene, first, offset, end, minimum);
        lemma_run_from(scene, offset, offset, end, Seq::empty());
        if offset == start {
            lemma_run_of_table(scene, first, start, end, imports);
            let counted = PlanView {
                ambiguous: clipped(
                    plan.ambiguous + if run.ambiguous {
                        1int
                    } else {
                        0
                    },
                ),
                ..plan
            };
            law_grouping_loses_no_import(counted, imports, width, minimum, from, to, index);
            lemma_runs_grow(more, scene, first, next, end, minimum);
            lemma_listed_through(more, result, imports[index], to - from, width);
        } else {
            lemma_run_stops_before(scene, offset, start, end);
            lemma_table_is_reached(
                more,
                scene,
                first,
                next,
                start,
                end,
                minimum,
                imports,
                from,
                to,
                index,
            );
        }
    }
}

/// A run that starts before a null pointer does not go beyond it.
proof fn lemma_run_stops_before(scene: Scene, offset: int, start: int, end: int)
    requires
        0 <= offset < start,
        (start - offset) % scene.kind.width() == 0,
        scene.pointer(start - scene.kind.width()) == Some(0u64),
        scene.export(0) is None,
    ensures
        ({
            let run = run_from(scene, offset, end, Seq::empty());
            &&& offset <= run.offset <= start - scene.kind.width()
            &&& (start - run.offset) % scene.kind.width() == 0
            &&& offset + scene.kind.width() <= start
            &&& (start - (offset + scene.kind.width())) % scene.kind.width() == 0
        }),
{
    reveal(stand_at);
    let width = scene.kind.width();
    let run = run_from(scene, offset, end, Seq::empty());
    lemma_run_from(scene, offset, offset, end, Seq::empty());
    let count = run.imports.len() as int;
    let steps = (start - offset) / width;
    vstd::arithmetic::div_mod::lemma_fundamental_div_mod(start - offset, width);
    assert(start - offset == steps * width) by {
        vstd::arithmetic::mul::lemma_mul_is_commutative(steps, width);
    }
    assert(steps >= 1) by (nonlinear_arith)
        requires
            steps * width > 0,
            0 < width,
    ;
    assert((steps - 1) * width == steps * width - width) by (nonlinear_arith);
    if count > steps - 1 {
        let at = steps - 1;
        assert(run.imports[at].0 == offset + at * width);
        assert(imports_export(scene, run.imports[at].0 as int, run.imports[at].1));
        assert(false);
    }
    assert(0 <= count * width <= (steps - 1) * width) by (nonlinear_arith)
        requires
            0 <= count <= steps - 1,
            0 < width,
    ;
    assert(start - run.offset == (steps - count) * width) by (nonlinear_arith)
        requires
            start - offset == steps * width,
            run.offset == offset + count * width,
    ;
    vstd::arithmetic::div_mod::lemma_mod_multiples_basic(steps - count, width);
    vstd::arithmetic::div_mod::lemma_mod_multiples_basic(steps - 1, width);
}

proof fn lemma_table_in_range(
    scene: Scene,
    first: int,
    start: int,
    end: int,
    imports: Seq<(u32, ExportView)>,
)
    requires
        whole_table(scene, first, start, end, imports),
    ensures
        first <= start,
        (start - first) % scene.kind.width() == 0,
{
    reveal(whole_table);
}

/// No table of a range is passed over. Where pointers to single exports stand one behind the
/// other, between null pointers or the ends of the range, those that stand in a whole run of
/// at least `minimum` of one module are in the plan, unless a limit keeps them out.
pub proof fn law_tables_of_a_range_are_recovered(
    plan: PlanView,
    scene: Scene,
    start: int,
    end: int,
    minimum: int,
    table: int,
    imports: Seq<(u32, ExportView)>,
    from: int,
    to: int,
    index: int,
)
    requires
        0 <= start,
        minimum >= 1,
        scene.export(0) is None,
        whole_table(
            scene,
            aligned_start(start, scene.kind),
            table,
            end,
            imports,
        ),
        whole_run(imports, scene.kind.width(), from, to),
        to - from >= minimum,
        from <= index < to,
    ensures
        listed_or_full(
            range_scanned(plan, scene, start, end, minimum),
            imports[index],
            to - from,
            scene.kind.width(),
        ),
{
    let first = first_pointer(start, scene.kind.width());
    lemma_aligned_start(start, scene.kind);
    lemma_table_in_range(scene, first, table, end, imports);
    lemma_table_is_reached(
        plan,
        scene,
        first,
        first,
        table,
        end,
        minimum,
        imports,
        from,
        to,
        index,
    );
}

proof fn lemma_trusted_grows(
    plan: PlanView,
    scene: Scene,
    sections: Seq<SectionModel>,
    declared: Option<(int, int)>,
    index: int,
)
    ensures
        grew(plan, trusted_from(plan, scene, sections, declared, index)),
    decreases sections.len() - index,
{
    if index >= sections.len() {
        assert(plan.groups.take(plan.groups.len() as int) =~= plan.groups);
    } else {
        lemma_trusted_grows(plan, scene, sections, declared, index + 1);
        if let Some((start, end, minimum)) = trusted_range(sections[index], declared) {
            let stop = lesser(end, scene.memory.len() as int);
            let next = range_scanned(plan, scene, start, stop, minimum);
            let first = first_pointer(start, scene.kind.width());
            lemma_runs_grow(plan, scene, first, first, stop, minimum);
            lemma_trusted_grows(next, scene, sections, declared, index + 1);
            if sections[index].holds_data() && !full(next) {
                lemma_grew_through(
                    plan,
                    next,
                    trusted_from(next, scene, sections, declared, index + 1),
                );
            }
        }
    }
}

/// Whether the section is readable or writable, and not executable.
pub open spec fn is_data(section: SectionModel) -> bool {
    !runs(section) && section.characteristics & 0xC000_0000 != 0
}

proof fn lemma_trusted_table(
    plan: PlanView,
    scene: Scene,
    sections: Seq<SectionModel>,
    declared: Option<(int, int)>,
    at: int,
    index: int,
    start: int,
    end: int,
    minimum: int,
    table: int,
    imports: Seq<(u32, ExportView)>,
    from: int,
    to: int,
    which: int,
)
    requires
        0 <= at <= index < sections.len(),
        is_data(sections[index]),
        trusted_range(sections[index], declared) == Some((start, end, minimum)),
        0 <= start,
        minimum >= 1,
        scene.export(0) is None,
        whole_table(
            scene,
            aligned_start(start, scene.kind),
            table,
            lesser(end, scene.memory.len() as int),
            imports,
        ),
        whole_run(imports, scene.kind.width(), from, to),
        to - from >= minimum,
        from <= which < to,
    ensures
        listed_or_full(
            trusted_from(plan, scene, sections, declared, at),
            imports[which],
            to - from,
            scene.kind.width(),
        ),
    decreases index - at,
{
    let width = scene.kind.width();
    assert(0x4000_0000u32 | 0x8000_0000u32 == 0xC000_0000u32) by (bit_vector);
    if at == index {
        let stop = lesser(end, scene.memory.len() as int);
        let next = range_scanned(plan, scene, start, stop, minimum);
        law_tables_of_a_range_are_recovered(
            plan,
            scene,
            start,
            stop,
            minimum,
            table,
            imports,
            from,
            to,
            which,
        );
        lemma_trusted_grows(next, scene, sections, declared, at + 1);
        if !full(next) {
            lemma_listed_through(
                next,
                trusted_from(next, scene, sections, declared, at + 1),
                imports[which],
                to - from,
                width,
            );
        }
    } else {
        if sections[at].holds_data() {
            if let Some((s, e, m)) = trusted_range(sections[at], declared) {
                let next = range_scanned(plan, scene, s, lesser(e, scene.memory.len() as int), m);
                if !full(next) {
                    lemma_trusted_table(
                        next,
                        scene,
                        sections,
                        declared,
                        at + 1,
                        index,
                        start,
                        end,
                        minimum,
                        table,
                        imports,
                        from,
                        to,
                        which,
                    );
                }
            } else {
                lemma_trusted_table(
                    plan,
                    scene,
                    sections,
                    declared,
                    at + 1,
                    index,
                    start,
                    end,
                    minimum,
                    table,
                    imports,
                    from,
                    to,
                    which,
                );
            }
        } else {
            lemma_trusted_table(
                plan,
                scene,
                sections,
                declared,
                at + 1,
                index,
                start,
                end,
                minimum,
                table,
                imports,
                from,
                to,
                which,
            );
        }
    }
}

/// Where an address table is declared, the table in each data section that it meets is
/// recovered: the imports that stand one behind the other in the part that both share,
/// between null pointers or the ends of that part, are in the plan, down to single ones,
/// unless a limit keeps them out.
pub proof fn law_declared_tables_are_recovered(
    plan: PlanView,
    scene: Scene,
    model: ModelView,
    section: int,
    rva: u32,
    size: u32,
    table: int,
    imports: Seq<(u32, ExportView)>,
    from: int,
    to: int,
    index: int,
)
    requires
        scene.export(0) is None,
        0 <= section < model.sections.len(),
        is_data(model.sections[section]),
        directory_of(scene.memory, model.headers, 12) matches Ok(Some(directory)) && directory.rva.0
            == rva && directory.size == size,
        rva + size <= u32::MAX,
        ({
            let start = model.sections[section].virtual_address.0;
            let low = if rva >= start {
                rva as int
            } else {
                start as int
            };
            let top = if rva + size <= start + span(model.sections[section]) {
                rva + size
            } else {
                start + span(model.sections[section])
            };
            let end = if top <= scene.memory.len() {
                top
            } else {
                scene.memory.len() as int
            };
            &&& start + span(model.sections[section]) <= u32::MAX
            &&& low < top
            &&& whole_table(
                scene,
                aligned_start(low, scene.kind),
                table,
                end,
                imports,
            )
        }),
        whole_run(imports, scene.kind.width(), from, to),
        from <= index < to,
    ensures
        listed_or_full(
            trusted_scanned(plan, scene, model),
            imports[index],
            to - from,
            scene.kind.width(),
        ),
{
    let declared = declared_table(scene.memory, model);
    let (start, end, minimum) = trusted_range(model.sections[section], declared)->Some_0;
    lemma_trusted_table(
        plan,
        scene,
        model.sections,
        declared,
        0,
        section,
        start,
        end,
        minimum,
        table,
        imports,
        from,
        to,
        index,
    );
}

/// Where no address table is declared, the tables of an import section are recovered: the
/// imports that stand one behind the other, between null pointers or the ends of the section,
/// are in the plan where at least two of one module stand together, unless a limit keeps them
/// out.
pub proof fn law_import_sections_are_recovered(
    plan: PlanView,
    scene: Scene,
    model: ModelView,
    section: int,
    table: int,
    imports: Seq<(u32, ExportView)>,
    from: int,
    to: int,
    index: int,
)
    requires
        scene.export(0) is None,
        0 <= section < model.sections.len(),
        is_data(model.sections[section]),
        directory_of(scene.memory, model.headers, 12) matches Ok(None),
        ({
            let name = model.sections[section].name@;
            name[6] == 0 && crate::text::same_letters(
                name.take(6),
                seq![0x2e, 0x69, 0x64, 0x61, 0x74, 0x61],
            )
        }),
        ({
            let start = model.sections[section].virtual_address.0 as int;
            let top = start + span(model.sections[section]);
            let end = if top <= scene.memory.len() {
                top
            } else {
                scene.memory.len() as int
            };
            &&& top <= u32::MAX
            &&& whole_table(
                scene,
                aligned_start(start, scene.kind),
                table,
                end,
                imports,
            )
        }),
        whole_run(imports, scene.kind.width(), from, to),
        to - from >= 2,
        from <= index < to,
    ensures
        listed_or_full(
            trusted_scanned(plan, scene, model),
            imports[index],
            to - from,
            scene.kind.width(),
        ),
{
    let declared = declared_table(scene.memory, model);
    let name = model.sections[section].name@;
    assert(crate::pe::imports::ranges::import_label(name.take(6)));
    assert(crate::pe::imports::ranges::import_name(name));
    let (start, end, minimum) = trusted_range(model.sections[section], declared)->Some_0;
    lemma_trusted_table(
        plan,
        scene,
        model.sections,
        declared,
        0,
        section,
        start,
        end,
        minimum,
        table,
        imports,
        from,
        to,
        index,
    );
}

/// Whether the entry of a table is a pointer other than null.
pub open spec fn points_somewhere(memory: Seq<u8>, start: int, width: int, at: int) -> bool {
    let value = pointer_at(memory, start + at * width, width);
    value is Some && value != Some(0u64)
}

/// Whether `count` pointers other than null stand one behind the other from `start` on, and a
/// null pointer behind them.
pub open spec fn null_terminated(memory: Seq<u8>, start: int, width: int, count: int) -> bool {
    &&& 0 <= count
    &&& forall|i: int|
        0 <= i < count ==> #[trigger] points_somewhere(memory, start, width, i)
    &&& pointer_at(memory, start + count * width, width) == Some(0u64)
}

proof fn lemma_delay_length(
    memory: Seq<u8>,
    start: int,
    width: int,
    index: int,
    count: int,
    limit: int,
)
    requires
        0 <= index <= count < limit,
        null_terminated(memory, start, width, count),
    ensures
        delay_length_from(memory, start, width, index, limit) == (Some(count), limit - count - 1),
    decreases count - index,
{
    if index < count {
        assert(points_somewhere(memory, start, width, index));
        lemma_delay_length(memory, start, width, index + 1, count, limit);
    }
}

/// Whether the delay-load descriptor leads to a table of `count` addresses: it is relative to
/// the image, has a name, and its tables of addresses and names are aligned and end with a
/// null pointer after as many entries.
#[verifier::opaque]
pub open spec fn leads_to_table(
    memory: Seq<u8>,
    descriptor: Seq<u8>,
    width: int,
    count: int,
) -> bool {
    let addresses = u32_at(descriptor, 12) as int;
    let names = u32_at(descriptor, 16) as int;
    &&& descriptor.len() == 32
    &&& u32_at(descriptor, 0) & 1 != 0
    &&& name_at(memory, u32_at(descriptor, 4) as int)
    &&& addresses != 0 && addresses % width == 0
    &&& names != 0 && names % width == 0
    &&& count > 0
    &&& null_terminated(memory, addresses, width, count)
    &&& null_terminated(memory, names, width, count)
}

/// The address table of a delay-load descriptor is found whole, as far as the budget goes;
/// each pointer that is read, the last null pointers included, takes one off it.
pub proof fn law_delay_tables_are_found(
    memory: Seq<u8>,
    descriptor: Seq<u8>,
    width: int,
    count: int,
    budget: int,
)
    requires
        width > 0,
        leads_to_table(memory, descriptor, width, count),
        2 * (count + 1) <= budget,
    ensures
        delay_range(memory, descriptor, width, budget) == (
            Some(
                (
                    u32_at(descriptor, 12) as int,
                    u32_at(descriptor, 12) + count * width,
                ),
            ),
            budget - 2 * (count + 1),
        ),
{
    reveal(leads_to_table);
    lemma_delay_length(memory, u32_at(descriptor, 12) as int, width, 0, count, budget);
    lemma_delay_length(
        memory,
        u32_at(descriptor, 16) as int,
        width,
        0,
        count,
        budget - count - 1,
    );
}

proof fn lemma_delay_grows(
    plan: PlanView,
    scene: Scene,
    table: int,
    count: int,
    taken: Set<u64>,
    index: int,
    budget: int,
    unbound: int,
)
    ensures
        grew(plan, delay_from(plan, scene, table, count, taken, index, budget, unbound)),
    decreases count - index,
{
    assert(plan.groups.take(plan.groups.len() as int) =~= plan.groups);
    if index < count {
        let offset = table + 32 * index;
        let (range, left) = delay_range(
            scene.memory,
            scene.memory.subrange(offset, offset + 32),
            scene.kind.width(),
            budget,
        );
        lemma_delay_grows(plan, scene, table, count, taken, index + 1, left, unbound);
        if let Some((start, end)) = range {
            let first = first_pointer(start, scene.kind.width());
            let next = range_scanned(plan, scene, start, end, 1);
            let more = clipped(unbound + unbound_from(scene, start, end));
            lemma_runs_grow(plan, scene, first, first, end, 1);
            lemma_delay_grows(next, scene, table, count, taken, index + 1, left, more);
            lemma_grew_through(
                plan,
                next,
                delay_from(next, scene, table, count, taken, index + 1, left, more),
            );
        }
    }
}

/// The bytes of a delay-load descriptor.
pub open spec fn delay_descriptor(memory: Seq<u8>, table: int, index: int) -> Seq<u8> {
    memory.subrange(table + 32 * index, table + 32 * index + 32)
}

/// How many pointers are read to measure the tables of the first `count` descriptors, where
/// each leads to as many addresses as `lengths` says.
pub open spec fn pointers_read(lengths: Seq<int>, count: int) -> int
    decreases count,
{
    if count <= 0 {
        0
    } else {
        pointers_read(lengths, count - 1) + 2 * (lengths[count - 1] + 1)
    }
}

proof fn lemma_pointers_grow(lengths: Seq<int>, from: int, to: int)
    requires
        0 <= from <= to <= lengths.len(),
        forall|i: int| 0 <= i < lengths.len() ==> #[trigger] lengths[i] > 0,
    ensures
        0 <= pointers_read(lengths, from) <= pointers_read(lengths, to),
    decreases to,
{
    if from < to {
        lemma_pointers_grow(lengths, from, to - 1);
    } else if from > 0 {
        lemma_pointers_grow(lengths, from - 1, from - 1);
    }
}

proof fn lemma_delay_is_whole(
    scene: Scene,
    start: int,
    end: int,
    count: int,
    imports: Seq<(u32, ExportView)>,
)
    requires
        imports.len() == count,
        0 < count < 65_536,
        end == start + count * scene.kind.width(),
        end <= u32::MAX,
        stand_at(scene, start, imports),
    ensures
        whole_table(scene, start, start, end, imports),
{
    reveal(whole_table);
    assert(0int % scene.kind.width() == 0);
}

/// Whether the first descriptors of the table each lead to as many addresses as `lengths`
/// says.
#[verifier::opaque]
pub open spec fn descriptors_lead(scene: Scene, table: int, lengths: Seq<int>) -> bool {
    forall|i: int|
        0 <= i < lengths.len() ==> fits(scene.memory, table + 32 * i, 32) && leads_to_table(
            scene.memory,
            delay_descriptor(scene.memory, table, i),
            scene.kind.width(),
            #[trigger] lengths[i],
        )
}

/// Where the address table of a descriptor starts.
pub open spec fn delay_start(scene: Scene, table: int, index: int) -> u32 {
    u32_at(delay_descriptor(scene.memory, table, index), 12)
}

proof fn lemma_descriptor_leads(scene: Scene, table: int, lengths: Seq<int>, index: int)
    requires
        descriptors_lead(scene, table, lengths),
        0 <= index < lengths.len(),
    ensures
        fits(scene.memory, table + 32 * index, 32),
        leads_to_table(
            scene.memory,
            delay_descriptor(scene.memory, table, index),
            scene.kind.width(),
            lengths[index],
        ),
        lengths[index] > 0,
        delay_start(scene, table, index) as int % scene.kind.width() == 0,
        !all_zero(delay_descriptor(scene.memory, table, index)),
{
    reveal(descriptors_lead);
    reveal(leads_to_table);
    let descriptor = delay_descriptor(scene.memory, table, index);
    assert(lengths[index] > 0);
    if all_zero(descriptor) {
        assert(descriptor[12] == 0 && descriptor[13] == 0 && descriptor[14] == 0
            && descriptor[15] == 0);
    }
}

proof fn lemma_delay_step(
    plan: PlanView,
    scene: Scene,
    table: int,
    count: int,
    taken: Set<u64>,
    at: int,
    lengths: Seq<int>,
    unbound: int,
)
    requires
        0 <= at < lengths.len() <= count,
        descriptors_lead(scene, table, lengths),
        pointers_read(lengths, lengths.len() as int) <= 65_536,
        !full(plan),
    ensures
        ({
            let start = delay_start(scene, table, at) as int;
            let end = start + lengths[at] * scene.kind.width();
            delay_from(
                plan,
                scene,
                table,
                count,
                taken,
                at,
                65_536 - pointers_read(lengths, at),
                unbound,
            ) == if taken.contains(start as u64) {
                delay_from(
                    plan,
                    scene,
                    table,
                    count,
                    taken,
                    at + 1,
                    65_536 - pointers_read(lengths, at + 1),
                    unbound,
                )
            } else {
                delay_from(
                    range_scanned(plan, scene, start, end, 1),
                    scene,
                    table,
                    count,
                    taken,
                    at + 1,
                    65_536 - pointers_read(lengths, at + 1),
                    clipped(unbound + unbound_from(scene, start, end)),
                )
            }
        }),
{
    assert forall|i: int| 0 <= i < lengths.len() implies #[trigger] lengths[i] > 0 by {
        lemma_descriptor_leads(scene, table, lengths, i);
    }
    lemma_pointers_grow(lengths, at + 1, lengths.len() as int);
    lemma_descriptor_leads(scene, table, lengths, at);
    law_delay_tables_are_found(
        scene.memory,
        delay_descriptor(scene.memory, table, at),
        scene.kind.width(),
        lengths[at],
        65_536 - pointers_read(lengths, at),
    );
}

proof fn lemma_delay_table(
    plan: PlanView,
    scene: Scene,
    table: int,
    count: int,
    taken: Set<u64>,
    at: int,
    lengths: Seq<int>,
    unbound: int,
    index: int,
    imports: Seq<(u32, ExportView)>,
    from: int,
    to: int,
    which: int,
)
    requires
        0 <= at <= index < lengths.len() <= count,
        scene.export(0) is None,
        descriptors_lead(scene, table, lengths),
        pointers_read(lengths, lengths.len() as int) <= 65_536,
        0 < imports.len() < 65_536,
        imports.len() == lengths[index],
        stand_at(scene, delay_start(scene, table, index) as int, imports),
        delay_start(scene, table, index) + imports.len() * scene.kind.width() <= u32::MAX,
        !taken.contains(delay_start(scene, table, index) as u64),
        whole_run(imports, scene.kind.width(), from, to),
        from <= which < to,
    ensures
        listed_or_full(
            delay_from(
                plan,
                scene,
                table,
                count,
                taken,
                at,
                65_536 - pointers_read(lengths, at),
                unbound,
            ),
            imports[which],
            to - from,
            scene.kind.width(),
        ),
    decreases index - at,
{
    let width = scene.kind.width();
    let left = 65_536 - pointers_read(lengths, at + 1);
    if !full(plan) {
        lemma_delay_step(plan, scene, table, count, taken, at, lengths, unbound);
        let start = delay_start(scene, table, at) as int;
        let end = start + lengths[at] * width;
        let next = range_scanned(plan, scene, start, end, 1);
        let more = clipped(unbound + unbound_from(scene, start, end));
        if at == index {
            lemma_descriptor_leads(scene, table, lengths, at);
            lemma_aligned_start(start, scene.kind);
            lemma_delay_is_whole(scene, start, end, lengths[at], imports);
            law_tables_of_a_range_are_recovered(
                plan,
                scene,
                start,
                end,
                1,
                start,
                imports,
                from,
                to,
                which,
            );
            lemma_delay_grows(next, scene, table, count, taken, at + 1, left, more);
            lemma_listed_through(
                next,
                delay_from(next, scene, table, count, taken, at + 1, left, more),
                imports[which],
                to - from,
                width,
            );
        } else {
            lemma_delay_table(
                plan,
                scene,
                table,
                count,
                taken,
                at + 1,
                lengths,
                unbound,
                index,
                imports,
                from,
                to,
                which,
            );
            lemma_delay_table(
                next,
                scene,
                table,
                count,
                taken,
                at + 1,
                lengths,
                more,
                index,
                imports,
                from,
                to,
                which,
            );
        }
    }
}

/// The imports of delay-load descriptors are recovered. Where the first descriptors of the
/// directory each lead to a table and not too many pointers are read, the imports of one of
/// these tables are in the plan, unless the table was recovered before or a limit keeps them
/// out.
pub proof fn law_delay_loads_are_recovered(
    plan: PlanView,
    scene: Scene,
    model: ModelView,
    rva: u32,
    size: u32,
    lengths: Seq<int>,
    descriptor: int,
    imports: Seq<(u32, ExportView)>,
    from: int,
    to: int,
    index: int,
)
    requires
        scene.export(0) is None,
        directory_of(scene.memory, model.headers, 13) matches Ok(Some(directory)) && directory.rva.0
            == rva && directory.size == size,
        0 <= descriptor < lengths.len() <= 4_096,
        32 * lengths.len() <= size,
        descriptors_lead(scene, rva as int, lengths),
        pointers_read(lengths, lengths.len() as int) <= 65_536,
        imports.len() == lengths[descriptor],
        ({
            let start = delay_start(scene, rva as int, descriptor);
            &&& stand_at(scene, start as int, imports)
            &&& start + imports.len() * scene.kind.width() <= u32::MAX
            &&& !crate::pe::imports::plan::taken_slots(
                plan.groups,
                scene.kind.width(),
            ).contains(start as u64)
        }),
        whole_run(imports, scene.kind.width(), from, to),
        from <= index < to,
    ensures
        listed_or_full(
            delay_scanned(plan, scene, model),
            imports[index],
            to - from,
            scene.kind.width(),
        ),
{
    assert forall|i: int| 0 <= i < lengths.len() implies #[trigger] lengths[i] > 0 by {
        lemma_descriptor_leads(scene, rva as int, lengths, i);
    }
    lemma_pointers_grow(lengths, descriptor, descriptor);
    lemma_pointers_grow(lengths, descriptor + 1, lengths.len() as int);
    lemma_delay_table(
        plan,
        scene,
        rva as int,
        lesser(size as int / 32, 4_096),
        crate::pe::imports::plan::taken_slots(plan.groups, scene.kind.width()),
        0,
        lengths,
        0,
        descriptor,
        imports,
        from,
        to,
        index,
    );
}

/// The scan of the trusted ranges only adds to a plan.
pub proof fn lemma_trusted_scan_grows(plan: PlanView, scene: Scene, model: ModelView)
    ensures
        grew(plan, trusted_scanned(plan, scene, model)),
{
    lemma_trusted_grows(
        plan,
        scene,
        model.sections,
        declared_table(scene.memory, model),
        0,
    );
}

/// The scan of the delay loads only adds to a plan.
pub proof fn lemma_delay_scan_grows(plan: PlanView, scene: Scene, model: ModelView)
    ensures
        grew(plan, delay_scanned(plan, scene, model)),
{
    assert(plan.groups.take(plan.groups.len() as int) =~= plan.groups);
    if let Ok(Some(directory)) = directory_of(scene.memory, model.headers, 13) {
        lemma_delay_grows(
            plan,
            scene,
            directory.rva.0 as int,
            lesser(directory.size as int / 32, 4_096),
            crate::pe::imports::plan::taken_slots(plan.groups, scene.kind.width()),
            0,
            65_536,
            0,
        );
    }
}

proof fn lemma_runs_keep_unresolved(
    plan: PlanView,
    scene: Scene,
    first: int,
    offset: int,
    end: int,
    minimum: int,
)
    ensures
        runs_from(plan, scene, first, offset, end, minimum).unresolved_delay
            == plan.unresolved_delay,
    decreases greater(0, end - offset),
{
    if !(offset + scene.kind.width() > end || plan.recovered >= 65_536) {
        let run = run_from(scene, offset, end, Seq::empty());
        let next = if run.offset <= offset {
            offset + scene.kind.width()
        } else {
            run.offset
        };
        let counted = PlanView {
            ambiguous: clipped(
                plan.ambiguous + if run.ambiguous {
                    1int
                } else {
                    0
                },
            ),
            ..plan
        };
        law_groups_are_runs_of_the_list(counted, run.imports, scene.kind.width(), minimum);
        lemma_runs_keep_unresolved(
            with_run(plan, scene, first, offset, end, minimum),
            scene,
            first,
            next,
            end,
            minimum,
        );
    }
}

/// How many pointers of the tables of the descriptors from `index` on lead to no export, but
/// for tables that were recovered before.
pub open spec fn unbound_in_tables(
    scene: Scene,
    table: int,
    taken: Set<u64>,
    lengths: Seq<int>,
    index: int,
) -> int
    decreases lengths.len() - index,
{
    if index >= lengths.len() {
        0
    } else {
        let start = delay_start(scene, table, index) as int;
        unbound_in_tables(scene, table, taken, lengths, index + 1) + if taken.contains(
            start as u64,
        ) {
            0
        } else {
            unbound_from(scene, start, start + lengths[index] * scene.kind.width())
        }
    }
}

proof fn lemma_unbound_nonnegative(scene: Scene, offset: int, end: int)
    ensures
        0 <= unbound_from(scene, offset, end),
    decreases end - offset,
{
    if offset + scene.kind.width() <= end {
        lemma_unbound_nonnegative(scene, offset + scene.kind.width(), end);
    }
}

proof fn lemma_unbound_tables_nonnegative(
    scene: Scene,
    table: int,
    taken: Set<u64>,
    lengths: Seq<int>,
    index: int,
)
    ensures
        0 <= unbound_in_tables(scene, table, taken, lengths, index),
    decreases lengths.len() - index,
{
    if index < lengths.len() {
        let start = delay_start(scene, table, index) as int;
        lemma_unbound_nonnegative(scene, start, start + lengths[index] * scene.kind.width());
        lemma_unbound_tables_nonnegative(scene, table, taken, lengths, index + 1);
    }
}

proof fn lemma_delay_counts(
    plan: PlanView,
    scene: Scene,
    table: int,
    count: int,
    taken: Set<u64>,
    at: int,
    lengths: Seq<int>,
    unbound: int,
)
    requires
        0 <= at <= lengths.len() <= count,
        descriptors_lead(scene, table, lengths),
        pointers_read(lengths, lengths.len() as int) <= 65_536,
        lengths.len() == count || !fits(scene.memory, table + 32 * lengths.len(), 32) || all_zero(
            delay_descriptor(scene.memory, table, lengths.len() as int),
        ),
        0 <= unbound,
        0 <= plan.unresolved_delay,
        plan.unresolved_delay + unbound + unbound_in_tables(scene, table, taken, lengths, at)
            <= usize::MAX,
    ensures
        ({
            let after = delay_from(
                plan,
                scene,
                table,
                count,
                taken,
                at,
                65_536 - pointers_read(lengths, at),
                unbound,
            );
            full(after) || after.unresolved_delay == plan.unresolved_delay + unbound
                + unbound_in_tables(scene, table, taken, lengths, at)
        }),
    decreases lengths.len() - at,
{
    if at < lengths.len() && !full(plan) {
        lemma_delay_step(plan, scene, table, count, taken, at, lengths, unbound);
        lemma_unbound_tables_nonnegative(scene, table, taken, lengths, at + 1);
        let start = delay_start(scene, table, at) as int;
        let end = start + lengths[at] * scene.kind.width();
        lemma_unbound_nonnegative(scene, start, end);
        if taken.contains(start as u64) {
            lemma_delay_counts(plan, scene, table, count, taken, at + 1, lengths, unbound);
        } else {
            let first = first_pointer(start, scene.kind.width());
            lemma_runs_keep_unresolved(plan, scene, first, first, end, 1);
            lemma_delay_counts(
                range_scanned(plan, scene, start, end, 1),
                scene,
                table,
                count,
                taken,
                at + 1,
                lengths,
                unbound + unbound_from(scene, start, end),
            );
        }
    }
}

/// The pointers of delay-load tables that lead to no export are reported: where the
/// descriptors of the directory, up to its end or one that is all zero, each lead to a table
/// and not too many pointers are read, the count grows by the pointers of these tables that
/// lead nowhere, but for tables that were recovered before; unless the plan is full.
pub proof fn law_unbound_delay_loads_are_reported(
    plan: PlanView,
    scene: Scene,
    model: ModelView,
    rva: u32,
    size: u32,
    lengths: Seq<int>,
)
    requires
        directory_of(scene.memory, model.headers, 13) matches Ok(Some(directory)) && directory.rva.0
            == rva && directory.size == size,
        32 <= size,
        lengths.len() <= 4_096,
        32 * lengths.len() <= size,
        descriptors_lead(scene, rva as int, lengths),
        pointers_read(lengths, lengths.len() as int) <= 65_536,
        32 * (lengths.len() + 1) > size || lengths.len() == 4_096 || !fits(
            scene.memory,
            rva + 32 * lengths.len(),
            32,
        ) || all_zero(delay_descriptor(scene.memory, rva as int, lengths.len() as int)),
        0 <= plan.unresolved_delay,
        plan.unresolved_delay + unbound_in_tables(
            scene,
            rva as int,
            crate::pe::imports::plan::taken_slots(plan.groups, scene.kind.width()),
            lengths,
            0,
        ) <= usize::MAX,
    ensures
        ({
            let after = delay_scanned(plan, scene, model);
            full(after) || after.unresolved_delay == plan.unresolved_delay + unbound_in_tables(
                scene,
                rva as int,
                crate::pe::imports::plan::taken_slots(plan.groups, scene.kind.width()),
                lengths,
                0,
            )
        }),
{
    lemma_delay_counts(
        plan,
        scene,
        rva as int,
        lesser(size as int / 32, 4_096),
        crate::pe::imports::plan::taken_slots(plan.groups, scene.kind.width()),
        0,
        lengths,
        0,
    );
}

} // verus!
