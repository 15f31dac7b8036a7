//! What the groups of imports have to do with the list they were made from.

use vstd::prelude::*;

use crate::pe::exports::ExportView;
use crate::pe::imports::plan::{
    continues, extended, grouped, grouped_from, started, total_imports, with_group, EntryView,
    GroupView, PlanView,
};
use crate::text::{law_same_text_is_an_equivalence, same_text};

verus! {

/// Whether the import behind the one at `index` belongs to the same module and stands in the
/// slot behind it.
pub open spec fn goes_on(imports: Seq<(u32, ExportView)>, width: int, index: int) -> bool {
    &&& same_text(imports[index].1.module, imports[index + 1].1.module)
    &&& imports[index].0 + width == imports[index + 1].0
}

/// Whether each import from `first` up to `last` goes on from the one before.
pub open spec fn neighbours(
    imports: Seq<(u32, ExportView)>,
    width: int,
    first: int,
    last: int,
) -> bool {
    forall|i: int| first <= i < last - 1 ==> #[trigger] goes_on(imports, width, i)
}

/// Whether the imports from `first` up to `last` are neighbours, with no more of them before
/// or behind.
pub open spec fn whole_run(
    imports: Seq<(u32, ExportView)>,
    width: int,
    first: int,
    last: int,
) -> bool {
    &&& 0 <= first < last <= imports.len()
    &&& neighbours(imports, width, first, last)
    &&& first > 0 ==> !goes_on(imports, width, first - 1)
    &&& last < imports.len() ==> !goes_on(imports, width, last - 1)
}

/// Whether the group has an import at its place `at`: its slot, its module but for case, its
/// name and its ordinal.
pub open spec fn holds_import(
    group: GroupView,
    at: int,
    slot: u32,
    export: ExportView,
    width: int,
) -> bool {
    &&& 0 <= at < group.entries.len()
    &&& group.first_thunk + at * width == slot
    &&& same_text(group.module, export.module)
    &&& group.entries[at] == (EntryView { name: export.name, ordinal: export.ordinal })
}

/// Whether one of the groups has the import.
pub open spec fn lists_import(
    groups: Seq<GroupView>,
    slot: u32,
    export: ExportView,
    width: int,
) -> bool {
    exists|g: int, at: int|
        0 <= g < groups.len() && #[trigger] holds_import(groups[g], at, slot, export, width)
}

/// Whether the group has the imports from `first` up to `last`, in order, and no others.
pub open spec fn holds_run(
    group: GroupView,
    imports: Seq<(u32, ExportView)>,
    width: int,
    first: int,
    last: int,
) -> bool {
    &&& group.entries.len() == last - first
    &&& group.first_thunk == imports[first].0
    &&& group.module == imports[first].1.module
    &&& forall|i: int|
        first <= i < last ==> holds_import(
            group,
            i - first,
            (#[trigger] imports[i]).0,
            imports[i].1,
            width,
        )
}

proof fn lemma_run_slots(imports: Seq<(u32, ExportView)>, width: int, first: int, last: int)
    requires
        0 <= first < last <= imports.len(),
        neighbours(imports, width, first, last),
    ensures
        imports[last - 1].0 == imports[first].0 + (last - 1 - first) * width,
        same_text(imports[first].1.module, imports[last - 1].1.module),
    decreases last - first,
{
    let module = imports[first].1.module;
    if last - 1 > first {
        lemma_run_slots(imports, width, first, last - 1);
        assert(goes_on(imports, width, last - 2));
        law_same_text_is_an_equivalence(
            module,
            imports[last - 2].1.module,
            imports[last - 1].1.module,
        );
        assert((last - 1 - first) * width == (last - 2 - first) * width + width)
            by (nonlinear_arith);
    } else {
        law_same_text_is_an_equivalence(module, module, module);
        assert(0 * width == 0) by (nonlinear_arith);
    }
}

proof fn lemma_continues(
    group: GroupView,
    imports: Seq<(u32, ExportView)>,
    width: int,
    first: int,
    index: int,
)
    requires
        0 <= first < index < imports.len(),
        neighbours(imports, width, first, index),
        holds_run(group, imports, width, first, index),
    ensures
        continues(group, imports[index].0, imports[index].1.module, width) == goes_on(
            imports,
            width,
            index - 1,
        ),
{
    lemma_run_slots(imports, width, first, index);
    let (a, b, c) = (
        imports[first].1.module,
        imports[index - 1].1.module,
        imports[index].1.module,
    );
    law_same_text_is_an_equivalence(a, b, c);
    law_same_text_is_an_equivalence(b, a, c);
    assert((index - first) * width == (index - 1 - first) * width + width) by (nonlinear_arith);
}

proof fn lemma_started(imports: Seq<(u32, ExportView)>, width: int, index: int)
    requires
        0 <= index < imports.len(),
    ensures
        holds_run(
            started(imports[index].0, imports[index].1),
            imports,
            width,
            index,
            index + 1,
        ),
{
    let module = imports[index].1.module;
    law_same_text_is_an_equivalence(module, module, module);
    assert(0 * width == 0) by (nonlinear_arith);
}

proof fn lemma_extended(
    group: GroupView,
    imports: Seq<(u32, ExportView)>,
    width: int,
    first: int,
    index: int,
)
    requires
        0 <= first < index < imports.len(),
        holds_run(group, imports, width, first, index),
        continues(group, imports[index].0, imports[index].1.module, width),
    ensures
        holds_run(extended(group, imports[index].1), imports, width, first, index + 1),
{
    let longer = extended(group, imports[index].1);
    assert forall|i: int| first <= i < index + 1 implies holds_import(
        longer,
        i - first,
        (#[trigger] imports[i]).0,
        imports[i].1,
        width,
    ) by {
        if i < index {
            assert(holds_import(group, i - first, imports[i].0, imports[i].1, width));
        }
    }
}

/// Whether the groups from `from` on have the imports from `first` up to `last` together.
pub open spec fn has_run(
    groups: Seq<GroupView>,
    from: int,
    imports: Seq<(u32, ExportView)>,
    width: int,
    first: int,
    last: int,
) -> bool {
    exists|g: int|
        from <= g < groups.len() && holds_run(#[trigger] groups[g], imports, width, first, last)
}

/// Whether the group has a whole run of at least `minimum` imports.
pub open spec fn is_whole_run(
    group: GroupView,
    imports: Seq<(u32, ExportView)>,
    width: int,
    minimum: int,
) -> bool {
    exists|first: int, last: int|
        #[trigger] whole_run(imports, width, first, last) && last - first >= minimum && holds_run(
            group,
            imports,
            width,
            first,
            last,
        )
}

/// What grouping did to a plan, given where the runs that were still to come start.
pub open spec fn runs_kept(
    before: PlanView,
    after: PlanView,
    imports: Seq<(u32, ExportView)>,
    width: int,
    minimum: int,
    from: int,
) -> bool {
    &&& before.groups.len() <= after.groups.len()
    &&& before.recovered <= after.recovered
    &&& after.existing == before.existing
    &&& after.ambiguous == before.ambiguous
    &&& after.unresolved_delay == before.unresolved_delay
    &&& after.recovered - before.recovered == total_imports(after.groups) - total_imports(
        before.groups,
    )
    &&& forall|g: int|
        0 <= g < before.groups.len() ==> #[trigger] after.groups[g] == before.groups[g]
    &&& forall|g: int|
        before.groups.len() <= g < after.groups.len() ==> is_whole_run(
            #[trigger] after.groups[g],
            imports,
            width,
            minimum,
        )
    &&& forall|first: int, last: int|
        from <= first && #[trigger] whole_run(imports, width, first, last) && last - first
            >= minimum ==> has_run(
            after.groups,
            before.groups.len() as int,
            imports,
            width,
            first,
            last,
        ) || after.groups.len() >= 4_096 || after.recovered + (last - first) > 65_536
}

proof fn lemma_with_group(
    plan: PlanView,
    group: GroupView,
    imports: Seq<(u32, ExportView)>,
    width: int,
    minimum: int,
    first: int,
    last: int,
)
    requires
        whole_run(imports, width, first, last),
        holds_run(group, imports, width, first, last),
    ensures
        ({
            let after = with_group(plan, group, minimum);
            &&& plan.groups.len() <= after.groups.len()
            &&& plan.recovered <= after.recovered
            &&& after.existing == plan.existing
            &&& after.ambiguous == plan.ambiguous
            &&& after.unresolved_delay == plan.unresolved_delay
            &&& after.recovered - plan.recovered == total_imports(after.groups) - total_imports(
                plan.groups,
            )
            &&& forall|g: int|
                0 <= g < plan.groups.len() ==> #[trigger] after.groups[g] == plan.groups[g]
            &&& forall|g: int|
                plan.groups.len() <= g < after.groups.len() ==> is_whole_run(
                    #[trigger] after.groups[g],
                    imports,
                    width,
                    minimum,
                )
            &&& last - first >= minimum ==> (after.groups.len() > plan.groups.len()
                && after.groups[plan.groups.len() as int] == group) || after.groups.len() >= 4_096
                || after.recovered + (last - first) > 65_536
        }),
{
    let after = with_group(plan, group, minimum);
    if after != plan {
        assert(after.groups.drop_last() =~= plan.groups);
        assert(is_whole_run(group, imports, width, minimum));
    }
}

proof fn lemma_runs_meet(
    imports: Seq<(u32, ExportView)>,
    width: int,
    first: int,
    last: int,
    a: int,
    b: int,
)
    requires
        whole_run(imports, width, first, last),
        whole_run(imports, width, a, b),
        first <= a < last,
    ensures
        a == first,
        b == last,
{
    if a > first {
        assert(goes_on(imports, width, a - 1));
    }
    if b < last {
        assert(goes_on(imports, width, b - 1));
    }
    if b > last {
        assert(goes_on(imports, width, last - 1));
    }
}

proof fn lemma_grouped_from_keeps_runs(
    plan: PlanView,
    imports: Seq<(u32, ExportView)>,
    width: int,
    minimum: int,
    index: int,
    group: GroupView,
    first: int,
)
    requires
        0 <= first < index <= imports.len(),
        neighbours(imports, width, first, index),
        first > 0 ==> !goes_on(imports, width, first - 1),
        holds_run(group, imports, width, first, index),
    ensures
        runs_kept(
            plan,
            grouped_from(plan, imports, width, minimum, index, Some(group)),
            imports,
            width,
            minimum,
            first,
        ),
    decreases imports.len() - index,
{
    let result = grouped_from(plan, imports, width, minimum, index, Some(group));
    if index < imports.len() {
        lemma_continues(group, imports, width, first, index);
        let (slot, export) = imports[index];
        if goes_on(imports, width, index - 1) {
            lemma_extended(group, imports, width, first, index);
            assert(neighbours(imports, width, first, index + 1));
            lemma_grouped_from_keeps_runs(
                plan,
                imports,
                width,
                minimum,
                index + 1,
                extended(group, export),
                first,
            );
        } else {
            let next = with_group(plan, group, minimum);
            lemma_with_group(plan, group, imports, width, minimum, first, index);
            lemma_started(imports, width, index);
            lemma_grouped_from_keeps_runs(
                next,
                imports,
                width,
                minimum,
                index + 1,
                started(slot, export),
                index,
            );
            assert forall|g: int| plan.groups.len() <= g < result.groups.len() implies is_whole_run(
                #[trigger] result.groups[g],
                imports,
                width,
                minimum,
            ) by {
                if g < next.groups.len() {
                    assert(result.groups[g] == next.groups[g]);
                }
            }
            assert forall|a: int, b: int|
                first <= a && #[trigger] whole_run(imports, width, a, b) && b - a
                    >= minimum implies has_run(
                result.groups,
                plan.groups.len() as int,
                imports,
                width,
                a,
                b,
            ) || result.groups.len() >= 4_096 || result.recovered + (b - a) > 65_536 by {
                if a < index {
                    lemma_runs_meet(imports, width, first, index, a, b);
                    let at = plan.groups.len() as int;
                    if next.groups.len() > at && next.groups[at] == group {
                        assert(result.groups[at] == next.groups[at]);
                        assert(holds_run(result.groups[at], imports, width, a, b));
                    }
                } else if has_run(
                    result.groups,
                    next.groups.len() as int,
                    imports,
                    width,
                    a,
                    b,
                ) {
                    let g = choose|g: int|
                        next.groups.len() <= g < result.groups.len() && holds_run(
                            #[trigger] result.groups[g],
                            imports,
                            width,
                            a,
                            b,
                        );
                    assert(holds_run(result.groups[g], imports, width, a, b));
                }
            }
        }
    } else {
        lemma_with_group(plan, group, imports, width, minimum, first, index);
        assert forall|a: int, b: int|
            first <= a && #[trigger] whole_run(imports, width, a, b) && b - a
                >= minimum implies has_run(
            result.groups,
            plan.groups.len() as int,
            imports,
            width,
            a,
            b,
        ) || result.groups.len() >= 4_096 || result.recovered + (b - a) > 65_536 by {
            lemma_runs_meet(imports, width, first, index, a, b);
            let at = plan.groups.len() as int;
            if result.groups.len() > at && result.groups[at] == group {
                assert(holds_run(result.groups[at], imports, width, a, b));
            }
        }
    }
}

proof fn lemma_grouped_keeps_runs(
    plan: PlanView,
    imports: Seq<(u32, ExportView)>,
    width: int,
    minimum: int,
)
    ensures
        runs_kept(
            plan,
            grouped(plan, imports, width, minimum),
            imports,
            width,
            minimum,
            0,
        ),
{
    if imports.len() > 0 {
        lemma_started(imports, width, 0);
        lemma_grouped_from_keeps_runs(
            plan,
            imports,
            width,
            minimum,
            1,
            started(imports[0].0, imports[0].1),
            0,
        );
    }
}

/// No import is lost by grouping. An import that stands in a whole run of at least `minimum`
/// is in a group of the plan, at its slot, with its module, name and ordinal, unless the plan
/// has all the groups that it may have or no room for a run of that length.
pub proof fn law_grouping_loses_no_import(
    plan: PlanView,
    imports: Seq<(u32, ExportView)>,
    width: int,
    minimum: int,
    first: int,
    last: int,
    index: int,
)
    requires
        whole_run(imports, width, first, last),
        last - first >= minimum,
        first <= index < last,
    ensures
        ({
            let after = grouped(plan, imports, width, minimum);
            lists_import(after.groups, imports[index].0, imports[index].1, width)
                || after.groups.len() >= 4_096 || after.recovered + (last - first) > 65_536
        }),
{
    lemma_grouped_keeps_runs(plan, imports, width, minimum);
    let after = grouped(plan, imports, width, minimum);
    let from = plan.groups.len() as int;
    if has_run(after.groups, from, imports, width, first, last) {
        let g = choose|g: int|
            from <= g < after.groups.len() && holds_run(
                #[trigger] after.groups[g],
                imports,
                width,
                first,
                last,
            );
        assert(holds_import(
            after.groups[g],
            index - first,
            imports[index].0,
            imports[index].1,
            width,
        ));
    }
}

/// Grouping makes nothing up and takes nothing away. The groups that a plan had stay where
/// they were; each new group is a whole run of at least `minimum` imports of the list, with
/// its imports in order; the count grows by the imports of the new groups; and nothing else
/// changes.
pub proof fn law_groups_are_runs_of_the_list(
    plan: PlanView,
    imports: Seq<(u32, ExportView)>,
    width: int,
    minimum: int,
)
    ensures
        ({
            let after = grouped(plan, imports, width, minimum);
            &&& plan.groups.len() <= after.groups.len()
            &&& after.groups.take(plan.groups.len() as int) == plan.groups
            &&& forall|g: int|
                plan.groups.len() <= g < after.groups.len() ==> is_whole_run(
                    #[trigger] after.groups[g],
                    imports,
                    width,
                    minimum,
                )
            &&& after.recovered - plan.recovered == total_imports(after.groups) - total_imports(
                plan.groups,
            )
            &&& after.existing == plan.existing
            &&& after.ambiguous == plan.ambiguous
            &&& after.unresolved_delay == plan.unresolved_delay
        }),
{
    lemma_grouped_keeps_runs(plan, imports, width, minimum);
    assert(grouped(plan, imports, width, minimum).groups.take(plan.groups.len() as int)
        =~= plan.groups);
}

proof fn lemma_grouped_count(
    plan: PlanView,
    imports: Seq<(u32, ExportView)>,
    width: int,
    index: int,
    group: GroupView,
)
    requires
        0 <= index <= imports.len(),
        group.entries.len() >= 1,
        plan.recovered + group.entries.len() + (imports.len() - index) <= 65_536,
        plan.groups.len() + 1 + (imports.len() - index) <= 4_096,
    ensures
        grouped_from(plan, imports, width, 1, index, Some(group)).recovered == plan.recovered
            + group.entries.len() + (imports.len() - index),
    decreases imports.len() - index,
{
    if index < imports.len() {
        let (slot, export) = imports[index];
        if continues(group, slot, export.module, width) {
            lemma_grouped_count(plan, imports, width, index + 1, extended(group, export));
        } else {
            lemma_grouped_count(
                with_group(plan, group, 1),
                imports,
                width,
                index + 1,
                started(slot, export),
            );
        }
    }
}

/// Where single imports are enough for a group and the plan has room for all of the list,
/// the count grows by the length of the list.
pub proof fn law_every_import_is_counted(
    plan: PlanView,
    imports: Seq<(u32, ExportView)>,
    width: int,
)
    requires
        plan.recovered + imports.len() <= 65_536,
        plan.groups.len() + imports.len() <= 4_096,
    ensures
        grouped(plan, imports, width, 1).recovered == plan.recovered + imports.len(),
{
    if imports.len() > 0 {
        lemma_grouped_count(plan, imports, width, 1, started(imports[0].0, imports[0].1));
    }
}

/// Where the whole run starts that the import at `index` stands in.
proof fn lemma_run_start(imports: Seq<(u32, ExportView)>, width: int, index: int) -> (first: int)
    requires
        0 <= index < imports.len(),
    ensures
        0 <= first <= index,
        neighbours(imports, width, first, index + 1),
        first > 0 ==> !goes_on(imports, width, first - 1),
    decreases index,
{
    if index > 0 && goes_on(imports, width, index - 1) {
        lemma_run_start(imports, width, index - 1)
    } else {
        index
    }
}

/// Where the whole run ends that the imports from `first` up to `last` belong to.
proof fn lemma_run_end(
    imports: Seq<(u32, ExportView)>,
    width: int,
    first: int,
    last: int,
) -> (end: int)
    requires
        0 <= first < last <= imports.len(),
        neighbours(imports, width, first, last),
    ensures
        last <= end <= imports.len(),
        neighbours(imports, width, first, end),
        end < imports.len() ==> !goes_on(imports, width, end - 1),
    decreases imports.len() - last,
{
    if last < imports.len() && goes_on(imports, width, last - 1) {
        lemma_run_end(imports, width, first, last + 1)
    } else {
        last
    }
}

/// Where single imports are enough for a group, every import of the list is in a group of the
/// plan, unless the plan has all the groups that it may have or no room for the list.
pub proof fn law_single_imports_are_kept(
    plan: PlanView,
    imports: Seq<(u32, ExportView)>,
    width: int,
    index: int,
)
    requires
        0 <= index < imports.len(),
    ensures
        ({
            let after = grouped(plan, imports, width, 1);
            lists_import(after.groups, imports[index].0, imports[index].1, width)
                || after.groups.len() >= 4_096 || after.recovered + imports.len() > 65_536
        }),
{
    let first = lemma_run_start(imports, width, index);
    let last = lemma_run_end(imports, width, first, index + 1);
    assert(whole_run(imports, width, first, last));
    law_grouping_loses_no_import(plan, imports, width, 1, first, last, index);
}

/// An import that a plan has stays in it when more are added.
pub proof fn lemma_listed_stays(
    before: Seq<GroupView>,
    after: Seq<GroupView>,
    slot: u32,
    export: ExportView,
    width: int,
)
    requires
        before.len() <= after.len(),
        after.take(before.len() as int) == before,
        lists_import(before, slot, export, width),
    ensures
        lists_import(after, slot, export, width),
{
    let (g, at) = choose|g: int, at: int|
        0 <= g < before.len() && #[trigger] holds_import(before[g], at, slot, export, width);
    assert(after.take(before.len() as int)[g] == before[g]);
    assert(holds_import(after[g], at, slot, export, width));
}

/// Grouping never lowers the count of a plan.
pub proof fn law_grouping_keeps_counts(
    plan: PlanView,
    imports: Seq<(u32, ExportView)>,
    width: int,
    minimum: int,
)
    ensures
        plan.recovered <= grouped(plan, imports, width, minimum).recovered,
{
    lemma_grouped_keeps_runs(plan, imports, width, minimum);
}

} // verus!
