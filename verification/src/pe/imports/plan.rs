//! Recovered imports, in groups of adjacent slots of one module.

use vstd::prelude::*;

use crate::pe::exports::{optional_text, ExportView, ResolvedExport};
use crate::pe::imports::descriptors::{MAX_IMPORTS, MAX_IMPORT_GROUPS};
use crate::pe::slots::SlotSet;
use crate::text::{same_text, text_matches};

verus! {

/// An imported function.
pub struct ImportEntry {
    pub name: Option<String>,
    pub ordinal: u32,
}

/// An imported function, as contracts speak of it.
pub ghost struct EntryView {
    pub name: Option<Seq<char>>,
    pub ordinal: u32,
}

impl View for ImportEntry {
    type V = EntryView;

    open spec fn view(&self) -> EntryView {
        EntryView { name: optional_text(self.name), ordinal: self.ordinal }
    }
}

/// Imports from one module whose slots follow each other from `first_thunk` on.
pub struct ImportGroup {
    pub module: String,
    pub first_thunk: u32,
    pub entries: Vec<ImportEntry>,
}

/// A group of imports, as contracts speak of it.
pub ghost struct GroupView {
    pub module: Seq<char>,
    pub first_thunk: u32,
    pub entries: Seq<EntryView>,
}

impl View for ImportGroup {
    type V = GroupView;

    open spec fn view(&self) -> GroupView {
        GroupView {
            module: self.module@,
            first_thunk: self.first_thunk,
            entries: self.entries@.map_values(|entry: ImportEntry| entry@),
        }
    }
}

/// What was recovered of the imports of an image.
pub struct ImportPlan {
    pub groups: Vec<ImportGroup>,
    pub recovered: usize,
    pub ambiguous: usize,
    pub unresolved_delay: usize,
    pub existing: Vec<u8>,
}

/// What was recovered, as contracts speak of it.
pub ghost struct PlanView {
    pub groups: Seq<GroupView>,
    pub recovered: int,
    pub ambiguous: int,
    pub unresolved_delay: int,
    pub existing: Seq<u8>,
}

impl View for ImportPlan {
    type V = PlanView;

    open spec fn view(&self) -> PlanView {
        PlanView {
            groups: self.groups@.map_values(|group: ImportGroup| group@),
            recovered: self.recovered as int,
            ambiguous: self.ambiguous as int,
            unresolved_delay: self.unresolved_delay as int,
            existing: self.existing@,
        }
    }
}

/// Nothing recovered.
pub open spec fn empty_plan() -> PlanView {
    PlanView {
        groups: Seq::empty(),
        recovered: 0,
        ambiguous: 0,
        unresolved_delay: 0,
        existing: Seq::empty(),
    }
}

impl ImportPlan {
    pub fn new() -> (plan: ImportPlan)
        ensures
            plan@ == empty_plan(),
    {
        let plan = ImportPlan {
            groups: Vec::new(),
            recovered: 0,
            ambiguous: 0,
            unresolved_delay: 0,
            existing: Vec::new(),
        };
        assert(plan@.groups =~= Seq::empty());
        assert(plan@.existing =~= Seq::empty());
        plan
    }

    /// Whether no more imports are taken.
    pub fn is_full(&self) -> (result: bool)
        ensures
            result == full(self@),
    {
        self.recovered >= MAX_IMPORTS || self.groups.len() >= MAX_IMPORT_GROUPS
    }
}

/// Whether no more imports are taken.
pub open spec fn full(plan: PlanView) -> bool {
    plan.recovered >= 65_536 || plan.groups.len() >= 4_096
}

/// `plan` with a group, unless the group is too small or the plan would exceed its limits.
pub open spec fn with_group(plan: PlanView, group: GroupView, minimum: int) -> PlanView {
    if group.entries.len() < minimum || plan.recovered + group.entries.len() > 65_536
        || plan.groups.len() >= 4_096 {
        plan
    } else {
        PlanView {
            groups: plan.groups.push(group),
            recovered: plan.recovered + group.entries.len(),
            ..plan
        }
    }
}

/// Whether an import at `slot` goes on with the group.
pub open spec fn continues(group: GroupView, slot: u32, module: Seq<char>, width: int) -> bool {
    same_text(group.module, module) && group.first_thunk + group.entries.len() * width == slot
}

/// The group with an import behind its last one.
pub open spec fn extended(group: GroupView, export: ExportView) -> GroupView {
    GroupView {
        entries: group.entries.push(EntryView { name: export.name, ordinal: export.ordinal }),
        ..group
    }
}

/// A group of one import.
pub open spec fn started(slot: u32, export: ExportView) -> GroupView {
    GroupView {
        module: export.module,
        first_thunk: slot,
        entries: seq![EntryView { name: export.name, ordinal: export.ordinal }],
    }
}

/// `plan` with the imports from `index` on in groups, where `current` is the group that the
/// ones before ended with.
pub open spec fn grouped_from(
    plan: PlanView,
    imports: Seq<(u32, ExportView)>,
    width: int,
    minimum: int,
    index: int,
    current: Option<GroupView>,
) -> PlanView
    decreases imports.len() - index,
{
    if index >= imports.len() {
        match current {
            Some(group) => with_group(plan, group, minimum),
            None => plan,
        }
    } else {
        let (slot, export) = imports[index];
        match current {
            None => grouped_from(
                plan,
                imports,
                width,
                minimum,
                index + 1,
                Some(started(slot, export)),
            ),
            Some(group) => if continues(group, slot, export.module, width) {
                grouped_from(
                    plan,
                    imports,
                    width,
                    minimum,
                    index + 1,
                    Some(extended(group, export)),
                )
            } else {
                grouped_from(
                    with_group(plan, group, minimum),
                    imports,
                    width,
                    minimum,
                    index + 1,
                    Some(started(slot, export)),
                )
            },
        }
    }
}

/// `plan` with imports in groups: neighbours of one module stand together, and groups with
/// fewer than `minimum` imports are dropped.
pub open spec fn grouped(
    plan: PlanView,
    imports: Seq<(u32, ExportView)>,
    width: int,
    minimum: int,
) -> PlanView {
    grouped_from(plan, imports, width, minimum, 0, None)
}

/// The imports at slots, as contracts speak of them.
pub open spec fn imports_view(imports: Seq<(u32, ResolvedExport)>) -> Seq<(u32, ExportView)> {
    imports.map_values(|import: (u32, ResolvedExport)| (import.0, import.1@))
}

/// Adds a group, unless it is too small or the plan would exceed its limits.
pub fn push_group(group: ImportGroup, minimum_entries: usize, plan: &mut ImportPlan)
    ensures
        final(plan)@ == with_group(old(plan)@, group@, minimum_entries as int),
{
    let count: usize = group.entries.len();
    if count < minimum_entries || count > MAX_IMPORTS || plan.recovered > MAX_IMPORTS - count
        || plan.groups.len() >= MAX_IMPORT_GROUPS {
        return;
    }
    plan.recovered = plan.recovered + count;
    plan.groups.push(group);
    assert(plan@.groups =~= with_group(old(plan)@, group@, minimum_entries as int).groups);
}

/// The slot behind the last import of a group, if it can be addressed.
fn next_slot(group: &ImportGroup, width: usize) -> (slot: Option<u32>)
    ensures
        match slot {
            Some(found) => found == group.first_thunk + group.entries@.len() * width,
            None => group.first_thunk + group.entries@.len() * width > u32::MAX,
        },
{
    match group.entries.len().checked_mul(width) {
        Some(offset) => if offset > (0xFFFF_FFFF - group.first_thunk) as usize {
            None
        } else {
            Some(group.first_thunk + offset as u32)
        },
        None => None,
    }
}

fn entry_of(export: &ResolvedExport) -> (entry: ImportEntry)
    ensures
        entry@ == (EntryView { name: export@.name, ordinal: export@.ordinal }),
{
    ImportEntry {
        name: match &export.name {
            Some(name) => Some(name.clone()),
            None => None,
        },
        ordinal: export.ordinal,
    }
}

fn start_group(slot: u32, export: &ResolvedExport) -> (group: ImportGroup)
    ensures
        group@ == started(slot, export@),
{
    let mut entries: Vec<ImportEntry> = Vec::new();
    entries.push(entry_of(export));
    let group = ImportGroup { module: export.module.clone(), first_thunk: slot, entries };
    assert(group@.entries =~= started(slot, export@).entries);
    group
}

/// Adds imports in groups.
pub fn append_groups(
    imports: Vec<(u32, ResolvedExport)>,
    width: usize,
    minimum_entries: usize,
    plan: &mut ImportPlan,
)
    ensures
        final(plan)@ == grouped(
            old(plan)@,
            imports_view(imports@),
            width as int,
            minimum_entries as int,
        ),
{
    if imports.len() == 0 {
        return;
    }
    let ghost view = imports_view(imports@);
    let mut group = start_group(imports[0].0, &imports[0].1);
    let mut index: usize = 1;
    assert(grouped(plan@, view, width as int, minimum_entries as int) == grouped_from(
        plan@,
        view,
        width as int,
        minimum_entries as int,
        1,
        Some(group@),
    ));
    while index < imports.len()
        invariant
            1 <= index <= imports@.len(),
            view == imports_view(imports@),
            grouped(old(plan)@, view, width as int, minimum_entries as int) == grouped_from(
                plan@,
                view,
                width as int,
                minimum_entries as int,
                index as int,
                Some(group@),
            ),
        decreases imports@.len() - index,
    {
        let slot: u32 = imports[index].0;
        let export = &imports[index].1;
        assert(view[index as int] == (slot, export@));
        let adjacent = match next_slot(&group, width) {
            Some(next) => next == slot,
            None => false,
        };
        assert(adjacent == (group.first_thunk + group@.entries.len() * width == slot));
        if text_matches(group.module.as_str(), export.module.as_str()) && adjacent {
            let ghost before = group@;
            group.entries.push(entry_of(export));
            assert(group@.entries =~= extended(before, export@).entries);
        } else {
            let next = start_group(slot, export);
            push_group(group, minimum_entries, plan);
            group = next;
        }
        index = index + 1;
    }
    push_group(group, minimum_entries, plan);
}

/// `slots` with those of the first `count` imports of a group that can be addressed.
pub open spec fn with_group_slots(
    slots: Set<u64>,
    first_thunk: u32,
    width: int,
    count: int,
) -> Set<u64>
    decreases count,
{
    if count <= 0 {
        slots
    } else {
        let before = with_group_slots(slots, first_thunk, width, count - 1);
        let slot = first_thunk + (count - 1) * width;
        if slot <= u32::MAX {
            before.insert(slot as u64)
        } else {
            before
        }
    }
}

/// The slots that the imports of groups take.
pub open spec fn taken_slots(groups: Seq<GroupView>, width: int) -> Set<u64>
    decreases groups.len(),
{
    if groups.len() == 0 {
        Set::empty()
    } else {
        with_group_slots(
            taken_slots(groups.drop_last(), width),
            groups.last().first_thunk,
            width,
            groups.last().entries.len() as int,
        )
    }
}

/// Collects the slots that the imports of a plan take.
pub fn collect_recovered_slots(plan: &ImportPlan, width: usize) -> (slots: SlotSet)
    ensures
        slots@ == taken_slots(plan@.groups, width as int),
{
    let mut slots = SlotSet::new();
    let mut next: usize = 0;
    assert(plan@.groups.take(0) =~= Seq::empty());
    while next < plan.groups.len()
        invariant
            next <= plan.groups@.len(),
            slots@ == taken_slots(plan@.groups.take(next as int), width as int),
        decreases plan.groups@.len() - next,
    {
        let ghost before = slots@;
        let group = &plan.groups[next];
        let count: usize = group.entries.len();
        let mut index: usize = 0;
        while index < count
            invariant
                index <= count,
                slots@ == with_group_slots(
                    before,
                    group.first_thunk,
                    width as int,
                    index as int,
                ),
            decreases count - index,
        {
            if let Some(offset) = index.checked_mul(width) {
                if offset <= (0xFFFF_FFFF - group.first_thunk) as usize {
                    slots.insert(group.first_thunk + offset as u32);
                }
            }
            index = index + 1;
        }
        proof {
            assert(plan@.groups.take(next + 1).drop_last() =~= plan@.groups.take(next as int));
            assert(plan@.groups.take(next + 1).last() == group@);
        }
        next = next + 1;
    }
    assert(plan@.groups.take(next as int) =~= plan@.groups);
    slots
}

/// How many imports groups have.
pub open spec fn total_imports(groups: Seq<GroupView>) -> int
    decreases groups.len(),
{
    if groups.len() == 0 {
        0
    } else {
        total_imports(groups.drop_last()) + groups.last().entries.len()
    }
}

/// Whether a plan keeps its limits, counts its imports right, and has no empty group.
pub open spec fn within_limits(plan: PlanView) -> bool {
    &&& plan.groups.len() <= 4_096
    &&& plan.recovered <= 65_536
    &&& plan.recovered == total_imports(plan.groups)
    &&& forall|i: int| 0 <= i < plan.groups.len() ==> (#[trigger] plan.groups[i]).entries.len() > 0
}

/// Adding imports in groups keeps the limits of a plan, and what it says of other things.
pub proof fn lemma_grouped_within_limits(
    plan: PlanView,
    imports: Seq<(u32, ExportView)>,
    width: int,
    minimum: int,
)
    requires
        within_limits(plan),
        minimum >= 1,
    ensures
        within_limits(grouped(plan, imports, width, minimum)),
        grouped(plan, imports, width, minimum).existing == plan.existing,
{
    lemma_grouped_from(plan, imports, width, minimum, 0, None);
}

proof fn lemma_grouped_from(
    plan: PlanView,
    imports: Seq<(u32, ExportView)>,
    width: int,
    minimum: int,
    index: int,
    current: Option<GroupView>,
)
    requires
        within_limits(plan),
        minimum >= 1,
    ensures
        within_limits(grouped_from(plan, imports, width, minimum, index, current)),
        grouped_from(plan, imports, width, minimum, index, current).existing == plan.existing,
    decreases imports.len() - index,
{
    if let Some(group) = current {
        let next = with_group(plan, group, minimum);
        if next != plan {
            assert(next.groups.drop_last() =~= plan.groups);
        }
        assert(within_limits(next));
    }
    if index < imports.len() {
        let (slot, export) = imports[index];
        match current {
            None => {
                lemma_grouped_from(
                    plan,
                    imports,
                    width,
                    minimum,
                    index + 1,
                    Some(started(slot, export)),
                );
            },
            Some(group) => {
                lemma_grouped_from(
                    plan,
                    imports,
                    width,
                    minimum,
                    index + 1,
                    Some(extended(group, export)),
                );
                lemma_grouped_from(
                    with_group(plan, group, minimum),
                    imports,
                    width,
                    minimum,
                    index + 1,
                    Some(started(slot, export)),
                );
            },
        }
    }
}

} // verus!
