//! Imports that code refers to.

use vstd::prelude::*;

use crate::pe::exports::{ExportIndex, ExportView, ResolvedExport};
use crate::pe::image::{fits, u32_at};
use crate::pe::imports::descriptors::{entry_offset, IMPORT_DESCRIPTOR_SIZE, MAX_IMPORTS};
use crate::pe::imports::plan::{
    append_groups, collect_recovered_slots, full, grouped, imports_view, taken_slots, ImportPlan,
    PlanView,
};
use crate::pe::imports::ranges::{scene_of, Scene};
use crate::pe::imports::thunks::{pointer_at, read_pointer, read_u32, resolve_value, signed};
use crate::pe::rebuild::{clipped, greater, lesser, lesser_of};
use crate::order::in_order;
use crate::pe::slots::SlotSet;
use crate::pe::{ModelView, PeImage, PeKind, SectionModel};
use crate::text::{same_text, text_matches};

verus! {

pub const MAX_CODE_REFERENCE_BYTES: usize = 0x1000_0000;

pub const CALL_JUMP_LENGTH: usize = 6;

pub const MOV_LOAD_LENGTH: usize = 7;

pub const MODRM_RIP_MASK: u8 = 0xC7;

pub const MODRM_RIP_VALUE: u8 = 0x05;

/// The slot that an instruction of `length` bytes at `instruction` addresses relative to
/// the next one. Neither the address of the next instruction nor that of the slot may
/// leave the address space, and the slot has to lie in the image.
pub open spec fn relative_slot(
    base: u64,
    instruction: int,
    length: int,
    displacement: int,
) -> Option<u32> {
    let slot = instruction + length + displacement;
    if base + instruction + length > u64::MAX || base + slot > u64::MAX || slot < 0 || slot
        > u32::MAX {
        None
    } else {
        Some(slot as u32)
    }
}

/// Whether the instruction calls or jumps through a slot.
pub open spec fn calls_or_jumps(memory: Seq<u8>, instruction: int) -> bool {
    fits(memory, instruction, 6) && memory[instruction] == 0xFF && (memory[instruction + 1] == 0x15
        || memory[instruction + 1] == 0x25)
}

/// Whether the instruction loads a 64-bit register from a slot that is addressed relative
/// to the next instruction.
pub open spec fn loads(memory: Seq<u8>, instruction: int) -> bool {
    fits(memory, instruction, 7) && (memory[instruction] == 0x48 || memory[instruction] == 0x4C)
        && memory[instruction + 1] == 0x8B && memory[instruction + 2] & MODRM_RIP_MASK
        == MODRM_RIP_VALUE
}

/// The slot that the instruction at `instruction` refers to.
pub open spec fn referenced_slot(
    memory: Seq<u8>,
    base: u64,
    kind: PeKind,
    instruction: int,
) -> Option<u32> {
    let operand = u32_at(memory, instruction + 2);
    if instruction + 6 > usize::MAX {
        None
    } else if calls_or_jumps(memory, instruction) {
        match kind {
            PeKind::Pe32 => if operand < base {
                None
            } else {
                Some((operand - base) as u32)
            },
            PeKind::Pe32Plus => relative_slot(base, instruction, 6, signed(operand)),
        }
    } else if kind == PeKind::Pe32Plus && loads(memory, instruction) {
        relative_slot(base, instruction, 7, signed(u32_at(memory, instruction + 3)))
    } else {
        None
    }
}

/// The slot that an instruction addresses relative to the next one.
pub fn rip_relative_slot(
    observed_base: u64,
    instruction: usize,
    length: usize,
    displacement: i32,
) -> (result: Option<u32>)
    ensures
        result == relative_slot(
            observed_base,
            instruction as int,
            length as int,
            displacement as int,
        ),
{
    let start: u64 = match observed_base.checked_add(instruction as u64) {
        Some(start) => start,
        None => {
            return None;
        },
    };
    let next: u64 = match start.checked_add(length as u64) {
        Some(next) => next,
        None => {
            return None;
        },
    };
    let address: u64 = if displacement >= 0 {
        match next.checked_add(displacement as u64) {
            Some(address) => address,
            None => {
                return None;
            },
        }
    } else {
        let back: u64 = (-(displacement as i64)) as u64;
        if back > next {
            return None;
        }
        next - back
    };
    if address < observed_base || address - observed_base > 0xFFFF_FFFF {
        return None;
    }
    Some((address - observed_base) as u32)
}

fn to_signed(value: u32) -> (result: i32)
    ensures
        result == signed(value),
{
    if value < 0x8000_0000 {
        value as i32
    } else {
        (value as i64 - 0x1_0000_0000) as i32
    }
}

/// Whether the instruction calls or jumps through a slot.
pub fn is_call_or_jump(memory: &[u8], instruction: usize) -> (result: bool)
    ensures
        result == calls_or_jumps(memory@, instruction as int),
{
    memory.len() >= CALL_JUMP_LENGTH && instruction <= memory.len() - CALL_JUMP_LENGTH
        && memory[instruction] == 0xFF && (memory[instruction + 1] == 0x15 || memory[instruction
        + 1] == 0x25)
}

/// Finds the slot that an instruction refers to.
pub fn decode_slot_reference(
    memory: &[u8],
    observed_base: u64,
    kind: PeKind,
    instruction: usize,
) -> (result: Option<u32>)
    ensures
        result == referenced_slot(memory@, observed_base, kind, instruction as int),
{
    let total: usize = memory.len();
    if is_call_or_jump(memory, instruction) {
        let operand: u32 = match read_u32(memory, instruction + 2) {
            Some(operand) => operand,
            None => {
                return None;
            },
        };
        return match kind {
            PeKind::Pe32 => if (operand as u64) < observed_base {
                None
            } else {
                Some((operand as u64 - observed_base) as u32)
            },
            PeKind::Pe32Plus => rip_relative_slot(
                observed_base,
                instruction,
                CALL_JUMP_LENGTH,
                to_signed(operand),
            ),
        };
    }
    match kind {
        PeKind::Pe32 => {
            return None;
        },
        PeKind::Pe32Plus => {},
    }
    if total < MOV_LOAD_LENGTH || instruction > total - MOV_LOAD_LENGTH {
        return None;
    }
    if !(memory[instruction] == 0x48 || memory[instruction] == 0x4C) || memory[instruction + 1]
        != 0x8B || memory[instruction + 2] & MODRM_RIP_MASK != MODRM_RIP_VALUE {
        return None;
    }
    match read_u32(memory, instruction + 3) {
        Some(displacement) => rip_relative_slot(
            observed_base,
            instruction,
            MOV_LOAD_LENGTH,
            to_signed(displacement),
        ),
        None => None,
    }
}

/// The code of a captured image, as contracts speak of it.
pub ghost struct Code {
    pub memory: Seq<u8>,
    pub base: u64,
    pub kind: PeKind,
}

/// The slots that code refers to, as contracts speak of them: all of them, and those that
/// it calls or jumps through.
pub ghost struct ReferencesView {
    pub slots: Set<u64>,
    pub direct: Set<u64>,
}

/// The slots that code refers to: all of them, and those that it calls or jumps through.
pub struct References {
    pub slots: SlotSet,
    pub direct: SlotSet,
}

impl View for References {
    type V = ReferencesView;

    open spec fn view(&self) -> ReferencesView {
        ReferencesView { slots: self.slots@, direct: self.direct@ }
    }
}

/// `seen` with the slot that the instruction refers to, if it refers to one.
pub open spec fn with_reference(seen: ReferencesView, code: Code, instruction: int) ->
    ReferencesView {
    match referenced_slot(code.memory, code.base, code.kind, instruction) {
        None => seen,
        Some(slot) => ReferencesView {
            slots: seen.slots.insert(slot as u64),
            direct: if calls_or_jumps(code.memory, instruction) {
                seen.direct.insert(slot as u64)
            } else {
                seen.direct
            },
        },
    }
}

/// `seen` with the slots that the code from `instruction` up to `end` refers to, until
/// there are enough.
pub open spec fn references_from(
    seen: ReferencesView,
    code: Code,
    instruction: int,
    end: int,
) -> ReferencesView
    decreases end - instruction,
{
    if instruction >= end || seen.slots.len() >= 65_536 {
        seen
    } else {
        references_from(
            with_reference(seen, code, instruction),
            code,
            instruction + 1,
            end,
        )
    }
}

/// How many bytes of a section are searched for references, after `scanned` in others.
pub open spec fn searched_length(section: SectionModel, memory: Seq<u8>, scanned: int) -> int {
    let end = lesser(section.start() + section.declared(), memory.len() as int);
    if section.start() > end {
        0
    } else {
        lesser(end - section.start(), 0x1000_0000 - scanned)
    }
}

/// `seen` with the slots that the executable sections from `index` on refer to.
pub open spec fn references_in(
    seen: ReferencesView,
    code: Code,
    sections: Seq<SectionModel>,
    index: int,
    scanned: int,
) -> ReferencesView
    decreases sections.len() - index,
{
    if index >= sections.len() || seen.slots.len() >= 65_536 {
        seen
    } else if !sections[index].executable() || scanned >= 0x1000_0000 {
        references_in(seen, code, sections, index + 1, scanned)
    } else {
        let length = searched_length(sections[index], code.memory, scanned);
        let start = sections[index].start();
        references_in(
            references_from(seen, code, start, start + length - 5),
            code,
            sections,
            index + 1,
            scanned + length,
        )
    }
}

/// The slots that the code of an image refers to.
pub open spec fn references_of(code: Code, model: ModelView) -> ReferencesView {
    references_in(
        ReferencesView { slots: Set::empty(), direct: Set::empty() },
        code,
        model.sections,
        0,
        0,
    )
}

/// Finds the slots that code refers to.
pub fn find_referenced_slots(image: &PeImage<'_>, observed_base: u64) -> (references: References)
    ensures
        references@ == references_of(
            Code {
                memory: image.bytes@,
                base: observed_base,
                kind: image.model@.headers.kind,
            },
            image.model@,
        ),
{
    let ghost code = Code {
        memory: image.bytes@,
        base: observed_base,
        kind: image.model@.headers.kind,
    };
    let ghost whole = references_of(code, image.model@);
    let memory = image.bytes;
    let kind = image.model.headers.kind;
    let mut found = References { slots: SlotSet::new(), direct: SlotSet::new() };
    let mut scanned: usize = 0;
    let mut index: usize = 0;
    while index < image.model.sections.len() && found.slots.len() < MAX_IMPORTS
        invariant
            index <= image.model.sections@.len(),
            scanned <= MAX_CODE_REFERENCE_BYTES,
            memory@ == code.memory,
            kind == code.kind,
            observed_base == code.base,
            whole == references_in(
                found@,
                code,
                image.model@.sections,
                index as int,
                scanned as int,
            ),
        decreases image.model.sections@.len() - index,
    {
        let section = image.model.sections[index];
        if section.is_executable() && scanned < MAX_CODE_REFERENCE_BYTES {
            let start: usize = section.virtual_address.as_usize();
            let end: usize = lesser_of(
                start.saturating_add(section.span() as usize),
                memory.len(),
            );
            let length: usize = if start > end {
                0
            } else {
                lesser_of(end - start, MAX_CODE_REFERENCE_BYTES - scanned)
            };
            if length > 5 {
                let stop: usize = start + (length - 5);
                let mut instruction: usize = start;
                let ghost before = found@;
                while instruction < stop && found.slots.len() < MAX_IMPORTS
                    invariant
                        memory@ == code.memory,
                        kind == code.kind,
                        observed_base == code.base,
                        references_from(before, code, start as int, stop as int)
                            == references_from(
                            found@,
                            code,
                            instruction as int,
                            stop as int,
                        ),
                    decreases stop - instruction,
                {
                    if let Some(slot) = decode_slot_reference(
                        memory,
                        observed_base,
                        kind,
                        instruction,
                    ) {
                        found.slots.insert(slot);
                        if is_call_or_jump(memory, instruction) {
                            found.direct.insert(slot);
                        }
                    }
                    instruction = instruction + 1;
                }
            }
            scanned = scanned + length;
        }
        index = index + 1;
    }
    found
}

/// Whether the slot is aligned, in memory and in a section that holds data only.
pub open spec fn in_data_section(
    memory: Seq<u8>,
    sections: Seq<SectionModel>,
    slot: u32,
    width: int,
) -> bool {
    &&& slot as int % width == 0
    &&& slot + width <= u32::MAX
    &&& slot + width <= memory.len()
    &&& exists|i: int|
        0 <= i < sections.len() && (#[trigger] sections[i]).holds_data() && sections[i].start()
            <= slot && slot + width <= sections[i].start() + sections[i].declared()
}

/// Whether the slot is aligned, in memory and in a section that holds data only.
pub fn slot_is_in_data_section(image: &PeImage<'_>, slot: u32, kind: PeKind) -> (result: bool)
    ensures
        result == in_data_section(image.bytes@, image.model@.sections, slot, kind.width()),
{
    let width: usize = kind.pointer_width();
    if slot as usize % width != 0 {
        return false;
    }
    let end: u32 = match slot.checked_add(width as u32) {
        Some(end) => end,
        None => {
            return false;
        },
    };
    if end as usize > image.bytes.len() {
        return false;
    }
    let mut index: usize = 0;
    while index < image.model.sections.len()
        invariant
            index <= image.model.sections@.len(),
            width == kind.width(),
            end == slot + width,
            slot as int % width as int == 0,
            end <= image.bytes@.len(),
            forall|i: int|
                0 <= i < index ==> !((#[trigger] image.model@.sections[i]).holds_data()
                    && image.model@.sections[i].start() <= slot && slot + width
                    <= image.model@.sections[i].start() + image.model@.sections[i].declared()),
        decreases image.model.sections@.len() - index,
    {
        let section = image.model.sections[index];
        assert(section == image.model@.sections[index as int]);
        let start: u32 = section.virtual_address.0;
        if section.is_data() && slot >= start && end - start <= section.span() {
            return true;
        }
        index = index + 1;
    }
    false
}

/// `slots` with those of the address table at `first` from `index` on, up to a null
/// pointer.
pub open spec fn with_table_slots(
    slots: Set<u64>,
    memory: Seq<u8>,
    first: u32,
    width: int,
    index: int,
) -> Set<u64>
    decreases 65_536 - index,
{
    let slot = first + index * width;
    if index >= 65_536 || slot > u32::MAX {
        slots
    } else {
        match pointer_at(memory, slot, width) {
            None => slots,
            Some(value) => if value == 0 {
                slots
            } else {
                with_table_slots(slots.insert(slot as u64), memory, first, width, index + 1)
            },
        }
    }
}

/// `slots` with those of the address tables of the first `count` descriptors.
pub open spec fn descriptor_slots(
    slots: Set<u64>,
    memory: Seq<u8>,
    descriptors: Seq<u8>,
    width: int,
    count: int,
) -> Set<u64>
    decreases count,
{
    if count <= 0 {
        slots
    } else {
        with_table_slots(
            descriptor_slots(slots, memory, descriptors, width, count - 1),
            memory,
            u32_at(descriptors, 20 * (count - 1) + 16),
            width,
            0,
        )
    }
}

/// Adds the slots of an address table.
fn add_table_slots(slots: &mut SlotSet, memory: &[u8], first: u32, width: usize)
    ensures
        final(slots)@ == with_table_slots(old(slots)@, memory@, first, width as int, 0),
{
    let mut index: usize = 0;
    while index < MAX_IMPORTS
        invariant
            index <= MAX_IMPORTS,
            with_table_slots(old(slots)@, memory@, first, width as int, 0) == with_table_slots(
                slots@,
                memory@,
                first,
                width as int,
                index as int,
            ),
        decreases MAX_IMPORTS - index,
    {
        let offset: usize = entry_offset(first as usize, index, width);
        if offset > 0xFFFF_FFFF {
            return;
        }
        let total: usize = memory.len();
        match read_pointer(memory, offset, width) {
            Some(value) => {
                if value == 0 {
                    return;
                }
            },
            None => {
                return;
            },
        }
        slots.insert(offset as u32);
        index = index + 1;
    }
}

/// Adds the slots of the address tables of descriptors.
pub fn existing_thunk_slots(
    memory: &[u8],
    descriptors: &[u8],
    width: usize,
    slots: &mut SlotSet,
)
    ensures
        final(slots)@ == descriptor_slots(
            old(slots)@,
            memory@,
            descriptors@,
            width as int,
            descriptors@.len() as int / 20,
        ),
{
    let count: usize = descriptors.len() / IMPORT_DESCRIPTOR_SIZE;
    let mut index: usize = 0;
    while index < count
        invariant
            index <= count,
            20 * count <= descriptors@.len(),
            slots@ == descriptor_slots(
                old(slots)@,
                memory@,
                descriptors@,
                width as int,
                index as int,
            ),
        decreases count - index,
    {
        let total: usize = descriptors.len();
        if let Some(first) = read_u32(descriptors, index * IMPORT_DESCRIPTOR_SIZE + 16) {
            add_table_slots(slots, memory, first, width);
        }
        index = index + 1;
    }
}

/// Whether the pointer at `offset` leads to an export of the module, and to no other.
pub open spec fn leads_into(scene: Scene, offset: int, module: Seq<char>) -> bool {
    match scene.pointer(offset) {
        None => false,
        Some(value) => match scene.export(value) {
            Some((export, ambiguous)) => !ambiguous && same_text(export.module, module),
            None => false,
        },
    }
}

/// Whether a pointer beside the slot leads into the module.
pub open spec fn has_neighbour(scene: Scene, slot: u32, module: Seq<char>) -> bool {
    leads_into(scene, slot - scene.kind.width(), module) || leads_into(
        scene,
        slot + scene.kind.width(),
        module,
    )
}

/// The imports that were gathered from slots, and how many slots were ambiguous.
pub ghost struct Gathered {
    pub imports: Seq<(u32, ExportView)>,
    pub ambiguous: int,
}

/// `gathered` with the slot, if it holds an import: it is not taken, it stands in data, its
/// pointer leads to one export, and code goes through it or a pointer beside it leads into
/// the same module.
pub open spec fn with_slot(
    gathered: Gathered,
    scene: Scene,
    sections: Seq<SectionModel>,
    taken: Set<u64>,
    direct: Set<u64>,
    remaining: int,
    slot: u32,
) -> Gathered {
    if taken.contains(slot as u64) || !in_data_section(
        scene.memory,
        sections,
        slot,
        scene.kind.width(),
    ) || gathered.imports.len() >= remaining {
        gathered
    } else {
        match scene.pointer(slot as int) {
            None => gathered,
            Some(value) => match scene.export(value) {
                None => gathered,
                Some((export, ambiguous)) => if ambiguous {
                    Gathered { ambiguous: clipped(gathered.ambiguous + 1), ..gathered }
                } else if direct.contains(slot as u64) || has_neighbour(scene, slot, export.module) {
                    Gathered { imports: gathered.imports.push((slot, export)), ..gathered }
                } else {
                    gathered
                },
            },
        }
    }
}

/// What is gathered from the first `count` slots.
pub open spec fn gathered_from(
    initial: Gathered,
    scene: Scene,
    sections: Seq<SectionModel>,
    taken: Set<u64>,
    direct: Set<u64>,
    remaining: int,
    slots: Seq<u64>,
    count: int,
) -> Gathered
    decreases count,
{
    if count <= 0 {
        initial
    } else {
        with_slot(
            gathered_from(
                initial,
                scene,
                sections,
                taken,
                direct,
                remaining,
                slots,
                count - 1,
            ),
            scene,
            sections,
            taken,
            direct,
            remaining,
            slots[count - 1] as u32,
        )
    }
}

/// The code of a scene.
pub open spec fn code_of(scene: Scene) -> Code {
    Code { memory: scene.memory, base: scene.base, kind: scene.kind }
}

/// The slots that need no recovering: those of the plan and of the descriptors it keeps.
pub open spec fn settled_slots(plan: PlanView, scene: Scene) -> Set<u64> {
    descriptor_slots(
        taken_slots(plan.groups, scene.kind.width()),
        scene.memory,
        plan.existing,
        scene.kind.width(),
        plan.existing.len() as int / 20,
    )
}

/// `plan` with the imports that code refers to.
pub open spec fn references_recovered(plan: PlanView, scene: Scene, model: ModelView) -> PlanView {
    if full(plan) {
        plan
    } else {
        let references = references_of(code_of(scene), model);
        let slots = in_order(references.slots);
        let gathered = gathered_from(
            Gathered { imports: Seq::empty(), ambiguous: plan.ambiguous },
            scene,
            model.sections,
            settled_slots(plan, scene),
            references.direct,
            65_536 - plan.recovered,
            slots,
            slots.len() as int,
        );
        grouped(
            PlanView { ambiguous: gathered.ambiguous, ..plan },
            gathered.imports,
            scene.kind.width(),
            1,
        )
    }
}

/// Whether the pointer at `offset` leads to an export of the module, and to no other.
fn pointer_leads_into(
    memory: &[u8],
    observed_base: u64,
    kind: PeKind,
    exports: &ExportIndex,
    offset: usize,
    module: &str,
) -> (result: bool)
    ensures
        result == leads_into(
            Scene { memory: memory@, base: observed_base, kind, exports: exports@ },
            offset as int,
            module@,
        ),
{
    let value: u64 = match read_pointer(memory, offset, kind.pointer_width()) {
        Some(value) => value,
        None => {
            return false;
        },
    };
    match resolve_value(memory, observed_base, kind, value, exports) {
        Some((export, ambiguous)) => !ambiguous && text_matches(export.module.as_str(), module),
        None => false,
    }
}

/// Whether a pointer beside the slot leads into the module.
fn neighbour_agrees(
    memory: &[u8],
    observed_base: u64,
    kind: PeKind,
    exports: &ExportIndex,
    slot: u32,
    module: &str,
) -> (result: bool)
    ensures
        result == has_neighbour(
            Scene { memory: memory@, base: observed_base, kind, exports: exports@ },
            slot,
            module@,
        ),
{
    let total: usize = memory.len();
    let width: usize = kind.pointer_width();
    let at: usize = slot as usize;
    (at >= width && pointer_leads_into(memory, observed_base, kind, exports, at - width, module))
        || pointer_leads_into(
        memory,
        observed_base,
        kind,
        exports,
        at.saturating_add(width),
        module,
    )
}

/// Recovers the imports that code refers to.
pub fn recover_referenced_imports(
    image: &PeImage<'_>,
    observed_base: u64,
    exports: &ExportIndex,
    plan: &mut ImportPlan,
)
    ensures
        final(plan)@ == references_recovered(
            old(plan)@,
            scene_of(*image, observed_base, exports@),
            image.model@,
        ),
{
    let ghost scene = scene_of(*image, observed_base, exports@);
    if plan.is_full() {
        return;
    }
    let memory = image.bytes;
    let kind = image.model.headers.kind;
    let width: usize = kind.pointer_width();
    let mut taken = collect_recovered_slots(plan, width);
    existing_thunk_slots(memory, plan.existing.as_slice(), width, &mut taken);
    let references = find_referenced_slots(image, observed_base);
    let slots = references.slots.ascending();
    let remaining: usize = MAX_IMPORTS - plan.recovered;
    let mut imports: Vec<(u32, ResolvedExport)> = Vec::new();
    let mut ambiguous_total: usize = plan.ambiguous;
    let ghost initial = Gathered { imports: Seq::empty(), ambiguous: plan@.ambiguous };
    let mut index: usize = 0;
    assert(imports_view(imports@) =~= Seq::empty());
    while index < slots.len()
        invariant
            index <= slots@.len(),
            width == kind.width(),
            memory@ == image.bytes@,
            scene == (Scene { memory: memory@, base: observed_base, kind, exports: exports@ }),
            (Gathered { imports: imports_view(imports@), ambiguous: ambiguous_total as int })
                == gathered_from(
                initial,
                scene,
                image.model@.sections,
                taken@,
                references@.direct,
                remaining as int,
                slots@,
                index as int,
            ),
        decreases slots@.len() - index,
    {
        let slot: u32 = slots[index] as u32;
        let total: usize = memory.len();
        if !taken.contains(slot) && slot_is_in_data_section(image, slot, kind) && imports.len()
            < remaining {
            if let Some(value) = read_pointer(memory, slot as usize, width) {
                if let Some((export, ambiguous)) = resolve_value(
                    memory,
                    observed_base,
                    kind,
                    value,
                    exports,
                ) {
                    if ambiguous {
                        ambiguous_total = ambiguous_total.saturating_add(1);
                    } else if references.direct.contains(slot) || neighbour_agrees(
                        memory,
                        observed_base,
                        kind,
                        exports,
                        slot,
                        export.module.as_str(),
                    ) {
                        let ghost before = imports_view(imports@);
                        let ghost symbol = export@;
                        imports.push((slot, export));
                        assert(imports_view(imports@) =~= before.push((slot, symbol)));
                    }
                }
            }
        }
        index = index + 1;
    }
    let ghost before = plan@;
    plan.ambiguous = ambiguous_total;
    assert(plan@.groups =~= before.groups);
    append_groups(imports, width, 1, plan);
}

/// Whether a slot holds an import that code vouches for.
pub open spec fn attested(
    scene: Scene,
    sections: Seq<SectionModel>,
    taken: Set<u64>,
    direct: Set<u64>,
    import: (u32, ExportView),
) -> bool {
    let (slot, export) = import;
    &&& !taken.contains(slot as u64)
    &&& in_data_section(scene.memory, sections, slot, scene.kind.width())
    &&& scene.pointer(slot as int) matches Some(value) && scene.export(value) == Some(
        (export, false),
    )
    &&& direct.contains(slot as u64) || has_neighbour(scene, slot, export.module)
}

/// Every import that is gathered from references stands in data that is not taken, leads to
/// one export, and is called or jumped through or has a neighbour in the same module: a
/// pointer that code only loads is no import on its own.
pub proof fn law_gathered_imports_are_attested(
    initial: Gathered,
    scene: Scene,
    sections: Seq<SectionModel>,
    taken: Set<u64>,
    direct: Set<u64>,
    remaining: int,
    slots: Seq<u64>,
    count: int,
)
    requires
        initial.imports.len() == 0,
    ensures
        ({
            let found = gathered_from(
                initial,
                scene,
                sections,
                taken,
                direct,
                remaining,
                slots,
                count,
            ).imports;
            &&& found.len() <= greater(0, remaining)
            &&& forall|i: int|
                0 <= i < found.len() ==> attested(
                    scene,
                    sections,
                    taken,
                    direct,
                    #[trigger] found[i],
                )
        }),
    decreases count,
{
    if count > 0 {
        law_gathered_imports_are_attested(
            initial,
            scene,
            sections,
            taken,
            direct,
            remaining,
            slots,
            count - 1,
        );
    }
}

} // verus!
