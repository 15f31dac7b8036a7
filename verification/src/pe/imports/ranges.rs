//! Imports in ranges of pointers: trusted address tables and delay-load tables.

use vstd::prelude::*;

use crate::pe::exports::{ExportIndex, ExportView, ResolvedExport};
use crate::pe::image::{all_zero, fits, is_zero, u32_at};
use crate::pe::imports::descriptors::{entry_offset, MAX_IMPORTS, MAX_IMPORT_GROUPS};
use crate::pe::imports::plan::{
    append_groups, collect_recovered_slots, full, grouped, imports_view, taken_slots, ImportPlan,
    PlanView,
};
use crate::pe::imports::thunks::{
    name_at, pointer_at, read_ascii, read_pointer, read_u32, resolve_value, resolved,
};
use crate::pe::rebuild::{clipped, greater, lesser, lesser_of};
use crate::pe::{directory_of, ModelView, PeImage, PeKind, SectionModel, IAT_DIRECTORY};
use crate::text::{bytes_match, same_letters};

verus! {

pub const DELAY_IMPORT_DIRECTORY: usize = 13;

pub const DELAY_DESCRIPTOR_SIZE: usize = 32;

pub const DELAY_ATTRIBUTES_RVA_BASED: u32 = 0x1;

pub const DELAY_NAME_OFFSET: usize = 4;

pub const DELAY_IAT_OFFSET: usize = 12;

pub const DELAY_INT_OFFSET: usize = 16;

pub const ATTESTED_MINIMUM_ENTRIES: usize = 1;

pub const SCANNED_MINIMUM_ENTRIES: usize = 2;

/// A captured image whose pointers are resolved, as contracts speak of it.
pub ghost struct Scene {
    pub memory: Seq<u8>,
    pub base: u64,
    pub kind: PeKind,
    pub exports: Map<u64, (ExportView, bool)>,
}

impl Scene {
    /// The pointer at `offset`.
    pub open spec fn pointer(self, offset: int) -> Option<u64> {
        pointer_at(self.memory, offset, self.kind.width())
    }

    /// The export that a pointer leads to.
    pub open spec fn export(self, value: u64) -> Option<(ExportView, bool)> {
        resolved(self.memory, self.base, self.kind, value, self.exports)
    }
}

/// A run of pointers to exports: the imports, where it ended, and whether an ambiguous
/// pointer ended it.
pub ghost struct RunView {
    pub imports: Seq<(u32, ExportView)>,
    pub offset: int,
    pub ambiguous: bool,
}

/// The run that goes on at `offset` behind `imports`.
pub open spec fn run_from(
    scene: Scene,
    offset: int,
    end: int,
    imports: Seq<(u32, ExportView)>,
) -> RunView
    decreases end - offset,
{
    let stop = RunView { imports, offset, ambiguous: false };
    if offset + scene.kind.width() > end || imports.len() >= 65_536 {
        stop
    } else {
        match scene.pointer(offset) {
            None => stop,
            Some(value) => match scene.export(value) {
                None => stop,
                Some((export, ambiguous)) => if ambiguous {
                    RunView { imports, offset, ambiguous: true }
                } else if offset > u32::MAX {
                    stop
                } else {
                    run_from(
                        scene,
                        offset + scene.kind.width(),
                        end,
                        imports.push((offset as u32, export)),
                    )
                },
            },
        }
    }
}

/// Whether a run that starts at `offset` starts a table: at the start of the range, or
/// behind a null pointer.
pub open spec fn starts_cleanly(scene: Scene, first: int, offset: int) -> bool {
    offset == first || scene.pointer(offset - scene.kind.width()) == Some(0u64)
}

/// Whether a run that ends at `offset` ends a table: at the end of the range, or before a
/// null pointer.
pub open spec fn ends_cleanly(scene: Scene, offset: int, end: int) -> bool {
    offset == end || scene.pointer(offset) == Some(0u64)
}

/// `plan` with the imports of one run.
pub open spec fn with_run(
    plan: PlanView,
    scene: Scene,
    first: int,
    offset: int,
    end: int,
    minimum: int,
) -> PlanView {
    let run = run_from(scene, offset, end, Seq::empty());
    let counted = PlanView {
        ambiguous: clipped(
            plan.ambiguous + if run.ambiguous {
                1int
            } else {
                0
            },
        ),
        ..plan
    };
    if run.imports.len() >= minimum && starts_cleanly(scene, first, offset) && ends_cleanly(
        scene,
        run.offset,
        end,
    ) {
        grouped(counted, run.imports, scene.kind.width(), minimum)
    } else {
        counted
    }
}

/// `plan` with the imports of the runs from `offset` up to `end`, in a range whose first
/// pointer stands at `first`.
pub open spec fn runs_from(
    plan: PlanView,
    scene: Scene,
    first: int,
    offset: int,
    end: int,
    minimum: int,
) -> PlanView
    decreases greater(0, end - offset),
{
    if offset + scene.kind.width() > end || plan.recovered >= 65_536 {
        plan
    } else {
        let run = run_from(scene, offset, end, Seq::empty());
        let next = if run.offset <= offset {
            offset + scene.kind.width()
        } else {
            run.offset
        };
        runs_from(
            with_run(plan, scene, first, offset, end, minimum),
            scene,
            first,
            next,
            end,
            minimum,
        )
    }
}

/// The first multiple of the pointer width from `start` on.
pub open spec fn first_pointer(start: int, width: int) -> int {
    start + (width - start % width) % width
}

/// `plan` with the imports of a range of pointers.
pub open spec fn range_scanned(
    plan: PlanView,
    scene: Scene,
    start: int,
    end: int,
    minimum: int,
) -> PlanView {
    let first = first_pointer(start, scene.kind.width());
    runs_from(plan, scene, first, first, end, minimum)
}

/// A range of pointers, and how many imports a group in it has to have.
pub struct ImportScan {
    pub start: usize,
    pub end: usize,
    pub minimum: usize,
}

/// Reads one run; gives its imports, where it ended, and whether an ambiguous pointer ended
/// it.
fn read_run(
    memory: &[u8],
    observed_base: u64,
    kind: PeKind,
    exports: &ExportIndex,
    start: usize,
    end: usize,
) -> (result: (Vec<(u32, ResolvedExport)>, usize, bool))
    ensures
        ({
            let scene = Scene { memory: memory@, base: observed_base, kind, exports: exports@ };
            let run = run_from(scene, start as int, end as int, Seq::empty());
            &&& imports_view(result.0@) == run.imports
            &&& result.1 == run.offset
            &&& result.2 == run.ambiguous
            &&& start <= result.1
        }),
{
    let ghost scene = Scene { memory: memory@, base: observed_base, kind, exports: exports@ };
    let width: usize = kind.pointer_width();
    let mut imports: Vec<(u32, ResolvedExport)> = Vec::new();
    let mut offset: usize = start;
    assert(imports_view(imports@) =~= Seq::empty());
    while offset <= end && end - offset >= width && imports.len() < MAX_IMPORTS
        invariant
            start <= offset,
            width == kind.width(),
            scene == (Scene { memory: memory@, base: observed_base, kind, exports: exports@ }),
            run_from(scene, start as int, end as int, Seq::empty()) == run_from(
                scene,
                offset as int,
                end as int,
                imports_view(imports@),
            ),
        decreases end - offset,
    {
        let value: u64 = match read_pointer(memory, offset, width) {
            Some(value) => value,
            None => {
                return (imports, offset, false);
            },
        };
        let (export, ambiguous) = match resolve_value(memory, observed_base, kind, value, exports) {
            Some(found) => found,
            None => {
                return (imports, offset, false);
            },
        };
        if ambiguous {
            return (imports, offset, true);
        }
        if offset > 0xFFFF_FFFF {
            return (imports, offset, false);
        }
        let ghost before = imports_view(imports@);
        let ghost symbol = export@;
        imports.push((offset as u32, export));
        assert(imports_view(imports@) =~= before.push((offset as u32, symbol)));
        offset = offset + width;
    }
    (imports, offset, false)
}

/// Recovers the imports of a range of pointers.
pub fn scan_import_range(
    memory: &[u8],
    observed_base: u64,
    kind: PeKind,
    exports: &ExportIndex,
    scan: ImportScan,
    plan: &mut ImportPlan,
)
    ensures
        final(plan)@ == range_scanned(
            old(plan)@,
            Scene { memory: memory@, base: observed_base, kind, exports: exports@ },
            scan.start as int,
            scan.end as int,
            scan.minimum as int,
        ),
{
    let ghost scene = Scene { memory: memory@, base: observed_base, kind, exports: exports@ };
    let start: usize = scan.start;
    let end: usize = scan.end;
    let minimum: usize = scan.minimum;
    let width: usize = kind.pointer_width();
    let padding: usize = (width - start % width) % width;
    if padding > usize::MAX - start {
        return;
    }
    let first: usize = start + padding;
    let ghost whole = range_scanned(
        plan@,
        scene,
        start as int,
        end as int,
        minimum as int,
    );
    let mut offset: usize = first;
    while offset <= end && end - offset >= width && plan.recovered < MAX_IMPORTS
        invariant
            width == kind.width(),
            scene == (Scene { memory: memory@, base: observed_base, kind, exports: exports@ }),
            whole == runs_from(
                plan@,
                scene,
                first as int,
                offset as int,
                end as int,
                minimum as int,
            ),
        decreases greater(0, end - offset),
    {
        let run_start: usize = offset;
        let (imports, run_end, ambiguous) = read_run(
            memory,
            observed_base,
            kind,
            exports,
            run_start,
            end,
        );
        let ghost before = plan@;
        if ambiguous {
            plan.ambiguous = plan.ambiguous.saturating_add(1);
        }
        let clean_start = run_start == first || (run_start >= width && read_pointer(
            memory,
            run_start - width,
            width,
        ) == Some(0u64));
        let clean_end = run_end == end || read_pointer(memory, run_end, width) == Some(0u64);
        assert(plan@.groups =~= before.groups);
        if imports.len() >= minimum && clean_start && clean_end {
            append_groups(imports, width, minimum, plan);
        }
        assert(plan@ == with_run(
            before,
            scene,
            first as int,
            run_start as int,
            end as int,
            minimum as int,
        ));
        offset = if run_end == run_start {
            run_start + width
        } else {
            run_end
        };
    }
}

/// Whether a section with the name holds import tables.
pub open spec fn import_name(name: Seq<u8>) -> bool {
    exists|end: int|
        {
            &&& 0 <= end <= name.len()
            &&& end == name.len() || name[end] == 0
            &&& #[trigger] import_label(name.take(end))
        }
}

/// Whether the letters are `.idata` or `.didat`, in any case.
pub open spec fn import_label(label: Seq<u8>) -> bool {
    same_letters(label, seq![0x2e, 0x69, 0x64, 0x61, 0x74, 0x61]) || same_letters(
        label,
        seq![0x2e, 0x64, 0x69, 0x64, 0x61, 0x74],
    )
}

/// Whether a section with the name holds import tables.
pub fn is_import_section(name: &[u8; 8]) -> (result: bool)
    ensures
        result == import_name(name@),
{
    let bytes: &[u8] = name;
    let total: usize = bytes.len();
    if total < 6 {
        return false;
    }
    let label = &bytes[0..6];
    let idata: [u8; 6] = [0x2e, 0x69, 0x64, 0x61, 0x74, 0x61];
    let didat: [u8; 6] = [0x2e, 0x64, 0x69, 0x64, 0x61, 0x74];
    assert(label@ =~= name@.take(6));
    assert(idata@ =~= seq![0x2e, 0x69, 0x64, 0x61, 0x74, 0x61]);
    assert(didat@ =~= seq![0x2e, 0x64, 0x69, 0x64, 0x61, 0x74]);
    let named = bytes_match(label, &idata) || bytes_match(label, &didat);
    proof {
        assert forall|end: int|
            0 <= end <= name@.len() && #[trigger] import_label(name@.take(end)) implies end
            == 6 by {
            assert(name@.take(end).len() == 6);
        }
        assert(named == import_label(name@.take(6)));
    }
    named && bytes[6] == 0
}

/// The part of a section that is trusted to hold imports, and how many imports a group in
/// it has to have: where the declared address table overlaps the section, or the whole of
/// an import section.
pub open spec fn trusted_range(section: SectionModel, declared: Option<(int, int)>) -> Option<
    (int, int, int),
> {
    let start = section.start();
    let end = lesser(start + section.declared(), u32::MAX as int);
    let named = if import_name(section.name@) {
        Some((start, end, 2int))
    } else {
        None
    };
    match declared {
        Some((first, last)) => {
            let overlap_start = greater(first, start);
            let overlap_end = lesser(last, end);
            if overlap_start < overlap_end {
                Some((overlap_start, overlap_end, 1int))
            } else {
                named
            }
        },
        None => named,
    }
}

/// The declared address table.
pub open spec fn declared_table(memory: Seq<u8>, model: ModelView) -> Option<(int, int)> {
    match directory_of(memory, model.headers, 12) {
        Ok(Some(directory)) => if directory.rva.0 + directory.size <= u32::MAX {
            Some((directory.rva.0 as int, directory.rva.0 + directory.size))
        } else {
            None
        },
        _ => None,
    }
}

/// `plan` with the imports of the trusted ranges of the sections from `index` on.
pub open spec fn trusted_from(
    plan: PlanView,
    scene: Scene,
    sections: Seq<SectionModel>,
    declared: Option<(int, int)>,
    index: int,
) -> PlanView
    decreases sections.len() - index,
{
    if index >= sections.len() {
        plan
    } else if !sections[index].holds_data() {
        trusted_from(plan, scene, sections, declared, index + 1)
    } else {
        match trusted_range(sections[index], declared) {
            None => trusted_from(plan, scene, sections, declared, index + 1),
            Some((start, end, minimum)) => {
                let next = range_scanned(
                    plan,
                    scene,
                    start,
                    lesser(end, scene.memory.len() as int),
                    minimum,
                );
                if full(next) {
                    next
                } else {
                    trusted_from(next, scene, sections, declared, index + 1)
                }
            },
        }
    }
}

/// What an image is to a scan.
pub open spec fn scene_of(
    image: PeImage<'_>,
    base: u64,
    exports: Map<u64, (ExportView, bool)>,
) -> Scene {
    Scene { memory: image.bytes@, base, kind: image.model@.headers.kind, exports }
}

/// `plan` with the imports of the trusted ranges.
pub open spec fn trusted_scanned(plan: PlanView, scene: Scene, model: ModelView) -> PlanView {
    trusted_from(plan, scene, model.sections, declared_table(scene.memory, model), 0)
}

/// Finds the trusted part of a section.
fn find_trusted_range(section: &SectionModel, declared: Option<(u32, u32)>) -> (result: Option<
    (u32, u32, usize),
>)
    ensures
        ({
            let bounds = match declared {
                Some((first, last)) => Some((first as int, last as int)),
                None => None,
            };
            match trusted_range(*section, bounds) {
                Some((start, end, minimum)) => result == Some(
                    (start as u32, end as u32, minimum as usize),
                ) && 0 <= start <= u32::MAX && 0 <= end <= u32::MAX && 0 <= minimum <= 2,
                None => result is None,
            }
        }),
{
    let start: u32 = section.virtual_address.0;
    let end: u32 = start.saturating_add(section.span());
    if let Some((first, last)) = declared {
        let overlap_start: u32 = if first >= start {
            first
        } else {
            start
        };
        let overlap_end: u32 = if last <= end {
            last
        } else {
            end
        };
        if overlap_start < overlap_end {
            return Some((overlap_start, overlap_end, ATTESTED_MINIMUM_ENTRIES));
        }
    }
    if is_import_section(&section.name) {
        Some((start, end, SCANNED_MINIMUM_ENTRIES))
    } else {
        None
    }
}

/// The address and the size of a data directory, if the image has it.
pub fn directory(image: &PeImage<'_>, index: usize) -> (result: Option<(u32, u32)>)
    ensures
        result == match directory_of(image.bytes@, image.model@.headers, index as int) {
            Ok(Some(found)) => Some((found.rva.0, found.size)),
            _ => None,
        },
{
    match image.directory(index) {
        Ok(Some(found)) => Some((found.rva.0, found.size)),
        _ => None,
    }
}

/// Recovers the imports of the trusted ranges.
pub fn scan_trusted_ranges(
    image: &PeImage<'_>,
    observed_base: u64,
    exports: &ExportIndex,
    plan: &mut ImportPlan,
)
    ensures
        final(plan)@ == trusted_scanned(
            old(plan)@,
            scene_of(*image, observed_base, exports@),
            image.model@,
        ),
{
    let ghost scene = scene_of(*image, observed_base, exports@);
    let ghost declared = declared_table(scene.memory, image.model@);
    let ghost whole = trusted_scanned(plan@, scene, image.model@);
    let memory = image.bytes;
    let kind = image.model.headers.kind;
    let bounds: Option<(u32, u32)> = match directory(image, IAT_DIRECTORY) {
        Some((rva, size)) => match rva.checked_add(size) {
            Some(end) => Some((rva, end)),
            None => None,
        },
        None => None,
    };
    let mut index: usize = 0;
    while index < image.model.sections.len()
        invariant
            index <= image.model.sections@.len(),
            scene == (Scene { memory: memory@, base: observed_base, kind, exports: exports@ }),
            declared == match bounds {
                Some((first, last)) => Some((first as int, last as int)),
                None => None,
            },
            whole == trusted_from(
                plan@,
                scene,
                image.model@.sections,
                declared,
                index as int,
            ),
            whole == trusted_scanned(
                old(plan)@,
                scene_of(*image, observed_base, exports@),
                image.model@,
            ),
        decreases image.model.sections@.len() - index,
    {
        let section = image.model.sections[index];
        if section.is_data() {
            if let Some((start, end, minimum)) = find_trusted_range(&section, bounds) {
                let scan = ImportScan {
                    start: start as usize,
                    end: lesser_of(end as usize, memory.len()),
                    minimum,
                };
                scan_import_range(memory, observed_base, kind, exports, scan, plan);
                if plan.is_full() {
                    return;
                }
            }
        }
        index = index + 1;
    }
}

/// The length of a table of pointers of which `index` were seen, where at most `limit` are
/// read, and how many more could have been read.
pub open spec fn delay_length_from(
    memory: Seq<u8>,
    start: int,
    width: int,
    index: int,
    limit: int,
) -> (Option<int>, int)
    decreases limit - index,
{
    if index >= limit {
        (None, limit - index)
    } else {
        match pointer_at(memory, start + index * width, width) {
            None => (None, limit - index - 1),
            Some(value) => if value == 0 {
                (Some(index), limit - index - 1)
            } else {
                delay_length_from(memory, start, width, index + 1, limit)
            },
        }
    }
}

/// The address table of a delay-load descriptor, and what is left of the budget. The
/// descriptor is relative to the image, has a name, and its tables of addresses and of
/// names are aligned and have the same length.
pub open spec fn delay_range(
    memory: Seq<u8>,
    descriptor: Seq<u8>,
    width: int,
    budget: int,
) -> (Option<(int, int)>, int) {
    let addresses = u32_at(descriptor, 12) as int;
    let names = u32_at(descriptor, 16) as int;
    if !fits(descriptor, 0, 4) || u32_at(descriptor, 0) & DELAY_ATTRIBUTES_RVA_BASED == 0 || !fits(
        descriptor,
        0,
        8,
    ) || !name_at(memory, u32_at(descriptor, 4) as int) || !fits(descriptor, 0, 20) {
        (None, budget)
    } else if addresses == 0 || names == 0 || width == 0 || addresses % width != 0 || names % width
        != 0 {
        (None, budget)
    } else {
        match delay_length_from(memory, addresses, width, 0, budget) {
            (None, left) => (None, left),
            (Some(length), left) => if length == 0 {
                (None, left)
            } else {
                let (other, rest) = delay_length_from(memory, names, width, 0, left);
                if other == Some(length) {
                    (Some((addresses, addresses + length * width)), rest)
                } else {
                    (None, rest)
                }
            },
        }
    }
}

/// Measures a table of pointers; every one that is read takes one off the budget.
pub fn delay_table_length(
    memory: &[u8],
    start: usize,
    width: usize,
    budget: &mut usize,
) -> (result: Option<usize>)
    ensures
        *final(budget) <= *old(budget),
        ({
            let (length, left) = delay_length_from(
                memory@,
                start as int,
                width as int,
                0,
                *old(budget) as int,
            );
            *final(budget) == left && match length {
                Some(count) => result == Some(count as usize) && 0 <= count <= usize::MAX && (
                width > 0 ==> start + count * width <= memory@.len()),
                None => result is None,
            }
        }),
{
    let limit: usize = *budget;
    let mut index: usize = 0;
    while index < limit
        invariant
            index <= limit,
            limit == *old(budget),
            *budget == limit - index,
            delay_length_from(memory@, start as int, width as int, 0, limit as int)
                == delay_length_from(
                memory@,
                start as int,
                width as int,
                index as int,
                limit as int,
            ),
        decreases limit - index,
    {
        let total: usize = memory.len();
        *budget = *budget - 1;
        match read_pointer(memory, entry_offset(start, index, width), width) {
            Some(value) => {
                if value == 0 {
                    return Some(index);
                }
            },
            None => {
                return None;
            },
        }
        index = index + 1;
    }
    None
}

/// Finds the address table of a delay-load descriptor; every pointer that is read takes one
/// off the budget.
pub fn delay_table_range(
    memory: &[u8],
    descriptor: &[u8],
    width: usize,
    budget: &mut usize,
) -> (result: Option<(usize, usize)>)
    ensures
        ({
            let (range, left) = delay_range(
                memory@,
                descriptor@,
                width as int,
                *old(budget) as int,
            );
            *final(budget) == left && *final(budget) <= *old(budget) && match range {
                Some((start, end)) => result == Some((start as usize, end as usize)) && 0 <= start
                    <= end <= memory@.len(),
                None => result is None,
            }
        }),
{
    match read_u32(descriptor, 0) {
        Some(attributes) => {
            if attributes & DELAY_ATTRIBUTES_RVA_BASED == 0 {
                return None;
            }
        },
        None => {
            return None;
        },
    }
    match read_u32(descriptor, DELAY_NAME_OFFSET) {
        Some(name) => {
            if read_ascii(memory, name as usize).is_none() {
                return None;
            }
        },
        None => {
            return None;
        },
    }
    let (addresses, names): (usize, usize) = match (
        read_u32(descriptor, DELAY_IAT_OFFSET),
        read_u32(descriptor, DELAY_INT_OFFSET),
    ) {
        (Some(addresses), Some(names)) => (addresses as usize, names as usize),
        _ => {
            return None;
        },
    };
    if addresses == 0 || names == 0 || width == 0 || addresses % width != 0 || names % width != 0 {
        return None;
    }
    let total: usize = memory.len();
    let length: usize = match delay_table_length(memory, addresses, width, budget) {
        Some(length) => length,
        None => {
            return None;
        },
    };
    if length == 0 {
        return None;
    }
    match delay_table_length(memory, names, width, budget) {
        Some(other) => {
            if other != length {
                return None;
            }
        },
        None => {
            return None;
        },
    }
    assert(0 <= length * width) by (nonlinear_arith)
        requires
            0 <= length,
            0 <= width,
    ;
    Some((addresses, addresses + length * width))
}

/// How many pointers from `offset` up to `end` lead to no export.
pub open spec fn unbound_from(scene: Scene, offset: int, end: int) -> int
    decreases end - offset,
{
    if offset + scene.kind.width() > end {
        0
    } else {
        match scene.pointer(offset) {
            None => 0,
            Some(value) => unbound_from(scene, offset + scene.kind.width(), end)
                + if scene.export(value) is None {
                1int
            } else {
                0
            },
        }
    }
}

/// Counts the pointers of a range that lead to no export.
pub fn unbound_delay_slots(
    memory: &[u8],
    observed_base: u64,
    kind: PeKind,
    exports: &ExportIndex,
    scan: &ImportScan,
) -> (unbound: usize)
    ensures
        unbound == unbound_from(
            Scene { memory: memory@, base: observed_base, kind, exports: exports@ },
            scan.start as int,
            scan.end as int,
        ),
{
    let ghost scene = Scene { memory: memory@, base: observed_base, kind, exports: exports@ };
    let width: usize = kind.pointer_width();
    let end: usize = scan.end;
    let mut unbound: usize = 0;
    let mut offset: usize = scan.start;
    while offset <= end && end - offset >= width
        invariant
            width == kind.width(),
            end == scan.end,
            scan.start <= offset,
            unbound <= offset - scan.start,
            scene == (Scene { memory: memory@, base: observed_base, kind, exports: exports@ }),
            unbound + unbound_from(scene, offset as int, end as int) == unbound_from(
                scene,
                scan.start as int,
                end as int,
            ),
        decreases end - offset,
    {
        let value: u64 = match read_pointer(memory, offset, width) {
            Some(value) => value,
            None => {
                return unbound;
            },
        };
        if resolve_value(memory, observed_base, kind, value, exports).is_none() {
            unbound = unbound + 1;
        }
        offset = offset + width;
    }
    unbound
}

/// `plan` with the imports of the delay-load descriptors from `index` up to `count`. Tables
/// that start at a slot in `taken` are passed over, and pointers that lead nowhere are
/// counted.
pub open spec fn delay_from(
    plan: PlanView,
    scene: Scene,
    table: int,
    count: int,
    taken: Set<u64>,
    index: int,
    budget: int,
    unbound: int,
) -> PlanView
    decreases count - index,
{
    let offset = table + 32 * index;
    let done = PlanView { unresolved_delay: clipped(plan.unresolved_delay + unbound), ..plan };
    if index >= count || full(plan) || !fits(scene.memory, offset, 32) || all_zero(
        scene.memory.subrange(offset, offset + 32),
    ) {
        done
    } else {
        let (range, left) = delay_range(
            scene.memory,
            scene.memory.subrange(offset, offset + 32),
            scene.kind.width(),
            budget,
        );
        match range {
            None => delay_from(plan, scene, table, count, taken, index + 1, left, unbound),
            Some((start, end)) => if start <= u32::MAX && taken.contains(start as u64) {
                delay_from(plan, scene, table, count, taken, index + 1, left, unbound)
            } else {
                delay_from(
                    range_scanned(plan, scene, start, end, 1),
                    scene,
                    table,
                    count,
                    taken,
                    index + 1,
                    left,
                    clipped(unbound + unbound_from(scene, start, end)),
                )
            },
        }
    }
}

/// `plan` with the imports of the delay-load directory.
pub open spec fn delay_scanned(plan: PlanView, scene: Scene, model: ModelView) -> PlanView {
    match directory_of(scene.memory, model.headers, 13) {
        Ok(Some(directory)) => if directory.size < 32 {
            plan
        } else {
            delay_from(
                plan,
                scene,
                directory.rva.0 as int,
                lesser(directory.size as int / 32, 4_096),
                taken_slots(plan.groups, scene.kind.width()),
                0,
                65_536,
                0,
            )
        },
        _ => plan,
    }
}

/// Recovers the imports of the delay-load directory.
#[verifier::rlimit(60)]
#[verifier::spinoff_prover]
pub fn scan_delay_imports(
    image: &PeImage<'_>,
    observed_base: u64,
    exports: &ExportIndex,
    plan: &mut ImportPlan,
)
    ensures
        final(plan)@ == delay_scanned(
            old(plan)@,
            scene_of(*image, observed_base, exports@),
            image.model@,
        ),
{
    let ghost scene = scene_of(*image, observed_base, exports@);
    let ghost whole = delay_scanned(plan@, scene, image.model@);
    let memory = image.bytes;
    let kind = image.model.headers.kind;
    let width: usize = kind.pointer_width();
    let (rva, size): (u32, u32) = match directory(image, DELAY_IMPORT_DIRECTORY) {
        Some(found) => found,
        None => {
            return;
        },
    };
    if size < 32 {
        return;
    }
    let taken = collect_recovered_slots(plan, width);
    let table: usize = rva as usize;
    let count: usize = lesser_of(size as usize / DELAY_DESCRIPTOR_SIZE, MAX_IMPORT_GROUPS);
    let mut budget: usize = MAX_IMPORTS;
    let mut unbound: usize = 0;
    let mut index: usize = 0;
    let mut open = true;
    while index < count && open
        invariant
            index <= count <= 4_096,
            width == kind.width(),
            scene == (Scene { memory: memory@, base: observed_base, kind, exports: exports@ }),
            open ==> whole == delay_from(
                plan@,
                scene,
                table as int,
                count as int,
                taken@,
                index as int,
                budget as int,
                unbound as int,
            ),
            !open ==> whole == (PlanView {
                unresolved_delay: clipped(plan@.unresolved_delay + unbound),
                ..plan@
            }),
        decreases
                count - index + if open {
                    1int
                } else {
                    0
                },
    {
        let total: usize = memory.len();
        let delta: usize = index * DELAY_DESCRIPTOR_SIZE;
        if plan.is_full() || total < DELAY_DESCRIPTOR_SIZE || table > total - DELAY_DESCRIPTOR_SIZE
            || delta > total - DELAY_DESCRIPTOR_SIZE - table {
            open = false;
        } else {
            let offset: usize = table + delta;
            let descriptor = &memory[offset..offset + DELAY_DESCRIPTOR_SIZE];
            if is_zero(descriptor) {
                open = false;
            } else {
                if let Some((start, end)) = delay_table_range(
                    memory,
                    descriptor,
                    width,
                    &mut budget,
                ) {
                    if start > 0xFFFF_FFFF || !taken.contains(start as u32) {
                        let scan = ImportScan { start, end, minimum: ATTESTED_MINIMUM_ENTRIES };
                        let more: usize = unbound_delay_slots(
                            memory,
                            observed_base,
                            kind,
                            exports,
                            &scan,
                        );
                        unbound = unbound.saturating_add(more);
                        scan_import_range(memory, observed_base, kind, exports, scan, plan);
                    }
                }
                index = index + 1;
            }
        }
    }
    let ghost before = plan@;
    plan.unresolved_delay = plan.unresolved_delay.saturating_add(unbound);
    assert(plan@.groups =~= before.groups);
}

} // verus!
