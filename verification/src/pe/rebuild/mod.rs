//! Turning a captured image back into a file.

pub mod appended;
pub mod directories;
pub mod exception;
pub mod files;
pub mod finishing;
pub mod headers;
pub mod import_laws;
pub mod import_section;
pub mod laws;
pub mod observe;
pub mod recovery;
pub mod reported;
pub mod runtime_data;
pub mod sections;
pub mod source;
pub mod survival;

use vstd::prelude::*;

use crate::error::AppError;
use crate::pe::exports::{optional_text, ExportIndex};
use crate::pe::imports::plan::{ImportPlan, PlanView};
use crate::pe::imports::ranges::{scene_of, Scene};
use crate::pe::imports::{build_plan, plan_of};
use crate::pe::parse::{memory_model, parse_memory_image};
use crate::pe::rebuild::directories::{
    bad_cleared, base_fixed, clear_bad_directories, clear_directory, clear_dynamic_base,
    debug_repaired, directory_cleared, directory_label, nothing_cleared, recorded,
    repair_debug_directory, ClearedDirectories, ClearedView,
};
use crate::pe::rebuild::exception::{
    covered_by, entry_unwind_covered, exception_repaired, repair_exception_directory, UnwindRanges,
};
use crate::pe::rebuild::headers::{
    core_written, finalize_output, finished, parsable, refused, write_core_header_fields,
};
use crate::pe::rebuild::import_section::{append_import_section, imports_appended};
use crate::pe::rebuild::observe::{
    absent_sections, absent_total, bogus_pdata_total, callback_total, count_tls_callbacks,
    count_write_execute_sections, entropy_samples, entry_label, entry_section_name,
    invalid_pdata_sections, label_text, samples_of, samples_view, write_execute_total,
    EntropySample,
};
use crate::pe::rebuild::sections::{
    build_output_buffer, output_plan, renamed_total, sections_written, write_sections, OutputView,
};
use crate::pe::rebuild::source::{optional_bytes, resolve_source_bytes, source_bytes};
use crate::pe::{
    directory_of, EntryPointRva, ModelView, PeImage, PeKind, PeModel, RegionEvidence, SectionModel,
    IAT_DIRECTORY, IMPORT_DIRECTORY,
};

verus! {

pub const SECTION_HEADER_SIZE: usize = 40;

pub const MAX_OUTPUT_SIZE: usize = 0x4000_0000;

pub const IMAGE_SCN_CNT_CODE: u32 = 0x0000_0020;

pub const IMAGE_SCN_CNT_INITIALIZED_DATA: u32 = 0x0000_0040;

pub const IMAGE_SCN_CNT_UNINITIALIZED_DATA: u32 = 0x0000_0080;

pub const PAGE_SIZE: usize = 0x1000;

/// Where a section stands in the rebuilt file, and how many captured bytes it has.
#[derive(Clone, Copy, Debug)]
pub struct SectionLayout {
    pub model: SectionModel,
    pub source_length: usize,
    pub raw_offset: usize,
    pub raw_size: usize,
}

/// The smaller of two numbers.
pub open spec fn lesser(left: int, right: int) -> int {
    if left <= right {
        left
    } else {
        right
    }
}

/// The larger of two numbers.
pub open spec fn greater(left: int, right: int) -> int {
    if left >= right {
        left
    } else {
        right
    }
}

/// `value`, held at the largest `usize`.
pub open spec fn clipped(value: int) -> int {
    lesser(value, usize::MAX as int)
}

pub fn lesser_of(left: usize, right: usize) -> (result: usize)
    ensures
        result == lesser(left as int, right as int),
{
    if left <= right {
        left
    } else {
        right
    }
}

pub fn greater_of(left: usize, right: usize) -> (result: usize)
    ensures
        result == greater(left as int, right as int),
{
    if left >= right {
        left
    } else {
        right
    }
}

/// Whether the captured part of the section holds the address.
pub open spec fn captured_at(layout: SectionLayout, rva: int) -> bool {
    layout.model.start() <= rva < layout.model.start() + layout.source_length
}

/// The file offset of an address by the first section from `index` on that holds it.
pub open spec fn section_file_offset(layouts: Seq<SectionLayout>, rva: int, index: int) -> Option<
    int,
>
    decreases layouts.len() - index,
{
    if index >= layouts.len() {
        None
    } else if captured_at(layouts[index], rva) {
        Some(clipped(layouts[index].raw_offset + (rva - layouts[index].model.start())))
    } else {
        section_file_offset(layouts, rva, index + 1)
    }
}

/// The file offset of an address: headers stand where they were, and the rest is where its
/// section was put.
pub open spec fn file_offset(rva: int, layouts: Seq<SectionLayout>, header_size: int) -> Option<
    int,
> {
    if rva < header_size {
        Some(rva)
    } else {
        section_file_offset(layouts, rva, 0)
    }
}

/// The file offset of an address.
pub fn rva_to_file(rva: u32, layouts: &[SectionLayout], header_size: usize) -> (result: Option<
    usize,
>)
    ensures
        match file_offset(rva as int, layouts@, header_size as int) {
            Some(offset) => result == Some(offset as usize) && 0 <= offset <= usize::MAX,
            None => result is None,
        },
{
    let address: usize = rva as usize;
    if address < header_size {
        return Some(address);
    }
    let mut index: usize = 0;
    while index < layouts.len()
        invariant
            index <= layouts@.len(),
            address == rva,
            address >= header_size,
            section_file_offset(layouts@, rva as int, 0) == section_file_offset(
                layouts@,
                rva as int,
                index as int,
            ),
        decreases layouts@.len() - index,
    {
        let layout = layouts[index];
        let start: usize = layout.model.virtual_address.0 as usize;
        if address >= start && address - start < layout.source_length {
            return Some(layout.raw_offset.saturating_add(address - start));
        }
        index = index + 1;
    }
    None
}

/// A rebuilt file and what was found on the way.
pub struct RebuiltImage {
    pub bytes: Vec<u8>,
    pub kind: PeKind,
    pub is_dll: bool,
    pub section_count: usize,
    pub salvaged_headers: bool,
    pub disk_headers_used: bool,
    pub cleared_directories: usize,
    pub notable_cleared_directories: Vec<String>,
    pub invalid_unwind_entries: usize,
    pub imports_rebuilt: usize,
    pub unresolved_delay: usize,
    pub ambiguous_imports: usize,
    pub declared_iat_slots: usize,
    pub invalid_pdata_sections: usize,
    pub renamed_sections: usize,
    pub tls_callbacks: usize,
    pub entry_point: u32,
    pub entry_section: Option<String>,
    pub repaired_debug_entries: usize,
    pub fixed_image_base: bool,
    pub executable_flag_added: bool,
    pub entry_unwind_covered: Option<bool>,
    pub write_execute_sections: usize,
    /// For each section that was resident but never written to, how often each byte occurs
    /// in it: one of high entropy was never decrypted.
    pub entropy_samples: Vec<EntropySample>,
    pub absent_sections: usize,
}

/// What the repairs of a file found.
pub struct RepairStats {
    pub cleared: ClearedDirectories,
    pub unwind_ranges: Option<UnwindRanges>,
    pub invalid_unwind_entries: usize,
    pub repaired_debug_entries: usize,
    pub fixed_image_base: bool,
}

/// What the repairs of a file found, as contracts speak of it.
pub ghost struct RepairView {
    pub cleared: ClearedView,
    pub unwind_ranges: Option<Seq<(u32, u32)>>,
    pub invalid_unwind_entries: int,
    pub repaired_debug_entries: int,
    pub fixed_image_base: bool,
}

impl View for RepairStats {
    type V = RepairView;

    open spec fn view(&self) -> RepairView {
        RepairView {
            cleared: self.cleared@,
            unwind_ranges: match self.unwind_ranges {
                Some(ranges) => Some(ranges@),
                None => None,
            },
            invalid_unwind_entries: self.invalid_unwind_entries as int,
            repaired_debug_entries: self.repaired_debug_entries as int,
            fixed_image_base: self.fixed_image_base,
        }
    }
}

/// `output` with its directories repaired: those that lead nowhere go, then invalid runtime
/// functions, then debug entries are pointed into the file, and an image without
/// relocations is fixed at its base.
pub open spec fn repaired(
    output: Seq<u8>,
    model: ModelView,
    layouts: Seq<SectionLayout>,
    header_size: int,
) -> Result<(Seq<u8>, RepairView), AppError> {
    match bad_cleared(output, model, layouts, header_size, 0, nothing_cleared()) {
        Err(error) => Err(error),
        Ok((first, cleared)) => match exception_repaired(first, model, layouts, header_size) {
            Err(error) => Err(error),
            Ok((second, unwind)) => match debug_repaired(second, model, layouts, header_size) {
                Err(error) => Err(error),
                Ok((third, entries)) => match base_fixed(third, model.headers) {
                    Err(error) => Err(error),
                    Ok((last, fixed)) => Ok(
                        (
                            last,
                            RepairView {
                                cleared,
                                unwind_ranges: unwind.ranges,
                                invalid_unwind_entries: unwind.invalid,
                                repaired_debug_entries: entries,
                                fixed_image_base: fixed,
                            },
                        ),
                    ),
                },
            },
        },
    }
}

/// Repairs the directories of a file.
pub fn apply_repairs(
    output: &mut [u8],
    model: &PeModel,
    layouts: &[SectionLayout],
    header_size: usize,
) -> (result: Result<RepairStats, AppError>)
    ensures
        final(output)@.len() == old(output)@.len(),
        match repaired(old(output)@, model@, layouts@, header_size as int) {
            Ok((bytes, found)) => result matches Ok(stats) && stats@ == found && final(output)@
                == bytes,
            Err(error) => result matches Err(found) && found == error,
        },
{
    let cleared = clear_bad_directories(output, model, layouts, header_size)?;
    let exception = repair_exception_directory(output, model, layouts, header_size)?;
    let repaired_debug_entries: usize = repair_debug_directory(
        output,
        model,
        layouts,
        header_size,
    )?;
    let fixed_image_base = clear_dynamic_base(output, model)?;
    Ok(
        RepairStats {
            cleared,
            unwind_ranges: exception.ranges,
            invalid_unwind_entries: exception.invalid,
            repaired_debug_entries,
            fixed_image_base,
        },
    )
}

/// A file with its imports, and what became of its directories.
pub ghost struct ImportsView {
    pub bytes: Seq<u8>,
    pub written: bool,
    pub cleared: ClearedView,
}

/// `output` without its import directory, where no import is left to declare.
pub open spec fn undeclared(
    output: Seq<u8>,
    model: ModelView,
    plan: PlanView,
    written: bool,
    cleared: ClearedView,
) -> Result<ImportsView, AppError> {
    if written || plan.existing.len() > 0 {
        Ok(ImportsView { bytes: output, written, cleared })
    } else {
        match directory_cleared(output, model.headers, 1) {
            Err(error) => Err(error),
            Ok((bytes, was_set)) => Ok(
                ImportsView {
                    bytes,
                    written,
                    cleared: if was_set {
                        recorded(cleared, 1)
                    } else {
                        cleared
                    },
                },
            ),
        }
    }
}

/// `output` with the imports of a plan.
pub open spec fn imports_written(
    output: Seq<u8>,
    model: ModelView,
    plan: PlanView,
    cleared: ClearedView,
) -> Result<ImportsView, AppError> {
    if plan.groups.len() == 0 {
        undeclared(output, model, plan, false, cleared)
    } else {
        match imports_appended(output, model, plan) {
            Err(error) => Err(error),
            Ok(appended) => undeclared(
                appended.bytes,
                model,
                plan,
                appended.written,
                if appended.iat_cleared {
                    recorded(cleared, 12)
                } else {
                    cleared
                },
            ),
        }
    }
}

/// Writes the imports of a plan; says whether a section was added for them.
pub fn write_imports(
    output: &mut Vec<u8>,
    model: &PeModel,
    plan: &ImportPlan,
    cleared: &mut ClearedDirectories,
) -> (result: Result<bool, AppError>)
    ensures
        match imports_written(old(output)@, model@, plan@, old(cleared)@) {
            Ok(imports) => result == Ok::<bool, AppError>(imports.written) && final(output)@
                == imports.bytes && final(cleared)@ == imports.cleared,
            Err(error) => result == Err::<bool, AppError>(error),
        },
{
    assert(plan@.groups.len() == plan.groups@.len());
    let (written, iat_cleared): (bool, bool) = if plan.groups.len() == 0 {
        (false, false)
    } else {
        append_import_section(output, model, plan)?
    };
    if iat_cleared {
        cleared.record(IAT_DIRECTORY);
    }
    if !written && plan.existing.len() == 0 {
        let extra: usize = clear_directory(output, model, IMPORT_DIRECTORY)?;
        if extra > 0 {
            cleared.record(IMPORT_DIRECTORY);
        }
    }
    Ok(written)
}

/// Recovers the imports of an image and writes them; gives them and whether a section was
/// added for them.
pub fn resolve_imports(
    output: &mut Vec<u8>,
    model: &PeModel,
    image: &PeImage<'_>,
    observed_base: u64,
    exports: &ExportIndex,
    repairs: &mut RepairStats,
) -> (result: Result<(ImportPlan, bool), AppError>)
    ensures
        ({
            let plan = plan_of(scene_of(*image, observed_base, exports@), image.model@);
            match imports_written(old(output)@, model@, plan, old(repairs)@.cleared) {
                Ok(imports) => result matches Ok((found, written)) && found@ == plan && written
                    == imports.written && final(output)@ == imports.bytes && final(repairs)@ == (
                RepairView { cleared: imports.cleared, ..old(repairs)@ }),
                Err(error) => result matches Err(found) && found == error,
            }
        }),
{
    let plan = build_plan(image, observed_base, exports);
    let written = write_imports(output, model, &plan, &mut repairs.cleared)?;
    Ok((plan, written))
}

/// How many slots the address table directory declares.
pub open spec fn declared_slots(memory: Seq<u8>, model: ModelView) -> int {
    match directory_of(memory, model.headers, 12) {
        Ok(Some(directory)) => directory.size as int / model.headers.kind.width(),
        _ => 0,
    }
}

/// How many slots the address table directory declares.
pub fn declared_iat_slots(image: &PeImage<'_>) -> (slots: usize)
    ensures
        slots == declared_slots(image.bytes@, image.model@),
{
    match image.directory(IAT_DIRECTORY) {
        Ok(Some(directory)) => directory.size as usize / image.model.headers.kind.pointer_width(),
        _ => 0,
    }
}

/// A file with everything but its last header fields, and what was found on the way.
pub ghost struct DraftView {
    pub bytes: Seq<u8>,
    pub plan: PlanView,
    pub written: bool,
    pub repairs: RepairView,
}

/// The file that a plan becomes with the fields of its headers, its sections, its repairs
/// and its imports.
pub open spec fn drafted(
    output: OutputView,
    scene: Scene,
    model: ModelView,
) -> Result<DraftView, AppError> {
    match core_written(output.bytes, model, scene.base, output.header_size) {
        Err(error) => Err(error),
        Ok(headed) => match sections_written(headed, scene.memory, output.layouts, 0) {
            Err(error) => Err(error),
            Ok(filled) => match repaired(filled, model, output.layouts, output.header_size) {
                Err(error) => Err(error),
                Ok((mended, repairs)) => {
                    let plan = plan_of(scene, model);
                    match imports_written(mended, model, plan, repairs.cleared) {
                        Err(error) => Err(error),
                        Ok(imports) => Ok(
                            DraftView {
                                bytes: imports.bytes,
                                plan,
                                written: imports.written,
                                repairs: RepairView { cleared: imports.cleared, ..repairs },
                            },
                        ),
                    }
                },
            },
        },
    }
}

/// Writes everything but the last header fields into a planned file.
fn draft(
    output: &mut Vec<u8>,
    layouts: &[SectionLayout],
    header_size: usize,
    image: &PeImage<'_>,
    observed_base: u64,
    exports: &ExportIndex,
) -> (result: Result<(usize, ImportPlan, bool, RepairStats), AppError>)
    ensures
        match drafted(
            OutputView {
                bytes: old(output)@,
                layouts: layouts@,
                header_size: header_size as int,
            },
            scene_of(*image, observed_base, exports@),
            image.model@,
        ) {
            Ok(view) => result matches Ok((renamed, plan, written, repairs)) && renamed
                == renamed_total(layouts@, layouts@.len() as int) as usize && plan@ == view.plan
                && written == view.written && repairs@ == view.repairs && final(output)@
                == view.bytes,
            Err(error) => result matches Err(found) && found == error,
        },
{
    write_core_header_fields(output, &image.model, observed_base, header_size)?;
    let renamed: usize = write_sections(output, image.bytes, layouts)?;
    let mut repairs = apply_repairs(output, &image.model, layouts, header_size)?;
    let (plan, written) = resolve_imports(
        output,
        &image.model,
        image,
        observed_base,
        exports,
        &mut repairs,
    )?;
    Ok((renamed, plan, written, repairs))
}

/// What is known of an image beside its bytes: what its memory allowed, its pages, and the
/// entry point that was given.
pub ghost struct Evidence {
    pub regions: Seq<RegionEvidence>,
    pub page_flags: Seq<u8>,
    pub entry_point: Option<EntryPointRva>,
    pub disk_headers_used: bool,
}

/// Whether the rebuilt image is the finished draft of the file, with what was found.
pub open spec fn reported(
    rebuilt: RebuiltImage,
    output: OutputView,
    scene: Scene,
    model: ModelView,
    evidence: Evidence,
) -> bool {
    &&& drafted(output, scene, model) matches Ok(draft)
    &&& finished(draft.bytes, model, evidence.entry_point) matches Ok(last)
    &&& rebuilt.bytes@ == last.bytes
    &&& rebuilt.kind == model.headers.kind
    &&& rebuilt.is_dll == model.headers.is_dll
    &&& rebuilt.section_count == clipped(
        model.sections.len() + if draft.written {
            1int
        } else {
            0
        },
    )
    &&& rebuilt.salvaged_headers == model.headers.salvaged
    &&& rebuilt.disk_headers_used == evidence.disk_headers_used
    &&& rebuilt.cleared_directories == draft.repairs.cleared.total
    &&& names_listed(rebuilt.notable_cleared_directories@, draft.repairs.cleared.notable)
    &&& rebuilt.invalid_unwind_entries == draft.repairs.invalid_unwind_entries
    &&& rebuilt.imports_rebuilt == if draft.written {
        draft.plan.recovered
    } else {
        0
    }
    &&& rebuilt.unresolved_delay == draft.plan.unresolved_delay
    &&& rebuilt.ambiguous_imports == draft.plan.ambiguous
    &&& rebuilt.declared_iat_slots == declared_slots(scene.memory, model)
    &&& rebuilt.invalid_pdata_sections == bogus_pdata_total(
        last.bytes,
        model,
        output.layouts,
        output.header_size,
        output.layouts.len() as int,
    )
    &&& rebuilt.renamed_sections == renamed_total(
        output.layouts,
        output.layouts.len() as int,
    ) as usize
    &&& rebuilt.tls_callbacks == callback_total(scene.memory, model, scene.base)
    &&& rebuilt.entry_point == last.entry_point
    &&& optional_text(rebuilt.entry_section) == label_text(
        entry_label(output.layouts, last.entry_point),
    )
    &&& rebuilt.repaired_debug_entries == draft.repairs.repaired_debug_entries
    &&& rebuilt.fixed_image_base == draft.repairs.fixed_image_base
    &&& rebuilt.executable_flag_added == last.executable_flag_added
    &&& rebuilt.entry_unwind_covered == covered_by(draft.repairs.unwind_ranges, last.entry_point)
    &&& rebuilt.write_execute_sections == write_execute_total(
        output.layouts,
        evidence.regions,
        output.layouts.len() as int,
    )
    &&& samples_view(rebuilt.entropy_samples@) == samples_of(
        scene.memory,
        output.layouts,
        evidence.page_flags,
        output.layouts.len() as int,
    )
    &&& rebuilt.absent_sections == absent_total(
        scene.memory,
        output.layouts,
        output.layouts.len() as int,
    )
}

/// Whether the names are those of the directories, in order.
pub open spec fn names_listed(names: Seq<String>, directories: Seq<int>) -> bool {
    &&& names.len() == directories.len()
    &&& forall|i: int|
        0 <= i < names.len() ==> (#[trigger] names[i])@ == directory_label(directories[i])
}

/// The error that a planned file fails with, whatever an independent parser says.
pub open spec fn draft_error(
    output: OutputView,
    scene: Scene,
    model: ModelView,
    entry_point: Option<EntryPointRva>,
) -> Option<AppError> {
    match drafted(output, scene, model) {
        Err(error) => Some(error),
        Ok(draft) => match finished(draft.bytes, model, entry_point) {
            Err(error) => Some(error),
            Ok(_) => None,
        },
    }
}

/// The bytes of a planned file once it is finished.
pub open spec fn finished_bytes(
    output: OutputView,
    scene: Scene,
    model: ModelView,
    entry_point: Option<EntryPointRva>,
) -> Seq<u8> {
    finished(drafted(output, scene, model)->Ok_0.bytes, model, entry_point)->Ok_0.bytes
}

/// What a rebuild of a planned file returns: the error that it fails with, else the finished
/// file or the refusal of an independent parser.
pub open spec fn outcome(
    result: Result<RebuiltImage, AppError>,
    output: OutputView,
    scene: Scene,
    model: ModelView,
    evidence: Evidence,
) -> bool {
    match draft_error(output, scene, model, evidence.entry_point) {
        Some(error) => result matches Err(found) && found == error,
        None => match result {
            Ok(rebuilt) => reported(rebuilt, output, scene, model, evidence) && parsable(
                rebuilt.bytes@,
            ),
            Err(error) => refused(
                finished_bytes(output, scene, model, evidence.entry_point),
                error,
            ),
        },
    }
}

/// Rebuilds a file that was planned: `output` holds the captured headers, and the sections
/// are laid out.
pub fn rebuild_planned(
    mut output: Vec<u8>,
    layouts: Vec<SectionLayout>,
    header_size: usize,
    image: &PeImage<'_>,
    regions: &[RegionEvidence],
    observed_base: u64,
    disk_headers_used: bool,
    exports: &ExportIndex,
    entry_point: Option<EntryPointRva>,
    page_flags: &[u8],
) -> (result: Result<RebuiltImage, AppError>)
    ensures
        outcome(
            result,
            OutputView {
                bytes: output@,
                layouts: layouts@,
                header_size: header_size as int,
            },
            scene_of(*image, observed_base, exports@),
            image.model@,
            Evidence {
                regions: regions@,
                page_flags: page_flags@,
                entry_point,
                disk_headers_used,
            },
        ),
{
    let (renamed_sections, plan, written, repairs) = draft(
        &mut output,
        layouts.as_slice(),
        header_size,
        image,
        observed_base,
        exports,
    )?;
    let model = &image.model;
    let (final_entry_point, executable_flag_added) = finalize_output(
        &mut output,
        model,
        entry_point,
    )?;
    let bogus_pdata: usize = invalid_pdata_sections(
        output.as_slice(),
        model,
        layouts.as_slice(),
        header_size,
    );
    let added: usize = if written {
        1
    } else {
        0
    };
    Ok(
        RebuiltImage {
            kind: model.headers.kind,
            is_dll: model.headers.is_dll,
            section_count: model.sections.len().saturating_add(added),
            salvaged_headers: model.headers.salvaged,
            disk_headers_used,
            cleared_directories: repairs.cleared.total,
            notable_cleared_directories: repairs.cleared.notable_names(),
            invalid_unwind_entries: repairs.invalid_unwind_entries,
            imports_rebuilt: if written {
                plan.recovered
            } else {
                0
            },
            unresolved_delay: plan.unresolved_delay,
            ambiguous_imports: plan.ambiguous,
            declared_iat_slots: declared_iat_slots(image),
            invalid_pdata_sections: bogus_pdata,
            renamed_sections,
            tls_callbacks: count_tls_callbacks(image, observed_base),
            entry_point: final_entry_point,
            entry_section: entry_section_name(layouts.as_slice(), final_entry_point),
            repaired_debug_entries: repairs.repaired_debug_entries,
            fixed_image_base: repairs.fixed_image_base,
            executable_flag_added,
            entry_unwind_covered: entry_unwind_covered(&repairs.unwind_ranges, final_entry_point),
            write_execute_sections: count_write_execute_sections(layouts.as_slice(), regions),
            entropy_samples: entropy_samples(image.bytes, layouts.as_slice(), page_flags),
            absent_sections: absent_sections(image.bytes, layouts.as_slice()),
            bytes: output,
        },
    )
}

/// The plan of a file, with the bytes that it is rebuilt from, their structure, and whether
/// they have headers from disk.
pub open spec fn planned(
    memory: Seq<u8>,
    regions: Seq<RegionEvidence>,
    disk_headers: Option<Seq<u8>>,
) -> Result<(OutputView, Seq<u8>, ModelView, bool), AppError> {
    match source_bytes(memory, regions, disk_headers) {
        Err(error) => Err(error),
        Ok((source, from_disk)) => match memory_model(source) {
            Err(error) => Err(AppError::RebuiltHeadersInvalid(error)),
            Ok(model) => match output_plan(model, source) {
                Err(error) => Err(error),
                Ok(plan) => Ok((plan, source, model, from_disk)),
            },
        },
    }
}

/// Turns a captured image back into a file. Where the file can be planned, the result also
/// depends on whether there is memory for it and on an independent parser.
pub fn rebuild(
    memory: &[u8],
    regions: &[RegionEvidence],
    observed_base: u64,
    disk_headers: Option<&[u8]>,
    exports: &ExportIndex,
    entry_point: Option<EntryPointRva>,
    page_flags: &[u8],
) -> (result: Result<RebuiltImage, AppError>)
    ensures
        match planned(memory@, regions@, optional_bytes(disk_headers)) {
            Err(error) => result matches Err(found) && found == error,
            Ok((plan, source, model, from_disk)) => result matches Err(AppError::OutOfMemory)
                || outcome(
                result,
                plan,
                Scene {
                    memory: source,
                    base: observed_base,
                    kind: model.headers.kind,
                    exports: exports@,
                },
                model,
                Evidence {
                    regions: regions@,
                    page_flags: page_flags@,
                    entry_point,
                    disk_headers_used: from_disk,
                },
            ),
        },
{
    let (source, disk_headers_used) = resolve_source_bytes(memory, regions, disk_headers)?;
    let image = match parse_memory_image(source.bytes()) {
        Ok(image) => image,
        Err(error) => {
            return Err(AppError::RebuiltHeadersInvalid(error));
        },
    };
    let (output, layouts, header_size) = build_output_buffer(&image.model, image.bytes)?;
    rebuild_planned(
        output,
        layouts,
        header_size,
        &image,
        regions,
        observed_base,
        disk_headers_used,
        exports,
        entry_point,
        page_flags,
    )
}

} // verus!
