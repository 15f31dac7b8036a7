//! The section that recovered imports are written to.

use vstd::prelude::*;
use vstd::utf8::{encode_utf8, is_ascii_chars};

use crate::error::{AppError, PayloadPart};
use crate::pe::align::{align_up, align_up_u64, aligned};
use crate::pe::image::{
    copy_into, get_u16, get_u32, overwrite, put_bytes, put_u16, put_u32, put_u64, read_u16,
    read_u32, rewrote, write_bytes, write_u16, write_u32, write_u64,
};
use crate::pe::imports::plan::{EntryView, GroupView, ImportGroup, ImportPlan, PlanView};
use crate::pe::rebuild::directories::{
    clear_directory, directory_cleared, directory_written, write_directory,
};
use crate::pe::rebuild::{
    clipped, greater, greater_of, MAX_OUTPUT_SIZE, SECTION_HEADER_SIZE,
};
use crate::pe::{ModelView, PeKind, PeModel, SectionModel, IAT_DIRECTORY, IMPORT_DIRECTORY};

verus! {

pub const IMPORT_DESCRIPTOR_SIZE: usize = 20;

pub const MEMPE_IMPORT_CHARACTERISTICS: u32 = 0xC000_0040;

/// `bytes` followed by zeros up to a length.
pub open spec fn zero_filled(bytes: Seq<u8>, length: int) -> Seq<u8> {
    if length <= bytes.len() {
        bytes
    } else {
        bytes + Seq::new((length - bytes.len()) as nat, |i: int| 0u8)
    }
}

/// `bytes` followed by zeros up to a multiple of an alignment.
pub open spec fn padded(bytes: Seq<u8>, alignment: int) -> Seq<u8> {
    zero_filled(
        bytes,
        clipped(bytes.len() + (alignment - bytes.len() as int % alignment) % alignment),
    )
}

/// Whether a text can be an import name: ASCII without NUL, and not empty.
pub open spec fn importable(text: Seq<char>) -> bool {
    text.len() > 0 && is_ascii_chars(text) && !encode_utf8(text).contains(0u8)
}

/// `bytes` followed by a text and a NUL.
pub open spec fn with_text(bytes: Seq<u8>, text: Seq<char>) -> Result<Seq<u8>, AppError> {
    if importable(text) {
        Ok(bytes + encode_utf8(text) + seq![0u8])
    } else {
        Err(AppError::BadImportName)
    }
}

/// The thunk of an import by ordinal.
pub open spec fn ordinal_value(kind: PeKind, ordinal: u32) -> u64 {
    match kind {
        PeKind::Pe32 => 0x8000_0000u64 | (ordinal & 0xffff) as u64,
        PeKind::Pe32Plus => 0x8000_0000_0000_0000u64 | (ordinal & 0xffff) as u64,
    }
}

/// `bytes` with a thunk at `offset`.
pub open spec fn thunk_written(bytes: Seq<u8>, offset: int, kind: PeKind, value: int) -> Result<
    Seq<u8>,
    AppError,
> {
    match kind {
        PeKind::Pe32 => if value > u32::MAX {
            Err(AppError::ImportThunkTooLarge)
        } else {
            put_u32(bytes, offset, value as u32)
        },
        PeKind::Pe32Plus => put_u64(bytes, offset, value as u64),
    }
}

/// `payload` with what an import needs behind it, and the thunk of the import: the address
/// of its hint and name, or its ordinal.
pub open spec fn entry_added(
    payload: Seq<u8>,
    entry: EntryView,
    kind: PeKind,
    section_rva: u32,
) -> Result<(Seq<u8>, int), AppError> {
    match entry.name {
        None => Ok((payload, ordinal_value(kind, entry.ordinal) as int)),
        Some(name) => {
            let start = padded(payload, 2);
            match with_text(start + seq![0u8, 0u8], name) {
                Err(error) => Err(error),
                Ok(bytes) => if section_rva + start.len() > u64::MAX {
                    Err(AppError::ImportNameOverflow)
                } else {
                    Ok((bytes, section_rva + start.len()))
                },
            }
        },
    }
}

/// `payload` with one import of a group whose lookup table stands at `lookup`.
#[verifier::opaque]
pub open spec fn entry_written(
    payload: Seq<u8>,
    entry: EntryView,
    kind: PeKind,
    section_rva: u32,
    lookup: int,
    index: int,
) -> Result<Seq<u8>, AppError> {
    match entry_added(payload, entry, kind, section_rva) {
        Err(error) => Err(error),
        Ok((bytes, thunk)) => if lookup + index * kind.width() > usize::MAX {
            Err(AppError::ImportThunkOverflow)
        } else {
            thunk_written(bytes, lookup + index * kind.width(), kind, thunk)
        },
    }
}

/// `payload` with the imports of a group from `index` on.
pub open spec fn entries_written(
    payload: Seq<u8>,
    group: GroupView,
    kind: PeKind,
    section_rva: u32,
    lookup: int,
    index: int,
) -> Result<Seq<u8>, AppError>
    decreases group.entries.len() - index,
{
    if index >= group.entries.len() {
        Ok(payload)
    } else {
        match entry_written(payload, group.entries[index], kind, section_rva, lookup, index) {
            Err(error) => Err(error),
            Ok(bytes) => entries_written(bytes, group, kind, section_rva, lookup, index + 1),
        }
    }
}

/// The address of a part of the section.
pub open spec fn part_rva(section_rva: u32, offset: int, part: PayloadPart) -> Result<
    u32,
    AppError,
> {
    if offset > u32::MAX {
        Err(AppError::PayloadOffsetTooLarge(part))
    } else if section_rva + offset > u32::MAX {
        Err(AppError::PayloadRvaOverflow(part))
    } else {
        Ok((section_rva + offset) as u32)
    }
}

/// `payload` with the descriptor of a group.
pub open spec fn descriptor_written(
    payload: Seq<u8>,
    descriptor: int,
    section_rva: u32,
    lookup: int,
    module: int,
    first_thunk: u32,
) -> Result<Seq<u8>, AppError> {
    match part_rva(section_rva, lookup, PayloadPart::LookupTable) {
        Err(error) => Err(error),
        Ok(lookup_rva) => match put_u32(payload, descriptor, lookup_rva) {
            Err(error) => Err(error),
            Ok(looked_up) => match part_rva(section_rva, module, PayloadPart::Module) {
                Err(error) => Err(error),
                Ok(module_rva) => match put_u32(looked_up, descriptor + 12, module_rva) {
                    Err(error) => Err(error),
                    Ok(named) => put_u32(named, descriptor + 16, first_thunk),
                },
            },
        },
    }
}

/// `payload` with a group: behind it the lookup table, the names and the module, and in the
/// table at `descriptor` its descriptor.
#[verifier::opaque]
pub open spec fn group_written(
    payload: Seq<u8>,
    group: GroupView,
    kind: PeKind,
    section_rva: u32,
    descriptor: int,
) -> Result<Seq<u8>, AppError> {
    let start = padded(payload, kind.width());
    let lookup = start.len() as int;
    let size = (group.entries.len() + 1) * kind.width();
    if size > usize::MAX {
        Err(AppError::ImportLookupOverflow)
    } else {
        let sized = zero_filled(start, clipped(lookup + size));
        match entries_written(sized, group, kind, section_rva, lookup, 0) {
            Err(error) => Err(error),
            Ok(filled) => match with_text(filled, group.module) {
                Err(error) => Err(error),
                Ok(named) => descriptor_written(
                    named,
                    descriptor,
                    section_rva,
                    lookup,
                    filled.len() as int,
                    group.first_thunk,
                ),
            },
        }
    }
}

/// `payload` with the groups from `index` on.
pub open spec fn groups_written(
    payload: Seq<u8>,
    plan: PlanView,
    kind: PeKind,
    section_rva: u32,
    index: int,
) -> Result<Seq<u8>, AppError>
    decreases plan.groups.len() - index,
{
    if index >= plan.groups.len() {
        Ok(payload)
    } else {
        match group_written(
            payload,
            plan.groups[index],
            kind,
            section_rva,
            20 * index + plan.existing.len(),
        ) {
            Err(error) => Err(error),
            Ok(bytes) => groups_written(bytes, plan, kind, section_rva, index + 1),
        }
    }
}

/// The size of the descriptor table: the descriptors that are kept, one for each group, and
/// an empty one.
pub open spec fn descriptors_size(plan: PlanView) -> Result<int, AppError> {
    let size = 20 * (plan.groups.len() + 1) + plan.existing.len() as int;
    if size > usize::MAX {
        Err(AppError::ImportDescriptorsOverflow)
    } else {
        Ok(size)
    }
}

/// The contents of the section.
pub open spec fn payload_of(plan: PlanView, kind: PeKind, section_rva: u32) -> Result<
    Seq<u8>,
    AppError,
> {
    match descriptors_size(plan) {
        Err(error) => Err(error),
        Ok(size) => groups_written(
            zero_filled(plan.existing, size),
            plan,
            kind,
            section_rva,
            0,
        ),
    }
}

/// What a step that builds a payload did, given what it was to do.
pub open spec fn grew(
    expected: Result<Seq<u8>, AppError>,
    result: Result<(), AppError>,
    after: Seq<u8>,
) -> bool {
    match expected {
        Ok(bytes) => result == Ok::<(), AppError>(()) && after == bytes,
        Err(error) => result == Err::<(), AppError>(error),
    }
}

/// Fills up with zeros to a length.
fn fill_to(bytes: &mut Vec<u8>, length: usize)
    ensures
        final(bytes)@ == zero_filled(old(bytes)@, length as int),
{
    if length > bytes.len() {
        bytes.resize(length, 0);
    }
    assert(bytes@ =~= zero_filled(old(bytes)@, length as int));
}

/// Fills up with zeros to a multiple of an alignment.
pub fn align_vec(bytes: &mut Vec<u8>, alignment: usize)
    requires
        alignment > 0,
    ensures
        final(bytes)@ == padded(old(bytes)@, alignment as int),
{
    let length: usize = bytes.len();
    let padding: usize = (alignment - length % alignment) % alignment;
    fill_to(bytes, length.saturating_add(padding));
}

fn holds_zero(bytes: &[u8]) -> (result: bool)
    ensures
        result == bytes@.contains(0u8),
{
    let mut index: usize = 0;
    while index < bytes.len()
        invariant
            index <= bytes@.len(),
            forall|i: int| 0 <= i < index ==> bytes@[i] != 0,
        decreases bytes@.len() - index,
    {
        if bytes[index] == 0 {
            return true;
        }
        index = index + 1;
    }
    false
}

/// Appends a text and a NUL.
pub fn append_ascii(bytes: &mut Vec<u8>, value: &str) -> (result: Result<(), AppError>)
    ensures
        grew(with_text(old(bytes)@, value@), result, final(bytes)@),
        result is Err ==> final(bytes)@ == old(bytes)@,
{
    if value.is_empty() || !value.is_ascii() || holds_zero(value.as_bytes()) {
        return Err(AppError::BadImportName);
    }
    bytes.extend_from_slice(value.as_bytes());
    bytes.push(0);
    assert(bytes@ =~= old(bytes)@ + encode_utf8(value@) + seq![0u8]);
    Ok(())
}

/// The thunk of an import by ordinal.
pub fn ordinal_thunk(kind: PeKind, ordinal: u32) -> (thunk: u64)
    ensures
        thunk == ordinal_value(kind, ordinal),
{
    match kind {
        PeKind::Pe32 => 0x8000_0000u64 | (ordinal & 0xffff) as u64,
        PeKind::Pe32Plus => 0x8000_0000_0000_0000u64 | (ordinal & 0xffff) as u64,
    }
}

/// Writes a thunk.
pub fn write_thunk(bytes: &mut [u8], offset: usize, kind: PeKind, value: u64) -> (result: Result<
    (),
    AppError,
>)
    ensures
        rewrote(
            thunk_written(old(bytes)@, offset as int, kind, value as int),
            old(bytes)@,
            result,
            final(bytes)@,
        ),
        result is Err ==> final(bytes)@ == old(bytes)@,
{
    match kind {
        PeKind::Pe32 => {
            if value > 0xFFFF_FFFF {
                return Err(AppError::ImportThunkTooLarge);
            }
            write_u32(bytes, offset, value as u32)
        },
        PeKind::Pe32Plus => write_u64(bytes, offset, value),
    }
}

/// Writes the imports of a group.
pub fn write_lookup_thunks(
    payload: &mut Vec<u8>,
    group: &ImportGroup,
    kind: PeKind,
    section_rva: u32,
    lookup_offset: usize,
) -> (result: Result<(), AppError>)
    ensures
        grew(
            entries_written(
                old(payload)@,
                group@,
                kind,
                section_rva,
                lookup_offset as int,
                0,
            ),
            result,
            final(payload)@,
        ),
{
    let width: usize = kind.pointer_width();
    let mut index: usize = 0;
    while index < group.entries.len()
        invariant
            index <= group.entries@.len(),
            width == kind.width(),
            entries_written(
                old(payload)@,
                group@,
                kind,
                section_rva,
                lookup_offset as int,
                0,
            ) == entries_written(
                payload@,
                group@,
                kind,
                section_rva,
                lookup_offset as int,
                index as int,
            ),
        decreases group.entries@.len() - index,
    {
        let entry = &group.entries[index];
        proof {
            reveal(entry_written);
            assert(group@.entries[index as int] == entry@);
        }
        let thunk: u64 = match &entry.name {
            Some(name) => {
                align_vec(payload, 2);
                let name_offset: usize = payload.len();
                let ghost start = payload@;
                payload.push(0);
                payload.push(0);
                assert(payload@ =~= start + seq![0u8, 0u8]);
                append_ascii(payload, name.as_str())?;
                match (section_rva as u64).checked_add(name_offset as u64) {
                    Some(rva) => rva,
                    None => {
                        return Err(AppError::ImportNameOverflow);
                    },
                }
            },
            None => ordinal_thunk(kind, entry.ordinal),
        };
        let delta: usize = match index.checked_mul(width) {
            Some(delta) => delta,
            None => {
                return Err(AppError::ImportThunkOverflow);
            },
        };
        if delta > usize::MAX - lookup_offset {
            return Err(AppError::ImportThunkOverflow);
        }
        write_thunk(payload, lookup_offset + delta, kind, thunk)?;
        index = index + 1;
    }
    Ok(())
}

/// The address of a part of the section.
pub fn payload_rva(section_rva: u32, offset: usize, part: PayloadPart) -> (result: Result<
    u32,
    AppError,
>)
    ensures
        result == part_rva(section_rva, offset as int, part),
{
    if offset > 0xFFFF_FFFF {
        return Err(AppError::PayloadOffsetTooLarge(part));
    }
    match section_rva.checked_add(offset as u32) {
        Some(rva) => Ok(rva),
        None => Err(AppError::PayloadRvaOverflow(part)),
    }
}

/// Writes the descriptor of a group.
pub fn write_import_descriptor(
    payload: &mut [u8],
    descriptor: usize,
    section_rva: u32,
    lookup_offset: usize,
    module_offset: usize,
    first_thunk: u32,
) -> (result: Result<(), AppError>)
    ensures
        rewrote(
            descriptor_written(
                old(payload)@,
                descriptor as int,
                section_rva,
                lookup_offset as int,
                module_offset as int,
                first_thunk,
            ),
            old(payload)@,
            result,
            final(payload)@,
        ),
        part_rva(section_rva, lookup_offset as int, PayloadPart::LookupTable) is Err
            ==> final(payload)@ == old(payload)@,
{
    let total: usize = payload.len();
    let lookup_rva: u32 = payload_rva(section_rva, lookup_offset, PayloadPart::LookupTable)?;
    write_u32(payload, descriptor, lookup_rva)?;
    let module_rva: u32 = payload_rva(section_rva, module_offset, PayloadPart::Module)?;
    write_u32(payload, descriptor.saturating_add(12), module_rva)?;
    write_u32(payload, descriptor.saturating_add(16), first_thunk)
}

/// Writes a group.
fn write_group(
    payload: &mut Vec<u8>,
    group: &ImportGroup,
    kind: PeKind,
    section_rva: u32,
    descriptor: usize,
) -> (result: Result<(), AppError>)
    ensures
        grew(
            group_written(
                old(payload)@,
                group@,
                kind,
                section_rva,
                descriptor as int,
            ),
            result,
            final(payload)@,
        ),
{
    proof {
        reveal(group_written);
    }
    let width: usize = kind.pointer_width();
    align_vec(payload, width);
    let lookup_offset: usize = payload.len();
    let count: usize = group.entries.len();
    assert(group@.entries.len() == count);
    let size: usize = if count == usize::MAX {
        assert((count + 1) * width > usize::MAX) by (nonlinear_arith)
            requires
                count == usize::MAX,
                width >= 1,
        ;
        return Err(AppError::ImportLookupOverflow);
    } else {
        match (count + 1).checked_mul(width) {
            Some(size) => size,
            None => {
                return Err(AppError::ImportLookupOverflow);
            },
        }
    };
    fill_to(payload, lookup_offset.saturating_add(size));
    write_lookup_thunks(payload, group, kind, section_rva, lookup_offset)?;
    let module_offset: usize = payload.len();
    append_ascii(payload, group.module.as_str())?;
    write_import_descriptor(
        payload,
        descriptor,
        section_rva,
        lookup_offset,
        module_offset,
        group.first_thunk,
    )
}

/// The size of the descriptor table.
pub fn import_descriptor_bytes(plan: &ImportPlan) -> (result: Result<usize, AppError>)
    ensures
        match descriptors_size(plan@) {
            Ok(size) => result == Ok::<usize, AppError>(size as usize) && 0 <= size <= usize::MAX,
            Err(error) => result == Err::<usize, AppError>(error),
        },
{
    let groups: usize = plan.groups.len();
    assert(plan@.groups.len() == groups);
    if groups >= usize::MAX / IMPORT_DESCRIPTOR_SIZE {
        return Err(AppError::ImportDescriptorsOverflow);
    }
    match ((groups + 1) * IMPORT_DESCRIPTOR_SIZE).checked_add(plan.existing.len()) {
        Some(size) => Ok(size),
        None => Err(AppError::ImportDescriptorsOverflow),
    }
}

/// Builds the contents of the section.
pub fn build_import_payload(plan: &ImportPlan, kind: PeKind, section_rva: u32) -> (result: Result<
    Vec<u8>,
    AppError,
>)
    ensures
        match payload_of(plan@, kind, section_rva) {
            Ok(bytes) => result matches Ok(found) && found@ == bytes,
            Err(error) => result matches Err(found) && found == error,
        },
{
    let size: usize = import_descriptor_bytes(plan)?;
    let mut payload: Vec<u8> = plan.existing.clone();
    assert(payload@ =~= plan.existing@);
    fill_to(&mut payload, size);
    let mut index: usize = 0;
    while index < plan.groups.len()
        invariant
            index <= plan.groups@.len(),
            20 * (plan.groups@.len() + 1) + plan.existing@.len() <= usize::MAX,
            payload_of(plan@, kind, section_rva) == groups_written(
                payload@,
                plan@,
                kind,
                section_rva,
                index as int,
            ),
        decreases plan.groups@.len() - index,
    {
        assert(plan@.groups[index as int] == plan.groups@[index as int]@);
        let descriptor: usize = index * IMPORT_DESCRIPTOR_SIZE + plan.existing.len();
        write_group(&mut payload, &plan.groups[index], kind, section_rva, descriptor)?;
        index = index + 1;
    }
    Ok(payload)
}

/// `output` with the header of the section, whose entry in the section table stands at
/// `header`.
pub open spec fn section_header_written(
    output: Seq<u8>,
    header: int,
    virtual_address: u32,
    virtual_size: int,
    raw_offset: int,
    raw_size: int,
) -> Result<Seq<u8>, AppError> {
    match put_bytes(output, header, seq![0x2e, 0x6d, 0x65, 0x6d, 0x70, 0x65, 0, 0]) {
        Err(_) => Err(AppError::NewSectionNameOutside),
        Ok(named) => if virtual_size > u32::MAX {
            Err(AppError::ImportPayloadTooLarge)
        } else {
            match put_u32(named, header + 8, virtual_size as u32) {
                Err(error) => Err(error),
                Ok(sized) => match put_u32(sized, header + 12, virtual_address) {
                    Err(error) => Err(error),
                    Ok(addressed) => section_place_written(
                        addressed,
                        header,
                        raw_offset,
                        raw_size,
                    ),
                },
            }
        },
    }
}

/// `output` with the place of the section in the file and its access flags in its header.
pub open spec fn section_place_written(
    output: Seq<u8>,
    header: int,
    raw_offset: int,
    raw_size: int,
) -> Result<Seq<u8>, AppError> {
    if raw_size > u32::MAX {
        Err(AppError::ImportRawSizeTooLarge)
    } else {
        match put_u32(output, header + 16, raw_size as u32) {
            Err(error) => Err(error),
            Ok(sized) => if raw_offset > u32::MAX {
                Err(AppError::ImportRawOffsetTooLarge)
            } else {
                match put_u32(sized, header + 20, raw_offset as u32) {
                    Err(error) => Err(error),
                    Ok(placed) => put_u32(placed, header + 36, MEMPE_IMPORT_CHARACTERISTICS),
                }
            },
        }
    }
}

/// Writes the header of the section.
pub fn write_mempe_section_header(
    output: &mut [u8],
    section_header: usize,
    virtual_address: u32,
    virtual_size: usize,
    raw_offset: usize,
    raw_size: usize,
) -> (result: Result<(), AppError>)
    ensures
        rewrote(
            section_header_written(
                old(output)@,
                section_header as int,
                virtual_address,
                virtual_size as int,
                raw_offset as int,
                raw_size as int,
            ),
            old(output)@,
            result,
            final(output)@,
        ),
        section_header + 8 > old(output)@.len() ==> final(output)@ == old(output)@,
{
    let total: usize = output.len();
    let name: [u8; 8] = [0x2e, 0x6d, 0x65, 0x6d, 0x70, 0x65, 0, 0];
    assert(name@ =~= seq![0x2e, 0x6d, 0x65, 0x6d, 0x70, 0x65, 0, 0]);
    match write_bytes(output, section_header, &name) {
        Ok(_) => {},
        Err(_) => {
            return Err(AppError::NewSectionNameOutside);
        },
    }
    if virtual_size > 0xFFFF_FFFF {
        return Err(AppError::ImportPayloadTooLarge);
    }
    write_u32(output, section_header.saturating_add(8), virtual_size as u32)?;
    write_u32(output, section_header.saturating_add(12), virtual_address)?;
    if raw_size > 0xFFFF_FFFF {
        return Err(AppError::ImportRawSizeTooLarge);
    }
    write_u32(output, section_header.saturating_add(16), raw_size as u32)?;
    if raw_offset > 0xFFFF_FFFF {
        return Err(AppError::ImportRawOffsetTooLarge);
    }
    write_u32(output, section_header.saturating_add(20), raw_offset as u32)?;
    write_u32(output, section_header.saturating_add(36), MEMPE_IMPORT_CHARACTERISTICS)
}

/// `output` with one more section counted.
pub open spec fn section_counted(output: Seq<u8>, model: ModelView) -> Result<Seq<u8>, AppError> {
    let offset = model.headers.nt_offset + 6;
    match get_u16(output, offset) {
        Err(error) => Err(error),
        Ok(count) => if count == u16::MAX {
            Err(AppError::SectionCountOverflow)
        } else {
            put_u16(output, offset, (count + 1) as u16)
        },
    }
}

/// `output` with an image size that covers the section.
pub open spec fn image_grown(
    output: Seq<u8>,
    model: ModelView,
    virtual_address: u32,
    length: int,
) -> Result<Seq<u8>, AppError> {
    if virtual_address + length > u64::MAX {
        Err(AppError::ImportRangeOverflow)
    } else {
        match aligned(
            virtual_address + length,
            model.headers.section_alignment as int,
            u64::MAX as int,
        ) {
            Err(error) => Err(error),
            Ok(size) => if size > u32::MAX {
                Err(AppError::ImageSizeTooLarge)
            } else {
                put_u32(output, model.headers.size_of_image_offset as int, size as u32)
            },
        }
    }
}

/// `output` with an import directory that leads to the section, and whether the address
/// table directory was cleared, which stands for the old descriptors.
pub open spec fn imports_declared(
    output: Seq<u8>,
    model: ModelView,
    plan: PlanView,
    virtual_address: u32,
) -> Result<(Seq<u8>, bool), AppError> {
    match descriptors_size(plan) {
        Err(error) => Err(error),
        Ok(size) => if size > u32::MAX {
            Err(AppError::ImportDescriptorsTooLarge)
        } else {
            match directory_written(output, model.headers, 1, virtual_address, size as u32) {
                Err(error) => Err(error),
                Ok(declared) => if plan.existing.len() == 0 {
                    directory_cleared(declared, model.headers, 12)
                } else {
                    Ok((declared, false))
                },
            }
        },
    }
}

/// `output` with the headers that take the section in, and whether the address table
/// directory was cleared.
pub open spec fn imports_committed(
    output: Seq<u8>,
    model: ModelView,
    plan: PlanView,
    virtual_address: u32,
    length: int,
) -> Result<(Seq<u8>, bool), AppError> {
    match section_counted(output, model) {
        Err(error) => Err(error),
        Ok(counted) => match image_grown(counted, model, virtual_address, length) {
            Err(error) => Err(error),
            Ok(grown) => imports_declared(grown, model, plan, virtual_address),
        },
    }
}

/// Takes the section into the headers, and says whether the address table directory was
/// cleared.
pub fn commit_import_section(
    output: &mut [u8],
    model: &PeModel,
    plan: &ImportPlan,
    virtual_address: u32,
    payload_len: usize,
) -> (result: Result<bool, AppError>)
    ensures
        final(output)@.len() == old(output)@.len(),
        section_counted(old(output)@, model@) is Err ==> final(output)@ == old(output)@,
        match imports_committed(
            old(output)@,
            model@,
            plan@,
            virtual_address,
            payload_len as int,
        ) {
            Ok((bytes, cleared)) => result == Ok::<bool, AppError>(cleared) && final(output)@
                == bytes,
            Err(error) => result == Err::<bool, AppError>(error),
        },
{
    let total: usize = output.len();
    let count_offset: usize = model.headers.nt_offset.saturating_add(6);
    let count: u16 = read_u16(output, count_offset)?;
    if count == 0xFFFF {
        return Err(AppError::SectionCountOverflow);
    }
    write_u16(output, count_offset, count + 1)?;
    let end: u64 = match (virtual_address as u64).checked_add(payload_len as u64) {
        Some(end) => end,
        None => {
            return Err(AppError::ImportRangeOverflow);
        },
    };
    let image_size: u64 = align_up_u64(end, model.headers.section_alignment as u64)?;
    if image_size > 0xFFFF_FFFF {
        return Err(AppError::ImageSizeTooLarge);
    }
    write_u32(output, model.headers.size_of_image_offset, image_size as u32)?;
    let size: usize = import_descriptor_bytes(plan)?;
    if size > 0xFFFF_FFFF {
        return Err(AppError::ImportDescriptorsTooLarge);
    }
    write_directory(output, model, IMPORT_DIRECTORY, virtual_address, size as u32)?;
    if plan.existing.len() == 0 {
        let cleared: usize = clear_directory(output, model, IAT_DIRECTORY)?;
        return Ok(cleared > 0);
    }
    Ok(false)
}

/// The largest offset of an entry of the section table.
pub open spec fn last_header(sections: Seq<SectionModel>) -> int
    decreases sections.len(),
{
    if sections.len() == 0 {
        0
    } else {
        greater(last_header(sections.drop_last()), sections.last().header_offset as int)
    }
}

/// A rebuilt file with recovered imports, and what became of its headers.
pub ghost struct AppendView {
    pub bytes: Seq<u8>,
    pub written: bool,
    pub iat_cleared: bool,
}

/// `output` with the section appended, whose header stands at `header` and whose address is
/// `virtual_address`.
pub open spec fn payload_appended(
    output: Seq<u8>,
    model: ModelView,
    plan: PlanView,
    header: int,
    virtual_address: u32,
    payload: Seq<u8>,
) -> Result<AppendView, AppError> {
    let alignment = model.headers.file_alignment as int;
    match aligned(output.len() as int, alignment, usize::MAX as int) {
        Err(error) => Err(error),
        Ok(raw_offset) => match aligned(payload.len() as int, alignment, usize::MAX as int) {
            Err(error) => Err(error),
            Ok(raw_size) => if raw_offset + raw_size > usize::MAX {
                Err(AppError::ImportSizeOverflow)
            } else if raw_offset + raw_size > MAX_OUTPUT_SIZE {
                Err(AppError::ImportsTooLarge)
            } else {
                let filled = overwrite(
                    zero_filled(output, raw_offset + raw_size),
                    raw_offset,
                    payload,
                );
                match section_header_written(
                    filled,
                    header,
                    virtual_address,
                    payload.len() as int,
                    raw_offset,
                    raw_size,
                ) {
                    Err(error) => Err(error),
                    Ok(headed) => match imports_committed(
                        headed,
                        model,
                        plan,
                        virtual_address,
                        payload.len() as int,
                    ) {
                        Err(error) => Err(error),
                        Ok((bytes, cleared)) => Ok(
                            AppendView { bytes, written: true, iat_cleared: cleared },
                        ),
                    },
                }
            },
        },
    }
}

/// `output` with the section appended behind the image, where its header has room.
pub open spec fn section_appended(
    output: Seq<u8>,
    model: ModelView,
    plan: PlanView,
    header: int,
) -> Result<AppendView, AppError> {
    match get_u32(output, model.headers.size_of_image_offset as int) {
        Err(error) => Err(error),
        Ok(image_size) => match aligned(
            image_size as int,
            model.headers.section_alignment as int,
            u64::MAX as int,
        ) {
            Err(error) => Err(error),
            Ok(virtual_address) => if virtual_address > u32::MAX {
                Err(AppError::ImportRvaTooLarge)
            } else {
                match payload_of(plan, model.headers.kind, virtual_address as u32) {
                    Err(error) => Err(error),
                    Ok(payload) => payload_appended(
                        output,
                        model,
                        plan,
                        header,
                        virtual_address as u32,
                        payload,
                    ),
                }
            },
        },
    }
}

/// `output` with recovered imports in a section of their own. An image without an import
/// directory or without room for one more section header stays as it is.
pub open spec fn imports_appended(output: Seq<u8>, model: ModelView, plan: PlanView) -> Result<
    AppendView,
    AppError,
> {
    let unchanged = AppendView { bytes: output, written: false, iat_cleared: false };
    let header = last_header(model.sections) + 40;
    if model.headers.directory_count <= 1 {
        Ok(unchanged)
    } else if model.sections.len() == 0 || header > usize::MAX {
        Err(AppError::NewSectionOverflow)
    } else {
        match get_u32(output, model.headers.size_of_headers_offset as int) {
            Err(error) => Err(error),
            Ok(limit) => if clipped(header + 40) > limit {
                Ok(unchanged)
            } else {
                section_appended(output, model, plan, header)
            },
        }
    }
}

/// Whether a section for the imports can be laid out: it has an address, contents and a place
/// in the file.
pub open spec fn has_room(output: Seq<u8>, model: ModelView, plan: PlanView) -> bool {
    let header = last_header(model.sections) + 40;
    model.headers.directory_count > 1 && model.sections.len() > 0 && match (
        get_u32(output, model.headers.size_of_headers_offset as int),
        get_u32(output, model.headers.size_of_image_offset as int),
    ) {
        (Ok(limit), Ok(image_size)) => clipped(header + 40) <= limit && match aligned(
            image_size as int,
            model.headers.section_alignment as int,
            u64::MAX as int,
        ) {
            Ok(address) => address <= u32::MAX && payload_fits(
                output,
                model,
                payload_of(plan, model.headers.kind, address as u32),
            ),
            Err(_) => false,
        },
        _ => false,
    }
}

/// Whether there is a payload and it fits behind the file.
pub open spec fn payload_fits(
    output: Seq<u8>,
    model: ModelView,
    payload: Result<Seq<u8>, AppError>,
) -> bool {
    let alignment = model.headers.file_alignment as int;
    match payload {
        Err(_) => false,
        Ok(bytes) => match (
            aligned(output.len() as int, alignment, usize::MAX as int),
            aligned(bytes.len() as int, alignment, usize::MAX as int),
        ) {
            (Ok(offset), Ok(size)) => offset + size <= MAX_OUTPUT_SIZE,
            _ => false,
        },
    }
}

fn last_header_offset(sections: &[SectionModel]) -> (offset: usize)
    ensures
        offset == last_header(sections@),
{
    let mut offset: usize = 0;
    let mut index: usize = 0;
    assert(sections@.take(0) =~= Seq::empty());
    while index < sections.len()
        invariant
            index <= sections@.len(),
            offset == last_header(sections@.take(index as int)),
        decreases sections@.len() - index,
    {
        assert(sections@.take(index + 1).drop_last() =~= sections@.take(index as int));
        offset = greater_of(offset, sections[index].header_offset);
        index = index + 1;
    }
    assert(sections@.take(index as int) =~= sections@);
    offset
}

/// Writes recovered imports to a section of their own; says whether it was written and
/// whether the address table directory was cleared.
pub fn append_import_section(
    output: &mut Vec<u8>,
    model: &PeModel,
    plan: &ImportPlan,
) -> (result: Result<(bool, bool), AppError>)
    ensures
        match imports_appended(old(output)@, model@, plan@) {
            Ok(appended) => result == Ok::<(bool, bool), AppError>(
                (appended.written, appended.iat_cleared),
            ) && final(output)@ == appended.bytes,
            Err(error) => result == Err::<(bool, bool), AppError>(error),
        },
        !has_room(old(output)@, model@, plan@) ==> final(output)@ == old(output)@,
{
    if IMPORT_DIRECTORY >= model.headers.directory_count {
        return Ok((false, false));
    }
    if model.sections.len() == 0 {
        return Err(AppError::NewSectionOverflow);
    }
    let last: usize = last_header_offset(model.sections.as_slice());
    if last > usize::MAX - SECTION_HEADER_SIZE {
        return Err(AppError::NewSectionOverflow);
    }
    let header: usize = last + SECTION_HEADER_SIZE;
    let limit: usize = read_u32(output, model.headers.size_of_headers_offset)? as usize;
    if header.saturating_add(SECTION_HEADER_SIZE) > limit {
        return Ok((false, false));
    }
    let image_size: u32 = read_u32(output, model.headers.size_of_image_offset)?;
    let address: u64 = align_up_u64(
        image_size as u64,
        model.headers.section_alignment as u64,
    )?;
    if address > 0xFFFF_FFFF {
        return Err(AppError::ImportRvaTooLarge);
    }
    let virtual_address: u32 = address as u32;
    let payload = build_import_payload(plan, model.headers.kind, virtual_address)?;
    let alignment: usize = model.headers.file_alignment as usize;
    let raw_offset: usize = align_up(output.len(), alignment)?;
    let raw_size: usize = align_up(payload.len(), alignment)?;
    if raw_size > usize::MAX - raw_offset {
        return Err(AppError::ImportSizeOverflow);
    }
    let size: usize = raw_offset + raw_size;
    if size > MAX_OUTPUT_SIZE {
        return Err(AppError::ImportsTooLarge);
    }
    fill_to(output, size);
    copy_into(output, raw_offset, payload.as_slice());
    write_mempe_section_header(
        output,
        header,
        virtual_address,
        payload.len(),
        raw_offset,
        raw_size,
    )?;
    let cleared = commit_import_section(output, model, plan, virtual_address, payload.len())?;
    Ok((true, cleared))
}

} // verus!
