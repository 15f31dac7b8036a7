//! The bytes that a file is rebuilt from.

use vstd::prelude::*;
use vstd::slice::slice_to_vec;

use crate::error::AppError;
use crate::pe::align::{align_up, aligned};
use crate::pe::image::{
    copy_into, get_u16, get_u32, overwrite, put_u32, read_u16, read_u32, write_u32,
};
use crate::pe::parse::{disk_model, memory_model, parse_disk_image, parse_memory_image};
use crate::pe::rebuild::sections::{recover_section_headers, recovered_headers};
use crate::pe::rebuild::{greater, SECTION_HEADER_SIZE};
use crate::pe::{ModelView, PeKind, PeModel, RegionEvidence, Rva};

verus! {

pub const MAX_DISK_HEADERS: usize = 0x10_0000;

/// The bytes of an image: those captured, or a repaired copy of them.
pub enum Source<'a> {
    Captured(&'a [u8]),
    Repaired(Vec<u8>),
}

impl<'a> View for Source<'a> {
    type V = Seq<u8>;

    open spec fn view(&self) -> Seq<u8> {
        match self {
            Source::Captured(bytes) => bytes@,
            Source::Repaired(bytes) => bytes@,
        }
    }
}

impl<'a> Source<'a> {
    pub fn bytes(&self) -> (bytes: &[u8])
        ensures
            bytes@ == self@,
    {
        match self {
            Source::Captured(bytes) => bytes,
            Source::Repaired(bytes) => bytes.as_slice(),
        }
    }
}

/// The 16-bit field at `offset`; zero where there is none.
pub open spec fn u16_or_zero(bytes: Seq<u8>, offset: int) -> u16 {
    match get_u16(bytes, offset) {
        Ok(value) => value,
        Err(_) => 0,
    }
}

/// The machine that the format is for.
pub open spec fn machine_of(kind: PeKind) -> u16 {
    match kind {
        PeKind::Pe32 => 0x014C,
        PeKind::Pe32Plus => 0x8664,
    }
}

/// The optional-header magic of the format.
pub open spec fn magic_of(kind: PeKind) -> u16 {
    match kind {
        PeKind::Pe32 => 0x010B,
        PeKind::Pe32Plus => 0x020B,
    }
}

/// The machine that the captured headers give.
pub open spec fn captured_machine(memory: Seq<u8>, model: ModelView) -> u16 {
    u16_or_zero(memory, model.headers.nt_offset + 4)
}

/// The optional-header magic that the captured headers give.
pub open spec fn captured_magic(memory: Seq<u8>, model: ModelView) -> u16 {
    u16_or_zero(memory, greater(0, model.headers.entry_point_offset - 16))
}

/// The entry point that the captured image keeps under headers from disk: its own, where
/// its machine or magic agrees with them and the address is executable. Headers of another
/// architecture or format, or of a larger image, are refused.
pub open spec fn kept_entry_point(memory: Seq<u8>, model: ModelView) -> Result<
    Option<u32>,
    AppError,
> {
    let machine = captured_machine(memory, model);
    let magic = captured_magic(memory, model);
    let kind = model.headers.kind;
    if model.headers.image_size > memory.len() {
        Err(AppError::DiskImageTooLarge)
    } else if (machine == 0x014C || machine == 0x8664) && machine != machine_of(kind) {
        Err(AppError::ArchitectureConflict)
    } else if (magic == 0x010B || magic == 0x020B) && magic != magic_of(kind) {
        Err(AppError::FormatConflict)
    } else {
        match get_u32(memory, model.headers.entry_point_offset as int) {
            Ok(rva) => if (machine == machine_of(kind) || magic == magic_of(kind))
                && model.executable_at(rva as int) {
                Ok(Some(rva))
            } else {
                Ok(None)
            },
            Err(_) => Ok(None),
        }
    }
}

/// How many bytes of the stored file are headers.
pub open spec fn disk_header_end(disk: Seq<u8>, model: ModelView) -> Result<int, AppError> {
    if model.sections.len() == 0 || model.sections.last().header_offset + 40 > usize::MAX {
        Err(AppError::DiskTableIncomplete)
    } else {
        match aligned(
            model.sections.last().header_offset + 40,
            model.headers.file_alignment as int,
            usize::MAX as int,
        ) {
            Err(error) => Err(error),
            Ok(size) => if size > MAX_DISK_HEADERS || size > disk.len() {
                Err(AppError::DiskHeadersTooLarge)
            } else {
                Ok(size)
            },
        }
    }
}

/// The captured image with the headers of the stored file in place of its own.
pub open spec fn merged(memory: Seq<u8>, disk: Seq<u8>) -> Result<Seq<u8>, AppError> {
    match disk_model(disk) {
        Err(error) => Err(AppError::Parse(error)),
        Ok(model) => match kept_entry_point(memory, model) {
            Err(error) => Err(error),
            Ok(entry_point) => match disk_header_end(disk, model) {
                Err(error) => Err(error),
                Ok(size) => if size > memory.len() {
                    Err(AppError::DiskHeadersExceedCapture)
                } else {
                    let bytes = overwrite(memory, 0, disk.take(size));
                    match entry_point {
                        None => Ok(bytes),
                        Some(rva) => put_u32(bytes, model.headers.entry_point_offset as int, rva),
                    }
                },
            },
        },
    }
}

/// The captured image where its headers can be used, else one with headers from disk; and
/// whether the latter.
pub open spec fn headed(memory: Seq<u8>, disk: Option<Seq<u8>>) -> Result<
    (Seq<u8>, bool),
    AppError,
> {
    match memory_model(memory) {
        Ok(_) => Ok((memory, false)),
        Err(memory_error) => match disk {
            None => Err(AppError::Parse(memory_error)),
            Some(disk) => match merged(memory, disk) {
                Err(error) => Err(error),
                Ok(repaired) => match memory_model(repaired) {
                    Ok(_) => Ok((repaired, true)),
                    Err(disk_error) => Err(
                        AppError::DiskRepairFailed { memory: memory_error, disk: disk_error },
                    ),
                },
            },
        },
    }
}

/// The bytes that a file is rebuilt from, and whether they have headers from disk.
pub open spec fn source_bytes(
    memory: Seq<u8>,
    regions: Seq<RegionEvidence>,
    disk: Option<Seq<u8>>,
) -> Result<(Seq<u8>, bool), AppError> {
    match headed(memory, disk) {
        Err(error) => Err(error),
        Ok((initial, from_disk)) => match memory_model(initial) {
            Err(error) => Err(AppError::Parse(error)),
            Ok(model) => match recovered_headers(initial, model, regions) {
                Err(error) => Err(error),
                Ok(Some(bytes)) => Ok((bytes, from_disk)),
                Ok(None) => Ok((initial, from_disk)),
            },
        },
    }
}

/// The contents of optional bytes.
pub open spec fn optional_bytes(bytes: Option<&[u8]>) -> Option<Seq<u8>> {
    match bytes {
        Some(found) => Some(found@),
        None => None,
    }
}

fn read_u16_or_zero(bytes: &[u8], offset: usize) -> (value: u16)
    ensures
        value == u16_or_zero(bytes@, offset as int),
{
    match read_u16(bytes, offset) {
        Ok(value) => value,
        Err(_) => 0,
    }
}

/// Holds the captured headers against those from disk, and gives the entry point to keep.
pub fn validate_header_evidence(memory: &[u8], model: &PeModel) -> (result: Result<
    Option<u32>,
    AppError,
>)
    ensures
        result == kept_entry_point(memory@, model@),
{
    let total: usize = memory.len();
    if model.headers.image_size as usize > memory.len() {
        return Err(AppError::DiskImageTooLarge);
    }
    let disk_machine: u16 = match model.headers.kind {
        PeKind::Pe32 => 0x014C,
        PeKind::Pe32Plus => 0x8664,
    };
    let disk_magic: u16 = match model.headers.kind {
        PeKind::Pe32 => 0x010B,
        PeKind::Pe32Plus => 0x020B,
    };
    let machine: u16 = read_u16_or_zero(memory, model.headers.nt_offset.saturating_add(4));
    assert(machine == captured_machine(memory@, model@));
    if (machine == 0x014C || machine == 0x8664) && machine != disk_machine {
        return Err(AppError::ArchitectureConflict);
    }
    let magic: u16 = read_u16_or_zero(memory, model.headers.entry_point_offset.saturating_sub(16));
    if (magic == 0x010B || magic == 0x020B) && magic != disk_magic {
        return Err(AppError::FormatConflict);
    }
    let matching = machine == disk_machine || magic == disk_magic;
    match read_u32(memory, model.headers.entry_point_offset) {
        Ok(rva) => if matching && model.executable_rva(Rva(rva)) {
            Ok(Some(rva))
        } else {
            Ok(None)
        },
        Err(_) => Ok(None),
    }
}

/// How many bytes of the stored file are headers.
pub fn disk_header_size(disk: &[u8], model: &PeModel) -> (result: Result<usize, AppError>)
    ensures
        match disk_header_end(disk@, model@) {
            Ok(size) => result == Ok::<usize, AppError>(size as usize) && 0 <= size <= disk@.len(),
            Err(error) => result == Err::<usize, AppError>(error),
        },
{
    if model.sections.len() == 0 {
        return Err(AppError::DiskTableIncomplete);
    }
    let last: usize = model.sections[model.sections.len() - 1].header_offset;
    if last > usize::MAX - SECTION_HEADER_SIZE {
        return Err(AppError::DiskTableIncomplete);
    }
    let size: usize = align_up(last + SECTION_HEADER_SIZE, model.headers.file_alignment as usize)?;
    if size > MAX_DISK_HEADERS || size > disk.len() {
        return Err(AppError::DiskHeadersTooLarge);
    }
    Ok(size)
}

/// Puts the headers of the stored file in place of the captured ones.
pub fn merge_header_evidence(memory: &[u8], disk: &[u8]) -> (result: Result<Vec<u8>, AppError>)
    ensures
        match merged(memory@, disk@) {
            Ok(bytes) => result matches Ok(found) && found@ == bytes,
            Err(error) => result matches Err(found) && found == error,
        },
{
    let disk_image = match parse_disk_image(disk) {
        Ok(image) => image,
        Err(error) => {
            return Err(AppError::Parse(error));
        },
    };
    let entry_point = validate_header_evidence(memory, &disk_image.model)?;
    let header_size: usize = disk_header_size(disk, &disk_image.model)?;
    if header_size > memory.len() {
        return Err(AppError::DiskHeadersExceedCapture);
    }
    let mut repaired: Vec<u8> = slice_to_vec(memory);
    let headers = &disk[0..header_size];
    assert(headers@ =~= disk@.take(header_size as int));
    copy_into(&mut repaired, 0, headers);
    if let Some(rva) = entry_point {
        write_u32(&mut repaired, disk_image.model.headers.entry_point_offset, rva)?;
    }
    Ok(repaired)
}

/// Finds the bytes that a file is rebuilt from.
pub fn resolve_source_bytes<'a>(
    memory: &'a [u8],
    regions: &[RegionEvidence],
    disk_headers: Option<&[u8]>,
) -> (result: Result<(Source<'a>, bool), AppError>)
    ensures
        match source_bytes(memory@, regions@, optional_bytes(disk_headers)) {
            Ok((bytes, from_disk)) => result matches Ok((source, used)) && source@ == bytes && used
                == from_disk,
            Err(error) => result matches Err(found) && found == error,
        },
{
    let (initial, from_disk): (Source<'a>, bool) = match parse_memory_image(memory) {
        Ok(_) => (Source::Captured(memory), false),
        Err(memory_error) => {
            let disk = match disk_headers {
                Some(disk) => disk,
                None => {
                    return Err(AppError::Parse(memory_error));
                },
            };
            let repaired = merge_header_evidence(memory, disk)?;
            match parse_memory_image(repaired.as_slice()) {
                Ok(_) => {},
                Err(disk_error) => {
                    return Err(
                        AppError::DiskRepairFailed { memory: memory_error, disk: disk_error },
                    );
                },
            }
            (Source::Repaired(repaired), true)
        },
    };
    let recovered = match parse_memory_image(initial.bytes()) {
        Ok(image) => recover_section_headers(image.bytes, &image.model, regions)?,
        Err(error) => {
            return Err(AppError::Parse(error));
        },
    };
    match recovered {
        Some(bytes) => Ok((Source::Repaired(bytes), from_disk)),
        None => Ok((initial, from_disk)),
    }
}

/// Headers from disk replace captured headers only: the rest of the image stays as it was
/// captured, and a captured entry point that is kept stands in the result.
pub proof fn law_merging_keeps_the_captured_body(memory: Seq<u8>, disk: Seq<u8>)
    ensures
        merged(memory, disk) matches Ok(bytes) ==> {
            let model = disk_model(disk)->Ok_0;
            let size = disk_header_end(disk, model)->Ok_0;
            &&& bytes.len() == memory.len()
            &&& forall|p: int|
                size <= p < memory.len() && !(model.headers.entry_point_offset <= p
                    < model.headers.entry_point_offset + 4) ==> #[trigger] bytes[p] == memory[p]
            &&& kept_entry_point(memory, model) == Ok::<Option<u32>, AppError>(None)
                ==> bytes.take(size) == disk.take(size)
            &&& kept_entry_point(memory, model) matches Ok(Some(rva)) ==> get_u32(
                bytes,
                model.headers.entry_point_offset as int,
            ) == Ok::<u32, AppError>(rva)
        },
{
    if let Ok(bytes) = merged(memory, disk) {
        let model = disk_model(disk)->Ok_0;
        let size = disk_header_end(disk, model)->Ok_0;
        let replaced = overwrite(memory, 0, disk.take(size));
        if let Ok(Some(rva)) = kept_entry_point(memory, model) {
            crate::pe::image::law_fields_read_back(
                replaced,
                model.headers.entry_point_offset as int,
                0,
                rva,
                0,
            );
        } else {
            assert(bytes.take(size) =~= disk.take(size));
        }
    }
}

} // verus!
