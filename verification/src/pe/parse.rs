//! Finding the headers of an image.

use vstd::prelude::*;

use crate::error::ParseError;
use crate::pe::align::{check_power_of_two, is_power_of_two};
use crate::pe::image::{fits, read_u16, read_u32, u16_at, u32_at};
use crate::pe::{ModelView, PeHeaders, PeImage, PeKind, PeModel, Rva, SectionModel};

verus! {

const DOS_MAGIC: u16 = 0x5A4D;

const DOS_HEADER_SIZE: usize = 0x40;

const LFANEW_OFFSET: usize = 0x3c;

const NT_SIGNATURE: u32 = 0x0000_4550;

const FILE_HEADER_END: usize = 24;

const MACHINE_I386: u16 = 0x014C;

const MACHINE_AMD64: u16 = 0x8664;

const MAGIC_PE32: u16 = 0x010B;

const MAGIC_PE32_PLUS: u16 = 0x020B;

const IMAGE_FILE_DLL: u16 = 0x2000;

const SECTION_HEADER_SIZE: usize = 40;

const MAX_SECTIONS: u16 = 96;

const MAX_DIRECTORIES: u32 = 16;

const SALVAGE_STEP: usize = 4;

const SALVAGE_LIMIT: usize = 0x1_0000;

/// The format that the machine and the optional-header magic agree on.
pub open spec fn format_of(machine: u16, magic: u16) -> Option<PeKind> {
    if machine == 0x8664 && magic == 0x020B {
        Some(PeKind::Pe32Plus)
    } else if machine == 0x014C && magic == 0x010B {
        Some(PeKind::Pe32)
    } else {
        None
    }
}

/// The size of the optional header before its data directories.
pub open spec fn fixed_optional_size(kind: PeKind) -> int {
    match kind {
        PeKind::Pe32 => 96,
        PeKind::Pe32Plus => 112,
    }
}

/// The section that the table entry at `offset` describes.
pub open spec fn section_at(bytes: Seq<u8>, offset: int) -> SectionModel {
    SectionModel {
        name: [
            bytes[offset],
            bytes[offset + 1],
            bytes[offset + 2],
            bytes[offset + 3],
            bytes[offset + 4],
            bytes[offset + 5],
            bytes[offset + 6],
            bytes[offset + 7],
        ],
        header_offset: offset as usize,
        virtual_address: Rva(u32_at(bytes, offset + 12)),
        virtual_size: u32_at(bytes, offset + 8),
        raw_size: u32_at(bytes, offset + 16),
        characteristics: u32_at(bytes, offset + 36),
    }
}

/// How many data directories there are: as many as are declared, as the format allows and
/// as the optional header has room for.
pub open spec fn directory_total(kind: PeKind, optional_size: int, declared: int) -> int {
    let room = (optional_size - fixed_optional_size(kind)) / 8;
    let limited = if declared < 16 {
        declared
    } else {
        16
    };
    if limited < room {
        limited
    } else {
        room
    }
}

/// The header fields of an image whose NT headers stand at `nt`.
pub open spec fn headers_at(bytes: Seq<u8>, nt: int, kind: PeKind, salvaged: bool) -> PeHeaders {
    let optional = nt + 24;
    let fixed = fixed_optional_size(kind);
    PeHeaders {
        kind,
        is_dll: u16_at(bytes, nt + 22) & 0x2000 != 0,
        subsystem: u16_at(bytes, optional + 68),
        salvaged,
        section_alignment: u32_at(bytes, optional + 32),
        file_alignment: u32_at(bytes, optional + 36),
        image_size: u32_at(bytes, optional + 56),
        directory_count: directory_total(
            kind,
            u16_at(bytes, nt + 20) as int,
            u32_at(bytes, optional + fixed - 4) as int,
        ) as usize,
        nt_offset: nt as usize,
        size_of_code_offset: (optional + 4) as usize,
        size_of_initialized_data_offset: (optional + 8) as usize,
        size_of_uninitialized_data_offset: (optional + 12) as usize,
        entry_point_offset: (optional + 16) as usize,
        base_of_code_offset: (optional + 20) as usize,
        image_base_offset: match kind {
            PeKind::Pe32 => (optional + 28) as usize,
            PeKind::Pe32Plus => (optional + 24) as usize,
        },
        size_of_image_offset: (optional + 56) as usize,
        size_of_headers_offset: (optional + 60) as usize,
        dll_characteristics_offset: (optional + 70) as usize,
        number_of_directories_offset: (optional + fixed - 4) as usize,
        directories_offset: (optional + fixed) as usize,
    }
}

/// The structure of an image whose NT headers stand at `nt`, or why there is none.
pub open spec fn model_at(bytes: Seq<u8>, nt: int, salvaged: bool) -> Result<
    ModelView,
    ParseError,
> {
    if !fits(bytes, nt, 26) {
        Err(ParseError::Truncated)
    } else if u32_at(bytes, nt) != 0x4550 {
        Err(ParseError::MissingSignature)
    } else {
        match format_of(u16_at(bytes, nt + 4), u16_at(bytes, nt + 24)) {
            None => Err(ParseError::UnsupportedFormat),
            Some(kind) => {
                let count = u16_at(bytes, nt + 6);
                let optional_size = u16_at(bytes, nt + 20);
                let table = nt + 24 + optional_size;
                if optional_size < fixed_optional_size(kind) {
                    Err(ParseError::OptionalHeaderTooSmall)
                } else if count == 0 || count > 96 {
                    Err(ParseError::BadSectionCount)
                } else if !fits(bytes, table, 40 * count) {
                    Err(ParseError::Truncated)
                } else {
                    let headers = headers_at(bytes, nt, kind, salvaged);
                    if !is_power_of_two(headers.section_alignment as int) || !is_power_of_two(
                        headers.file_alignment as int,
                    ) {
                        Err(ParseError::BadAlignment)
                    } else if headers.image_size == 0 {
                        Err(ParseError::EmptyImage)
                    } else {
                        Ok(
                            ModelView {
                                headers,
                                sections: Seq::new(
                                    count as nat,
                                    |i: int| section_at(bytes, table + 40 * i),
                                ),
                            },
                        )
                    }
                }
            },
        }
    }
}

/// Where the DOS header says that the NT headers stand.
pub open spec fn dos_target(bytes: Seq<u8>) -> Result<int, ParseError> {
    if bytes.len() < 0x40 || u16_at(bytes, 0) != 0x5A4D {
        Err(ParseError::MissingDosHeader)
    } else {
        Ok(u32_at(bytes, 0x3c) as int)
    }
}

/// The structure that the DOS header leads to.
pub open spec fn dos_model(bytes: Seq<u8>) -> Result<ModelView, ParseError> {
    match dos_target(bytes) {
        Err(error) => Err(error),
        Ok(nt) => model_at(bytes, nt, false),
    }
}

/// The structure at the first aligned position from `offset` on that has one, within the
/// range that is searched; `otherwise` where none has.
pub open spec fn salvage_from(bytes: Seq<u8>, offset: int, otherwise: ParseError) -> Result<
    ModelView,
    ParseError,
>
    decreases 0x1_0004 - offset,
{
    if offset >= 0x1_0000 || offset >= bytes.len() {
        Err(otherwise)
    } else {
        match model_at(bytes, offset, true) {
            Ok(model) => Ok(model),
            Err(_) => salvage_from(bytes, offset + 4, otherwise),
        }
    }
}

/// The structure of a captured image. Where the DOS header does not lead to usable NT
/// headers, they are searched for.
pub open spec fn memory_model(bytes: Seq<u8>) -> Result<ModelView, ParseError> {
    match dos_model(bytes) {
        Ok(model) => Ok(model),
        Err(error) => salvage_from(bytes, 0, error),
    }
}

/// Whether every section lies inside the declared image.
pub open spec fn sections_inside(model: ModelView) -> bool {
    forall|i: int|
        0 <= i < model.sections.len() ==> (#[trigger] model.sections[i]).start()
            + model.sections[i].declared() <= model.headers.image_size
}

/// The structure of a stored image: the DOS header has to lead to it, and its sections
/// have to lie inside the declared image.
pub open spec fn disk_model(bytes: Seq<u8>) -> Result<ModelView, ParseError> {
    match dos_model(bytes) {
        Err(error) => Err(error),
        Ok(model) => if sections_inside(model) {
            Ok(model)
        } else {
            Err(ParseError::SectionOutsideImage)
        },
    }
}

/// What a parse returned, given the structure that was to be found.
pub open spec fn parsed(
    expected: Result<ModelView, ParseError>,
    bytes: Seq<u8>,
    result: Result<PeImage<'_>, ParseError>,
) -> bool {
    match expected {
        Ok(model) => result matches Ok(image) && image.bytes@ == bytes && image.model@ == model,
        Err(error) => result matches Err(found) && found == error,
    }
}

fn section_from(bytes: &[u8], offset: usize) -> (section: SectionModel)
    requires
        offset + 40 <= bytes@.len(),
    ensures
        section == section_at(bytes@, offset as int),
{
    SectionModel {
        name: [
            bytes[offset],
            bytes[offset + 1],
            bytes[offset + 2],
            bytes[offset + 3],
            bytes[offset + 4],
            bytes[offset + 5],
            bytes[offset + 6],
            bytes[offset + 7],
        ],
        header_offset: offset,
        virtual_address: Rva(field_u32(bytes, offset + 12)),
        virtual_size: field_u32(bytes, offset + 8),
        raw_size: field_u32(bytes, offset + 16),
        characteristics: field_u32(bytes, offset + 36),
    }
}

fn field_u32(bytes: &[u8], offset: usize) -> (value: u32)
    requires
        offset + 4 <= bytes@.len(),
    ensures
        value == u32_at(bytes@, offset as int),
{
    match read_u32(bytes, offset) {
        Ok(value) => value,
        Err(_) => 0,
    }
}

fn field_u16(bytes: &[u8], offset: usize) -> (value: u16)
    requires
        offset + 2 <= bytes@.len(),
    ensures
        value == u16_at(bytes@, offset as int),
{
    match read_u16(bytes, offset) {
        Ok(value) => value,
        Err(_) => 0,
    }
}

fn headers_from(bytes: &[u8], nt: usize, kind: PeKind, salvaged: bool) -> (headers: PeHeaders)
    requires
        nt + 24 + u16_at(bytes@, nt + 20) <= bytes@.len(),
        fixed_optional_size(kind) <= u16_at(bytes@, nt + 20),
    ensures
        headers == headers_at(bytes@, nt as int, kind, salvaged),
{
    let total: usize = bytes.len();
    let optional: usize = nt + 24;
    let fixed: usize = match kind {
        PeKind::Pe32 => 96,
        PeKind::Pe32Plus => 112,
    };
    let optional_size: usize = field_u16(bytes, nt + 20) as usize;
    let room: usize = (optional_size - fixed) / 8;
    let declared: u32 = field_u32(bytes, optional + fixed - 4);
    let limited: usize = if declared < MAX_DIRECTORIES {
        declared as usize
    } else {
        MAX_DIRECTORIES as usize
    };
    PeHeaders {
        kind,
        is_dll: field_u16(bytes, nt + 22) & IMAGE_FILE_DLL != 0,
        subsystem: field_u16(bytes, optional + 68),
        salvaged,
        section_alignment: field_u32(bytes, optional + 32),
        file_alignment: field_u32(bytes, optional + 36),
        image_size: field_u32(bytes, optional + 56),
        directory_count: if limited < room {
            limited
        } else {
            room
        },
        nt_offset: nt,
        size_of_code_offset: optional + 4,
        size_of_initialized_data_offset: optional + 8,
        size_of_uninitialized_data_offset: optional + 12,
        entry_point_offset: optional + 16,
        base_of_code_offset: optional + 20,
        image_base_offset: match kind {
            PeKind::Pe32 => optional + 28,
            PeKind::Pe32Plus => optional + 24,
        },
        size_of_image_offset: optional + 56,
        size_of_headers_offset: optional + 60,
        dll_characteristics_offset: optional + 70,
        number_of_directories_offset: optional + fixed - 4,
        directories_offset: optional + fixed,
    }
}

/// Reads the structure of an image whose NT headers stand at `nt`.
fn parse_at(bytes: &[u8], nt: usize, salvaged: bool) -> (result: Result<PeModel, ParseError>)
    ensures
        match model_at(bytes@, nt as int, salvaged) {
            Ok(model) => result matches Ok(found) && found@ == model,
            Err(error) => result matches Err(found) && found == error,
        },
{
    let total: usize = bytes.len();
    if total < 26 || nt > total - 26 {
        return Err(ParseError::Truncated);
    }
    if field_u32(bytes, nt) != NT_SIGNATURE {
        return Err(ParseError::MissingSignature);
    }
    let machine: u16 = field_u16(bytes, nt + 4);
    let magic: u16 = field_u16(bytes, nt + 24);
    let kind = if machine == MACHINE_AMD64 && magic == MAGIC_PE32_PLUS {
        PeKind::Pe32Plus
    } else if machine == MACHINE_I386 && magic == MAGIC_PE32 {
        PeKind::Pe32
    } else {
        return Err(ParseError::UnsupportedFormat);
    };
    let fixed: u16 = match kind {
        PeKind::Pe32 => 96,
        PeKind::Pe32Plus => 112,
    };
    let count: u16 = field_u16(bytes, nt + 6);
    let optional_size: u16 = field_u16(bytes, nt + 20);
    if optional_size < fixed {
        return Err(ParseError::OptionalHeaderTooSmall);
    }
    if count == 0 || count > MAX_SECTIONS {
        return Err(ParseError::BadSectionCount);
    }
    let needed: usize = FILE_HEADER_END + optional_size as usize + SECTION_HEADER_SIZE * (
    count as usize);
    if total < needed || nt > total - needed {
        return Err(ParseError::Truncated);
    }
    let table: usize = nt + FILE_HEADER_END + optional_size as usize;
    let headers = headers_from(bytes, nt, kind, salvaged);
    if !check_power_of_two(headers.section_alignment as u64) || !check_power_of_two(
        headers.file_alignment as u64,
    ) {
        return Err(ParseError::BadAlignment);
    }
    if headers.image_size == 0 {
        return Err(ParseError::EmptyImage);
    }
    let mut sections: Vec<SectionModel> = Vec::new();
    let mut index: usize = 0;
    while index < count as usize
        invariant
            index <= count,
            total == bytes@.len(),
            table + 40 * count <= total,
            sections@ == Seq::new(index as nat, |i: int| section_at(bytes@, table + 40 * i)),
        decreases count - index,
    {
        sections.push(section_from(bytes, table + SECTION_HEADER_SIZE * index));
        index = index + 1;
        assert(sections@ =~= Seq::new(index as nat, |i: int| section_at(bytes@, table + 40 * i)));
    }
    Ok(PeModel { headers, sections })
}

/// Follows the DOS header.
fn parse_dos(bytes: &[u8]) -> (result: Result<PeModel, ParseError>)
    ensures
        match dos_model(bytes@) {
            Ok(model) => result matches Ok(found) && found@ == model,
            Err(error) => result matches Err(found) && found == error,
        },
{
    if bytes.len() < DOS_HEADER_SIZE || field_u16(bytes, 0) != DOS_MAGIC {
        return Err(ParseError::MissingDosHeader);
    }
    parse_at(bytes, field_u32(bytes, LFANEW_OFFSET) as usize, false)
}

/// Parses a captured image.
pub fn parse_memory_image(bytes: &[u8]) -> (result: Result<PeImage<'_>, ParseError>)
    ensures
        parsed(memory_model(bytes@), bytes@, result),
{
    let error = match parse_dos(bytes) {
        Ok(model) => {
            return Ok(PeImage { bytes, model });
        },
        Err(error) => error,
    };
    let mut offset: usize = 0;
    while offset < SALVAGE_LIMIT && offset < bytes.len()
        invariant
            salvage_from(bytes@, 0, error) == salvage_from(bytes@, offset as int, error),
            memory_model(bytes@) == salvage_from(bytes@, 0, error),
        decreases SALVAGE_LIMIT + SALVAGE_STEP - offset,
    {
        match parse_at(bytes, offset, true) {
            Ok(model) => {
                return Ok(PeImage { bytes, model });
            },
            Err(_) => {},
        }
        offset = offset + SALVAGE_STEP;
    }
    Err(error)
}

/// Parses an image that is laid out as a file.
pub fn parse_disk_image(bytes: &[u8]) -> (result: Result<PeImage<'_>, ParseError>)
    ensures
        parsed(disk_model(bytes@), bytes@, result),
{
    let model = parse_dos(bytes)?;
    let mut index: usize = 0;
    while index < model.sections.len()
        invariant
            dos_model(bytes@) == Ok::<ModelView, ParseError>(model@),
            index <= model.sections@.len(),
            forall|i: int|
                0 <= i < index ==> (#[trigger] model.sections@[i]).start()
                    + model.sections@[i].declared() <= model.headers.image_size,
        decreases model.sections@.len() - index,
    {
        let section = model.sections[index];
        if section.virtual_address.0 as u64 + section.span() as u64
            > model.headers.image_size as u64 {
            assert(!sections_inside(model@)) by {
                assert(model@.sections[index as int] == section);
            }
            return Err(ParseError::SectionOutsideImage);
        }
        index = index + 1;
    }
    Ok(PeImage { bytes, model })
}

/// The size that the headers of a captured image declare.
pub fn memory_image_size(bytes: &[u8]) -> (result: Result<u32, ParseError>)
    ensures
        result == match memory_model(bytes@) {
            Ok(model) => Ok(model.headers.image_size),
            Err(error) => Err(error),
        },
{
    match parse_memory_image(bytes) {
        Ok(image) => Ok(image.model.headers.image_size),
        Err(error) => Err(error),
    }
}

/// An image that is accepted as a stored file is accepted as a captured one too, with the
/// same structure; and headers that had to be searched for are marked.
pub proof fn law_stored_images_parse_as_captured(bytes: Seq<u8>)
    ensures
        disk_model(bytes) is Ok ==> memory_model(bytes) == disk_model(bytes),
        memory_model(bytes) matches Ok(model) ==> (model.headers.salvaged <==> dos_model(
            bytes,
        ) is Err),
{
    if let Err(error) = dos_model(bytes) {
        lemma_salvaged(bytes, 0, error);
    }
}

proof fn lemma_salvaged(bytes: Seq<u8>, offset: int, otherwise: ParseError)
    ensures
        salvage_from(bytes, offset, otherwise) matches Ok(model) ==> model.headers.salvaged,
    decreases 0x1_0004 - offset,
{
    if offset < 0x1_0000 && offset < bytes.len() {
        lemma_salvaged(bytes, offset + 4, otherwise);
    }
}

/// Whether usable NT headers stand at `nt`: the signature, a machine and a magic that agree,
/// an optional header and a section table that fit, alignments that are powers of two, and an
/// image that is not empty.
#[verifier::opaque]
pub open spec fn headers_stand(bytes: Seq<u8>, nt: int) -> bool {
    let machine = u16_at(bytes, nt + 4);
    let magic = u16_at(bytes, nt + 24);
    let count = u16_at(bytes, nt + 6);
    let optional_size = u16_at(bytes, nt + 20);
    &&& 0 <= nt && nt + 26 <= bytes.len()
    &&& bytes[nt] == 0x50 && bytes[nt + 1] == 0x45 && bytes[nt + 2] == 0 && bytes[nt + 3] == 0
    &&& (machine == 0x8664 && magic == 0x020B && optional_size >= 112) || (machine == 0x014C
        && magic == 0x010B && optional_size >= 96)
    &&& 0 < count <= 96
    &&& nt + 24 + optional_size + 40 * count <= bytes.len()
    &&& is_power_of_two(u32_at(bytes, nt + 56) as int)
    &&& is_power_of_two(u32_at(bytes, nt + 60) as int)
    &&& u32_at(bytes, nt + 80) != 0
}

/// Whether the structure is that of the NT headers at `nt`.
#[verifier::opaque]
pub open spec fn describes_headers(bytes: Seq<u8>, nt: int, model: ModelView) -> bool {
    let optional_size = u16_at(bytes, nt + 20);
    let fixed: int = match model.headers.kind {
        PeKind::Pe32 => 96,
        PeKind::Pe32Plus => 112,
    };
    &&& model.headers.kind == if u16_at(bytes, nt + 4) == 0x8664 {
        PeKind::Pe32Plus
    } else {
        PeKind::Pe32
    }
    &&& model.headers.is_dll == (u16_at(bytes, nt + 22) & 0x2000 != 0)
    &&& model.headers.subsystem == u16_at(bytes, nt + 92)
    &&& model.headers.section_alignment == u32_at(bytes, nt + 56)
    &&& model.headers.file_alignment == u32_at(bytes, nt + 60)
    &&& model.headers.image_size == u32_at(bytes, nt + 80)
    &&& model.headers.nt_offset == nt
    &&& model.headers.entry_point_offset == nt + 40
    &&& model.headers.size_of_image_offset == nt + 80
    &&& model.headers.size_of_headers_offset == nt + 84
    &&& model.headers.directories_offset == nt + 24 + fixed
    &&& model.headers.directory_count <= 16
    &&& model.headers.directory_count <= u32_at(bytes, nt + 20 + fixed)
    &&& fixed + 8 * model.headers.directory_count <= optional_size
    &&& model.headers.directory_count == 16 || model.headers.directory_count == u32_at(
        bytes,
        nt + 20 + fixed,
    ) || fixed + 8 * model.headers.directory_count + 8 > optional_size
    &&& model.sections.len() == u16_at(bytes, nt + 6)
    &&& forall|i: int|
        0 <= i < model.sections.len() ==> {
            let entry = nt + 24 + optional_size + 40 * i;
            &&& (#[trigger] model.sections[i]).header_offset == entry
            &&& model.sections[i].virtual_size == u32_at(bytes, entry + 8)
            &&& model.sections[i].virtual_address.0 == u32_at(bytes, entry + 12)
            &&& model.sections[i].raw_size == u32_at(bytes, entry + 16)
            &&& model.sections[i].characteristics == u32_at(bytes, entry + 36)
            &&& model.sections[i].name@ == bytes.subrange(entry, entry + 8)
        }
}

/// NT headers give a structure exactly where they are usable, and it says what they say.
pub proof fn lemma_model_at(bytes: Seq<u8>, nt: int, salvaged: bool)
    requires
        bytes.len() <= usize::MAX,
    ensures
        model_at(bytes, nt, salvaged) is Ok <==> headers_stand(bytes, nt),
        model_at(bytes, nt, salvaged) matches Ok(model) ==> describes_headers(bytes, nt, model),
{
    reveal(headers_stand);
    reveal(describes_headers);
    if fits(bytes, nt, 26) {
        assert(u32_at(bytes, nt) == 0x4550 <==> bytes[nt] == 0x50 && bytes[nt + 1] == 0x45
            && bytes[nt + 2] == 0 && bytes[nt + 3] == 0);
    }
    if let Ok(model) = model_at(bytes, nt, salvaged) {
        let table = nt + 24 + u16_at(bytes, nt + 20);
        assert forall|i: int| 0 <= i < model.sections.len() implies {
            let entry = table + 40 * i;
            &&& (#[trigger] model.sections[i]).header_offset == entry
            &&& model.sections[i].virtual_size == u32_at(bytes, entry + 8)
            &&& model.sections[i].virtual_address.0 == u32_at(bytes, entry + 12)
            &&& model.sections[i].raw_size == u32_at(bytes, entry + 16)
            &&& model.sections[i].characteristics == u32_at(bytes, entry + 36)
            &&& model.sections[i].name@ == bytes.subrange(entry, entry + 8)
        } by {
            assert(model.sections[i].name@ =~= bytes.subrange(table + 40 * i, table + 40 * i + 8));
        }
    }
}

proof fn lemma_salvage_finds(bytes: Seq<u8>, from: int, otherwise: ParseError, nt: int)
    requires
        bytes.len() <= usize::MAX,
        0 <= from <= nt < 0x1_0000,
        (nt - from) % 4 == 0,
        headers_stand(bytes, nt),
        forall|other: int|
            from <= other < nt && (other - from) % 4 == 0 ==> !#[trigger] headers_stand(
                bytes,
                other,
            ),
    ensures
        salvage_from(bytes, from, otherwise) == model_at(bytes, nt, true),
    decreases nt - from,
{
    lemma_model_at(bytes, from, true);
    assert(from < bytes.len()) by {
        reveal(headers_stand);
    }
    if from < nt {
        assert(!headers_stand(bytes, from));
        assert(from + 4 <= nt);
        assert forall|other: int|
            from + 4 <= other < nt && (other - (from + 4)) % 4 == 0 implies !#[trigger] headers_stand(
            bytes,
            other,
        ) by {
            assert((other - from) % 4 == 0);
        }
        lemma_salvage_finds(bytes, from + 4, otherwise, nt);
    }
}

/// A captured image is parsed by the NT headers that its DOS header leads to, where they are
/// usable. Else it is parsed by the first usable ones at a multiple of four in the range that
/// is searched. The structure says what those headers say.
pub proof fn law_usable_headers_are_found(bytes: Seq<u8>, nt: int)
    requires
        bytes.len() <= usize::MAX,
        headers_stand(bytes, nt),
        ({
            let led = bytes.len() >= 0x40 && bytes[0] == 0x4d && bytes[1] == 0x5a;
            ||| led && nt == u32_at(bytes, 0x3c)
            ||| {
                &&& !led || !headers_stand(bytes, u32_at(bytes, 0x3c) as int)
                &&& nt < 0x1_0000 && nt % 4 == 0
                &&& forall|other: int|
                    0 <= other < nt && other % 4 == 0 ==> !#[trigger] headers_stand(bytes, other)
            }
        }),
    ensures
        memory_model(bytes) matches Ok(model) && describes_headers(bytes, nt, model),
{
    lemma_model_at(bytes, nt, false);
    lemma_model_at(bytes, nt, true);
    let led = bytes.len() >= 0x40 && bytes[0] == 0x4d && bytes[1] == 0x5a;
    assert(dos_target(bytes) is Ok <==> led);
    if led {
        lemma_model_at(bytes, u32_at(bytes, 0x3c) as int, false);
    }
    if let Err(error) = dos_model(bytes) {
        lemma_salvage_finds(bytes, 0, error, nt);
    }
}

/// A stored image is accepted exactly where its DOS header leads to usable NT headers and
/// every section lies in the image that they declare.
pub proof fn law_stored_images_are_accepted(bytes: Seq<u8>)
    requires
        bytes.len() <= usize::MAX,
    ensures
        disk_model(bytes) is Ok <==> bytes.len() >= 0x40 && bytes[0] == 0x4d && bytes[1] == 0x5a
            && headers_stand(bytes, u32_at(bytes, 0x3c) as int) && sections_declared_inside(
            bytes,
            u32_at(bytes, 0x3c) as int,
        ),
        disk_model(bytes) matches Ok(model) ==> describes_headers(
            bytes,
            u32_at(bytes, 0x3c) as int,
            model,
        ),
{
    let nt = u32_at(bytes, 0x3c) as int;
    lemma_model_at(bytes, nt, false);
    if let Ok(model) = dos_model(bytes) {
        reveal(describes_headers);
        let table = nt + 24 + u16_at(bytes, nt + 20);
        if sections_inside(model) {
            assert forall|i: int| 0 <= i < u16_at(bytes, nt + 6) implies #[trigger] entry_inside(
                bytes,
                table + 40 * i,
                u32_at(bytes, nt + 80),
            ) by {
                assert(model.sections[i].header_offset == table + 40 * i);
            }
        }
        if sections_declared_inside(bytes, nt) {
            assert forall|i: int| 0 <= i < model.sections.len() implies (
            #[trigger] model.sections[i]).start() + model.sections[i].declared()
                <= model.headers.image_size by {
                assert(entry_inside(bytes, table + 40 * i, u32_at(bytes, nt + 80)));
            }
        }
    }
}

/// Whether both sizes that the entry gives end in an image of the size.
pub open spec fn entry_inside(bytes: Seq<u8>, entry: int, size: u32) -> bool {
    &&& u32_at(bytes, entry + 12) + u32_at(bytes, entry + 8) <= size
    &&& u32_at(bytes, entry + 12) + u32_at(bytes, entry + 16) <= size
}

/// Whether every section lies in the image that the headers at `nt` declare.
pub open spec fn sections_declared_inside(bytes: Seq<u8>, nt: int) -> bool {
    forall|i: int|
        0 <= i < u16_at(bytes, nt + 6) ==> #[trigger] entry_inside(
            bytes,
            nt + 24 + u16_at(bytes, nt + 20) + 40 * i,
            u32_at(bytes, nt + 80),
        )
}

} // verus!
