//! Header fields of a rebuilt file.

use pelite::PeFile;
use vstd::prelude::*;

use crate::error::{AppError, ReparseError};
use crate::pe::align::{align_up_u64, aligned};
use crate::pe::image::{
    fits, get_u16, get_u32, law_fields_read_back, law_writes_leave_other_fields, le_u16, le_u32,
    put_bytes, put_u16, put_u32, put_u64, read_u16, read_u32, rewrote, u16_at, u32_at, write_u16,
    write_u32, write_u64,
};
use crate::pe::rebuild::{
    greater, lesser, IMAGE_SCN_CNT_CODE, IMAGE_SCN_CNT_INITIALIZED_DATA,
    IMAGE_SCN_CNT_UNINITIALIZED_DATA, SECTION_HEADER_SIZE,
};
use crate::pe::{EntryPointRva, ModelView, PeHeaders, PeKind, PeModel, Rva, SectionModel};

verus! {

pub const DOS_LFANEW_OFFSET: usize = 0x3c;

pub const IMAGE_FILE_EXECUTABLE_IMAGE: u16 = 0x0002;

pub const FILE_CHARACTERISTICS_OFFSET: usize = 22;

pub const CHECKSUM_WORD_SIZE: usize = 2;

pub const MAX_CHECKSUM_WORDS: usize = 0x2000_0000;

/// The end of the section that reaches furthest, by declared sizes.
pub open spec fn sections_end(sections: Seq<SectionModel>) -> int
    decreases sections.len(),
{
    if sections.len() == 0 {
        0
    } else {
        greater(
            sections_end(sections.drop_last()),
            sections.last().start() + sections.last().declared(),
        )
    }
}

/// The image size that covers every section.
pub open spec fn covering_size(model: ModelView) -> Result<u32, AppError> {
    match aligned(
        sections_end(model.sections),
        model.headers.section_alignment as int,
        u64::MAX as int,
    ) {
        Err(error) => Err(error),
        Ok(size) => if size > u32::MAX {
            Err(AppError::ImageTooLarge)
        } else {
            Ok(size as u32)
        },
    }
}

/// `output` with the address that the image was seen at as its base.
pub open spec fn base_written(output: Seq<u8>, model: ModelView, observed_base: u64) -> Result<
    Seq<u8>,
    AppError,
> {
    let offset = model.headers.image_base_offset as int;
    match model.headers.kind {
        PeKind::Pe32 => if observed_base > u32::MAX {
            Err(AppError::ImageBaseTooLarge)
        } else {
            put_u32(output, offset, observed_base as u32)
        },
        PeKind::Pe32Plus => put_u64(output, offset, observed_base),
    }
}

/// `output` with its header size and directory count.
pub open spec fn counts_written(output: Seq<u8>, model: ModelView, header_size: int) -> Result<
    Seq<u8>,
    AppError,
> {
    if header_size > u32::MAX {
        Err(AppError::HeaderSizeTooLarge)
    } else {
        match put_u32(output, model.headers.size_of_headers_offset as int, header_size as u32) {
            Err(error) => Err(error),
            Ok(sized) => if model.headers.directory_count > u32::MAX {
                Err(AppError::DirectoryCountTooLarge)
            } else {
                put_u32(
                    sized,
                    model.headers.number_of_directories_offset as int,
                    model.headers.directory_count as u32,
                )
            },
        }
    }
}

/// `output` with a DOS header that leads to the NT headers.
pub open spec fn dos_written(output: Seq<u8>, model: ModelView) -> Result<Seq<u8>, AppError> {
    match put_u16(output, 0, 0x5A4D) {
        Err(error) => Err(error),
        Ok(marked) => if model.headers.nt_offset > u32::MAX {
            Err(AppError::NtOffsetTooLarge)
        } else {
            put_u32(marked, 0x3c, model.headers.nt_offset as u32)
        },
    }
}

/// `output` with the header fields that do not depend on its sections' contents.
pub open spec fn core_written(
    output: Seq<u8>,
    model: ModelView,
    observed_base: u64,
    header_size: int,
) -> Result<Seq<u8>, AppError> {
    match dos_written(output, model) {
        Err(error) => Err(error),
        Ok(led) => match base_written(led, model, observed_base) {
            Err(error) => Err(error),
            Ok(based) => match covering_size(model) {
                Err(error) => Err(error),
                Ok(size) => match put_u32(
                    based,
                    model.headers.size_of_image_offset as int,
                    size,
                ) {
                    Err(error) => Err(error),
                    Ok(sized) => counts_written(sized, model, header_size),
                },
            },
        },
    }
}

/// The image size that covers every section.
pub fn rebuilt_image_size(model: &PeModel) -> (result: Result<u32, AppError>)
    ensures
        result == covering_size(model@),
{
    let mut end: u64 = 0;
    let mut index: usize = 0;
    assert(model.sections@.take(0) =~= Seq::empty());
    while index < model.sections.len()
        invariant
            index <= model.sections@.len(),
            end == sections_end(model.sections@.take(index as int)),
        decreases model.sections@.len() - index,
    {
        assert(model.sections@.take(index + 1).drop_last() =~= model.sections@.take(index as int));
        let section = model.sections[index];
        let section_end: u64 = section.virtual_address.0 as u64 + section.span() as u64;
        if section_end > end {
            end = section_end;
        }
        index = index + 1;
    }
    assert(model.sections@.take(index as int) =~= model.sections@);
    let size: u64 = align_up_u64(end, model.headers.section_alignment as u64)?;
    if size > 0xFFFF_FFFF {
        return Err(AppError::ImageTooLarge);
    }
    Ok(size as u32)
}

/// Writes the address that the image was seen at.
pub fn write_image_base(output: &mut [u8], model: &PeModel, observed_base: u64) -> (result: Result<
    (),
    AppError,
>)
    ensures
        rewrote(
            base_written(old(output)@, model@, observed_base),
            old(output)@,
            result,
            final(output)@,
        ),
        result is Err ==> final(output)@ == old(output)@,
{
    match model.headers.kind {
        PeKind::Pe32 => {
            if observed_base > 0xFFFF_FFFF {
                return Err(AppError::ImageBaseTooLarge);
            }
            write_u32(output, model.headers.image_base_offset, observed_base as u32)
        },
        PeKind::Pe32Plus => write_u64(output, model.headers.image_base_offset, observed_base),
    }
}

/// Writes the header fields that do not depend on the sections' contents.
pub fn write_core_header_fields(
    output: &mut [u8],
    model: &PeModel,
    observed_base: u64,
    header_size: usize,
) -> (result: Result<(), AppError>)
    ensures
        rewrote(
            core_written(old(output)@, model@, observed_base, header_size as int),
            old(output)@,
            result,
            final(output)@,
        ),
        old(output)@.len() < 2 ==> final(output)@ == old(output)@,
{
    write_u16(output, 0, 0x5A4D)?;
    if model.headers.nt_offset > 0xFFFF_FFFF {
        return Err(AppError::NtOffsetTooLarge);
    }
    write_u32(output, DOS_LFANEW_OFFSET, model.headers.nt_offset as u32)?;
    write_image_base(output, model, observed_base)?;
    let image_size: u32 = rebuilt_image_size(model)?;
    write_u32(output, model.headers.size_of_image_offset, image_size)?;
    if header_size > 0xFFFF_FFFF {
        return Err(AppError::HeaderSizeTooLarge);
    }
    write_u32(output, model.headers.size_of_headers_offset, header_size as u32)?;
    if model.headers.directory_count > 0xFFFF_FFFF {
        return Err(AppError::DirectoryCountTooLarge);
    }
    write_u32(
        output,
        model.headers.number_of_directories_offset,
        model.headers.directory_count as u32,
    )
}

/// `output` with an entry point that was given by hand; one outside the executable sections
/// is refused.
pub open spec fn entry_written(
    output: Seq<u8>,
    model: ModelView,
    entry_point: Option<EntryPointRva>,
) -> Result<Seq<u8>, AppError> {
    match entry_point {
        None => Ok(output),
        Some(entry) => if !model.executable_at(entry.0 as int) {
            Err(AppError::EntryPointNotExecutable(entry.0))
        } else {
            put_u32(output, model.headers.entry_point_offset as int, entry.0)
        },
    }
}

/// Writes an entry point that was given by hand.
pub fn apply_entry_point(
    output: &mut [u8],
    model: &PeModel,
    entry_point: Option<EntryPointRva>,
) -> (result: Result<(), AppError>)
    ensures
        rewrote(
            entry_written(old(output)@, model@, entry_point),
            old(output)@,
            result,
            final(output)@,
        ),
        result is Err ==> final(output)@ == old(output)@,
{
    let entry = match entry_point {
        Some(entry) => entry,
        None => {
            return Ok(());
        },
    };
    if !model.executable_rva(Rva(entry.0)) {
        return Err(AppError::EntryPointNotExecutable(entry.0));
    }
    write_u32(output, model.headers.entry_point_offset, entry.0)
}

/// Header fields that sum the sections up.
#[derive(Clone, Copy, Debug, PartialEq, Eq, Structural)]
pub struct DerivedSizes {
    pub code: u32,
    pub initialized_data: u32,
    pub uninitialized_data: u32,
    pub base_of_code: u32,
}

/// `sizes` with the code of a section added.
pub open spec fn code_added(sizes: DerivedSizes, flags: u32, address: u32, raw_size: u32) -> Result<
    DerivedSizes,
    AppError,
> {
    if flags & IMAGE_SCN_CNT_CODE == 0 {
        Ok(sizes)
    } else if sizes.code + raw_size > u32::MAX {
        Err(AppError::CodeSizeOverflow)
    } else {
        Ok(
            DerivedSizes {
                code: (sizes.code + raw_size) as u32,
                base_of_code: if sizes.base_of_code == 0 || address < sizes.base_of_code {
                    address
                } else {
                    sizes.base_of_code
                },
                ..sizes
            },
        )
    }
}

/// `sizes` with the initialized data of a section added.
pub open spec fn initialized_added(sizes: DerivedSizes, flags: u32, raw_size: u32) -> Result<
    DerivedSizes,
    AppError,
> {
    if flags & IMAGE_SCN_CNT_INITIALIZED_DATA == 0 {
        Ok(sizes)
    } else if sizes.initialized_data + raw_size > u32::MAX {
        Err(AppError::InitializedDataOverflow)
    } else {
        Ok(
            DerivedSizes {
                initialized_data: (sizes.initialized_data + raw_size) as u32,
                ..sizes
            },
        )
    }
}

/// `sizes` with the uninitialized data of a section added: its virtual size, rounded up.
pub open spec fn uninitialized_added(
    sizes: DerivedSizes,
    flags: u32,
    virtual_size: u32,
    file_alignment: u32,
) -> Result<DerivedSizes, AppError> {
    if flags & IMAGE_SCN_CNT_UNINITIALIZED_DATA == 0 {
        Ok(sizes)
    } else {
        match aligned(virtual_size as int, file_alignment as int, u64::MAX as int) {
            Err(error) => Err(error),
            Ok(size) => if size > u32::MAX {
                Err(AppError::UninitializedDataTooLarge)
            } else if sizes.uninitialized_data + size > u32::MAX {
                Err(AppError::UninitializedDataOverflow)
            } else {
                Ok(
                    DerivedSizes {
                        uninitialized_data: (sizes.uninitialized_data + size) as u32,
                        ..sizes
                    },
                )
            },
        }
    }
}

/// `sizes` with the section added whose header stands at `offset`.
pub open spec fn section_added(
    sizes: DerivedSizes,
    output: Seq<u8>,
    offset: int,
    file_alignment: u32,
) -> Result<DerivedSizes, AppError> {
    let flags = u32_at(output, offset + 36);
    let raw_size = u32_at(output, offset + 16);
    if !fits(output, offset, 40) {
        Err(AppError::FieldOutOfRange)
    } else {
        match code_added(sizes, flags, u32_at(output, offset + 12), raw_size) {
            Err(error) => Err(error),
            Ok(with_code) => match initialized_added(with_code, flags, raw_size) {
                Err(error) => Err(error),
                Ok(with_data) => uninitialized_added(
                    with_data,
                    flags,
                    u32_at(output, offset + 8),
                    file_alignment,
                ),
            },
        }
    }
}

/// `sizes` with the sections from `index` up to `count` added, whose table is at `table`.
pub open spec fn sections_added(
    sizes: DerivedSizes,
    output: Seq<u8>,
    table: int,
    file_alignment: u32,
    index: int,
    count: int,
) -> Result<DerivedSizes, AppError>
    decreases count - index,
{
    if index >= count {
        Ok(sizes)
    } else if table + 40 * index > usize::MAX {
        Err(AppError::SectionHeaderOverflow)
    } else {
        match section_added(sizes, output, table + 40 * index, file_alignment) {
            Err(error) => Err(error),
            Ok(next) => sections_added(next, output, table, file_alignment, index + 1, count),
        }
    }
}

/// What the section table of `output` sums up to.
pub open spec fn derived_sizes(output: Seq<u8>, model: ModelView) -> Result<
    DerivedSizes,
    AppError,
> {
    match get_u16(output, model.headers.nt_offset + 6) {
        Err(error) => Err(error),
        Ok(count) => if count < model.sections.len() || count > model.sections.len() + 1 {
            Err(AppError::BadSectionCount)
        } else if model.sections.len() == 0 {
            Err(AppError::NoSectionTable)
        } else {
            sections_added(
                DerivedSizes {
                    code: 0,
                    initialized_data: 0,
                    uninitialized_data: 0,
                    base_of_code: 0,
                },
                output,
                model.sections[0].header_offset as int,
                model.headers.file_alignment,
                0,
                count as int,
            )
        },
    }
}

/// `output` with the fields that sum its section table up.
pub open spec fn sizes_written(output: Seq<u8>, model: ModelView, sizes: DerivedSizes) -> Result<
    Seq<u8>,
    AppError,
> {
    match put_u32(output, model.headers.size_of_code_offset as int, sizes.code) {
        Err(error) => Err(error),
        Ok(first) => match put_u32(
            first,
            model.headers.size_of_initialized_data_offset as int,
            sizes.initialized_data,
        ) {
            Err(error) => Err(error),
            Ok(second) => match put_u32(
                second,
                model.headers.size_of_uninitialized_data_offset as int,
                sizes.uninitialized_data,
            ) {
                Err(error) => Err(error),
                Ok(third) => put_u32(
                    third,
                    model.headers.base_of_code_offset as int,
                    sizes.base_of_code,
                ),
            },
        },
    }
}

/// `output` with the fields that sum its section table up.
pub open spec fn derived_written(output: Seq<u8>, model: ModelView) -> Result<Seq<u8>, AppError> {
    match derived_sizes(output, model) {
        Err(error) => Err(error),
        Ok(sizes) => sizes_written(output, model, sizes),
    }
}

/// The sum of two sizes, or the error of one that does not fit.
pub fn add_size(left: u32, right: u32, error: AppError) -> (result: Result<u32, AppError>)
    ensures
        result == (if left + right > u32::MAX {
            Err(error)
        } else {
            Ok((left + right) as u32)
        }),
{
    match left.checked_add(right) {
        Some(sum) => Ok(sum),
        None => Err(error),
    }
}

impl DerivedSizes {
    /// Adds the section whose header stands at `offset`.
    pub fn add_section(&mut self, output: &[u8], offset: usize, file_alignment: u32) -> (result:
        Result<(), AppError>)
        ensures
            match section_added(*old(self), output@, offset as int, file_alignment) {
                Ok(sizes) => result == Ok::<(), AppError>(()) && *final(self) == sizes,
                Err(error) => result == Err::<(), AppError>(error) && *final(self) == *old(self),
            },
    {
        let total: usize = output.len();
        let virtual_size: u32 = read_u32(output, offset.saturating_add(8))?;
        let virtual_address: u32 = read_u32(output, offset.saturating_add(12))?;
        let raw_size: u32 = read_u32(output, offset.saturating_add(16))?;
        let flags: u32 = read_u32(output, offset.saturating_add(36))?;
        let mut sizes = *self;
        if flags & IMAGE_SCN_CNT_CODE != 0 {
            sizes.code = add_size(sizes.code, raw_size, AppError::CodeSizeOverflow)?;
            if sizes.base_of_code == 0 || virtual_address < sizes.base_of_code {
                sizes.base_of_code = virtual_address;
            }
        }
        if flags & IMAGE_SCN_CNT_INITIALIZED_DATA != 0 {
            sizes.initialized_data = add_size(
                sizes.initialized_data,
                raw_size,
                AppError::InitializedDataOverflow,
            )?;
        }
        if flags & IMAGE_SCN_CNT_UNINITIALIZED_DATA != 0 {
            let size: u64 = align_up_u64(virtual_size as u64, file_alignment as u64)?;
            if size > 0xFFFF_FFFF {
                return Err(AppError::UninitializedDataTooLarge);
            }
            sizes.uninitialized_data = add_size(
                sizes.uninitialized_data,
                size as u32,
                AppError::UninitializedDataOverflow,
            )?;
        }
        *self = sizes;
        Ok(())
    }
}

/// Writes the fields that sum the section table up.
pub fn write_derived_header_fields(output: &mut [u8], model: &PeModel) -> (result: Result<
    (),
    AppError,
>)
    ensures
        rewrote(derived_written(old(output)@, model@), old(output)@, result, final(output)@),
        derived_sizes(old(output)@, model@) is Err ==> final(output)@ == old(output)@,
{
    let total: usize = output.len();
    let count: usize = read_u16(output, model.headers.nt_offset.saturating_add(6))? as usize;
    if count < model.sections.len() || count - model.sections.len() > 1 {
        return Err(AppError::BadSectionCount);
    }
    if model.sections.len() == 0 {
        return Err(AppError::NoSectionTable);
    }
    let table: usize = model.sections[0].header_offset;
    let mut sizes = DerivedSizes {
        code: 0,
        initialized_data: 0,
        uninitialized_data: 0,
        base_of_code: 0,
    };
    let mut index: usize = 0;
    while index < count
        invariant
            index <= count <= 0xFFFF,
            output@ == old(output)@,
            derived_sizes(output@, model@) == sections_added(
                sizes,
                output@,
                table as int,
                model@.headers.file_alignment,
                index as int,
                count as int,
            ),
        decreases count - index,
    {
        let delta: usize = index * SECTION_HEADER_SIZE;
        if table > usize::MAX - delta {
            return Err(AppError::SectionHeaderOverflow);
        }
        sizes.add_section(output, table + delta, model.headers.file_alignment)?;
        index = index + 1;
    }
    write_u32(output, model.headers.size_of_code_offset, sizes.code)?;
    write_u32(output, model.headers.size_of_initialized_data_offset, sizes.initialized_data)?;
    write_u32(output, model.headers.size_of_uninitialized_data_offset, sizes.uninitialized_data)?;
    write_u32(output, model.headers.base_of_code_offset, sizes.base_of_code)
}

/// `output` with the flag of an executable image, and whether it was missing.
pub open spec fn flag_written(output: Seq<u8>, model: ModelView) -> Result<
    (Seq<u8>, bool),
    AppError,
> {
    let offset = model.headers.nt_offset + 22;
    match get_u16(output, offset) {
        Err(error) => Err(error),
        Ok(flags) => if flags & IMAGE_FILE_EXECUTABLE_IMAGE != 0 {
            Ok((output, false))
        } else {
            match put_u16(output, offset, flags | IMAGE_FILE_EXECUTABLE_IMAGE) {
                Err(error) => Err(error),
                Ok(bytes) => Ok((bytes, true)),
            }
        },
    }
}

/// Sets the flag of an executable image, and says whether it was missing.
pub fn ensure_executable_image_flag(output: &mut [u8], model: &PeModel) -> (result: Result<
    bool,
    AppError,
>)
    ensures
        final(output)@.len() == old(output)@.len(),
        match flag_written(old(output)@, model@) {
            Ok((bytes, added)) => result == Ok::<bool, AppError>(added) && final(output)@ == bytes,
            Err(error) => result == Err::<bool, AppError>(error) && final(output)@ == old(output)@,
        },
{
    let total: usize = output.len();
    let offset: usize = model.headers.nt_offset.saturating_add(FILE_CHARACTERISTICS_OFFSET);
    let flags: u16 = read_u16(output, offset)?;
    if flags & IMAGE_FILE_EXECUTABLE_IMAGE != 0 {
        return Ok(false);
    }
    write_u16(output, offset, flags | IMAGE_FILE_EXECUTABLE_IMAGE)?;
    Ok(true)
}

/// `sum` with what exceeds 16 bits added to its low 16 bits.
pub open spec fn folded(sum: int) -> int {
    sum % 0x1_0000 + sum / 0x1_0000
}

/// The folded sum of the first `count` 16-bit words.
pub open spec fn word_sum(bytes: Seq<u8>, count: int) -> int
    decreases count,
{
    if count <= 0 {
        0
    } else {
        folded(word_sum(bytes, count - 1) + u16_at(bytes, 2 * (count - 1)))
    }
}

/// How many whole words are summed up.
pub open spec fn word_count(bytes: Seq<u8>) -> int {
    lesser(bytes.len() as int / 2, 0x2000_0000)
}

/// The folded sum of all words; an odd byte at the end counts as one more.
pub open spec fn byte_sum(bytes: Seq<u8>) -> int {
    let words = word_sum(bytes, word_count(bytes));
    if bytes.len() % 2 != 0 {
        folded(words + bytes.last())
    } else {
        words
    }
}

/// The checksum of a file: the folded sum of its words and its length.
pub open spec fn checksum(bytes: Seq<u8>) -> Result<u32, AppError> {
    let total = folded(byte_sum(bytes)) % 0x1_0000 + bytes.len();
    if total > u32::MAX {
        Err(AppError::ChecksumOverflow)
    } else {
        Ok(total as u32)
    }
}

/// `output` with its checksum, computed with zero in the field's place.
pub open spec fn checksum_written(output: Seq<u8>, model: ModelView) -> Result<
    Seq<u8>,
    AppError,
> {
    let offset = model.headers.size_of_headers_offset + 4;
    match put_u32(output, offset, 0) {
        Err(error) => Err(error),
        Ok(cleared) => match checksum(cleared) {
            Err(error) => Err(error),
            Ok(value) => put_u32(cleared, offset, value),
        },
    }
}

fn fold(sum: u64) -> (result: u64)
    ensures
        result == folded(sum as int),
        sum <= 0x2_FFFF ==> result <= 0x1_0001,
{
    sum % 0x1_0000 + sum / 0x1_0000
}

/// The checksum of a file.
pub fn compute_checksum(bytes: &[u8]) -> (result: Result<u32, AppError>)
    ensures
        result == checksum(bytes@),
{
    let mut sum: u64 = 0;
    let mut word: usize = 0;
    let half: usize = bytes.len() / CHECKSUM_WORD_SIZE;
    while word < MAX_CHECKSUM_WORDS && word < half
        invariant
            half == bytes@.len() / 2,
            word <= half,
            word <= MAX_CHECKSUM_WORDS,
            sum <= 0x1_0001,
            sum == word_sum(bytes@, word as int),
        decreases half - word,
    {
        let value: u16 = read_u16(bytes, word * CHECKSUM_WORD_SIZE)?;
        sum = fold(sum + value as u64);
        word = word + 1;
    }
    assert(word == word_count(bytes@));
    if bytes.len() % CHECKSUM_WORD_SIZE != 0 {
        sum = fold(sum + bytes[bytes.len() - 1] as u64);
    }
    assert(sum == byte_sum(bytes@));
    let total: u64 = fold(sum) % 0x1_0000;
    let length: u64 = bytes.len() as u64;
    if length > 0xFFFF_FFFF || total + length > 0xFFFF_FFFF {
        return Err(AppError::ChecksumOverflow);
    }
    Ok((total + length) as u32)
}

/// Writes the checksum.
pub fn apply_checksum(output: &mut [u8], model: &PeModel) -> (result: Result<(), AppError>)
    ensures
        rewrote(checksum_written(old(output)@, model@), old(output)@, result, final(output)@),
        !fits(old(output)@, model@.headers.size_of_headers_offset + 4, 4)
            ==> final(output)@ == old(output)@,
{
    let total: usize = output.len();
    let offset: usize = model.headers.size_of_headers_offset.saturating_add(4);
    write_u32(output, offset, 0)?;
    let value: u32 = compute_checksum(output)?;
    write_u32(output, offset, value)
}

/// The checksum does not depend on what stood in its field: files that differ there only
/// come out equal.
pub proof fn law_checksum_ignores_its_field(left: Seq<u8>, right: Seq<u8>, model: ModelView)
    requires
        left.len() == right.len(),
        forall|i: int|
            0 <= i < left.len() && !(model.headers.size_of_headers_offset + 4 <= i
                < model.headers.size_of_headers_offset + 8) ==> left[i] == right[i],
    ensures
        checksum_written(left, model) == checksum_written(right, model),
{
    let offset = model.headers.size_of_headers_offset + 4;
    if fits(left, offset, 4) {
        let cleared = put_u32(left, offset, 0)->Ok_0;
        assert(cleared =~= put_u32(right, offset, 0)->Ok_0);
    }
}

/// The checksum in a file is the one that its bytes have with zero in the field's place.
pub proof fn law_checksum_is_that_of_the_file(output: Seq<u8>, model: ModelView)
    ensures
        checksum_written(output, model) matches Ok(bytes) ==> {
            let offset = model.headers.size_of_headers_offset + 4;
            &&& fits(bytes, offset, 4)
            &&& checksum(put_u32(bytes, offset, 0)->Ok_0) == Ok::<u32, AppError>(
                u32_at(bytes, offset),
            )
        },
{
    if let Ok(bytes) = checksum_written(output, model) {
        let offset = model.headers.size_of_headers_offset + 4;
        let cleared = put_u32(output, offset, 0)->Ok_0;
        let value = checksum(cleared)->Ok_0;
        law_fields_read_back(cleared, offset, 0, value, 0);
        assert(put_u32(bytes, offset, 0)->Ok_0 =~= cleared);
    }
}

/// The first fault that `PeFile::from_bytes` finds in the headers of a file: they ask for a
/// DOS header that leads to aligned NT headers of a known format, for sizes that agree, and
/// for directories and a section table that lie in the file. NT headers of either format
/// have to leave room for the longer one.
pub open spec fn header_fault(bytes: Seq<u8>) -> Option<ReparseError> {
    let nt = nt_place(bytes);
    let magic = u16_at(bytes, nt + 24);
    let fixed: int = if magic == 0x020B {
        112
    } else {
        96
    };
    let directories = lesser(u32_at(bytes, nt + 20 + fixed) as int, 16);
    let table = nt + 24 + u16_at(bytes, nt + 20);
    if bytes.len() < 0x40 {
        Some(ReparseError::Bounds)
    } else if u16_at(bytes, 0) != 0x5A4D {
        Some(ReparseError::BadMagic)
    } else if nt % 4 != 0 {
        Some(ReparseError::Misaligned)
    } else if nt > 0x100_0000 {
        Some(ReparseError::Insanity)
    } else if nt + 136 > bytes.len() {
        Some(ReparseError::Bounds)
    } else if u32_at(bytes, nt) != 0x4550 || !(magic == 0x020B || magic == 0x010B) {
        Some(ReparseError::BadMagic)
    } else if u32_at(bytes, nt + 84) > bytes.len() {
        Some(ReparseError::Bounds)
    } else if u32_at(bytes, nt + 84) > u32_at(bytes, nt + 80) {
        Some(ReparseError::Insanity)
    } else if nt + 24 + fixed + 8 * directories > bytes.len() {
        Some(ReparseError::Bounds)
    } else if u16_at(bytes, nt + 6) > 96 {
        Some(ReparseError::Insanity)
    } else if table + 40 * u16_at(bytes, nt + 6) > bytes.len() {
        Some(ReparseError::Bounds)
    } else {
        None
    }
}

/// Whether the headers of a file have no fault.
pub open spec fn parsable(bytes: Seq<u8>) -> bool {
    header_fault(bytes) is None
}

/// Whether an independent parser may give the answer on a file: the first fault of its
/// headers, or none where they have none. Bytes that hold a DOS header may also be refused
/// as misaligned, for the address that they stand at.
pub open spec fn answers(bytes: Seq<u8>, result: Result<(), ReparseError>) -> bool {
    ||| bytes.len() >= 0x40 && result == Err::<(), ReparseError>(ReparseError::Misaligned)
    ||| match header_fault(bytes) {
        Some(fault) => result == Err::<(), ReparseError>(fault),
        None => result == Ok::<(), ReparseError>(()),
    }
}

/// Where a DOS header says that the NT headers stand.
pub open spec fn nt_place(bytes: Seq<u8>) -> int {
    u32_at(bytes, 0x3c) as int
}

/// Parses the bytes of a rebuilt file, which follow `lead` others, with
/// `pelite::PeFile::from_bytes`. On a little-endian machine it gives the first fault of the
/// headers, in the order of its checks, and accepts a file without one. Bytes that hold a
/// DOS header but do not start at an address that is a multiple of four it refuses, as
/// misaligned. It reads NT headers that four divides in place, as a structure that has to
/// stand at a multiple of eight: they do where `lead` and their place add up to one, since
/// buffers start at a multiple of eight.
#[verifier::external_body]
fn reparse(buffer: &[u8], lead: usize) -> (result: Result<(), ReparseError>)
    requires
        lead <= buffer@.len(),
        lead % 4 == 0,
        ({
            let bytes = buffer@.subrange(lead as int, buffer@.len() as int);
            bytes.len() >= 0x40 && nt_place(bytes) % 4 == 0 ==> (lead + nt_place(bytes)) % 8 == 0
        }),
    ensures
        answers(buffer@.subrange(lead as int, buffer@.len() as int), result),
{
    let error = match PeFile::from_bytes(&buffer[lead..]) { Ok(_) => return Ok(()), Err(error) => error };
    Err(match error {
        pelite::Error::Null => ReparseError::Null,
        pelite::Error::Bounds => ReparseError::Bounds,
        pelite::Error::ZeroFill => ReparseError::ZeroFill,
        pelite::Error::Unmapped => ReparseError::Unmapped,
        pelite::Error::Misaligned => ReparseError::Misaligned,
        pelite::Error::BadMagic => ReparseError::BadMagic,
        pelite::Error::PeMagic => ReparseError::PeMagic,
        pelite::Error::Insanity => ReparseError::Insanity,
        pelite::Error::Invalid => ReparseError::Invalid,
        pelite::Error::Overflow => ReparseError::Overflow,
        pelite::Error::Encoding => ReparseError::Encoding,
        pelite::Error::Aliasing => ReparseError::Aliasing,
    })
}

/// Has a rebuilt file parsed independently. Where its NT headers would stand at an odd
/// multiple of four, a copy is parsed in which they do not.
fn parse_again(output: &[u8]) -> (result: Result<(), ReparseError>)
    ensures
        answers(output@, result),
{
    let odd = match read_u32(output, DOS_LFANEW_OFFSET) {
        Ok(place) => place % 8 == 4,
        Err(_) => false,
    };
    if odd {
        let mut shifted: Vec<u8> = Vec::new();
        shifted.resize(4, 0);
        shifted.extend_from_slice(output);
        assert(shifted@.subrange(4, shifted@.len() as int) =~= output@);
        reparse(shifted.as_slice(), 4)
    } else {
        assert(output@.subrange(0, output@.len() as int) =~= output@);
        reparse(output, 0)
    }
}

/// A rebuilt file with all its header fields.
pub ghost struct FinalView {
    pub bytes: Seq<u8>,
    pub entry_point: u32,
    pub executable_flag_added: bool,
}

/// `output` with its last header fields: the entry point that was given, the sums over the
/// section table, the flag of an executable image and, over all that, the checksum.
pub open spec fn finished(
    output: Seq<u8>,
    model: ModelView,
    entry_point: Option<EntryPointRva>,
) -> Result<FinalView, AppError> {
    match entry_written(output, model, entry_point) {
        Err(error) => Err(error),
        Ok(entered) => match derived_written(entered, model) {
            Err(error) => Err(error),
            Ok(derived) => match flag_written(derived, model) {
                Err(error) => Err(error),
                Ok((flagged, added)) => match checksum_written(flagged, model) {
                    Err(error) => Err(error),
                    Ok(bytes) => match get_u32(bytes, model.headers.entry_point_offset as int) {
                        Err(error) => Err(error),
                        Ok(entry) => Ok(
                            FinalView { bytes, entry_point: entry, executable_flag_added: added },
                        ),
                    },
                },
            },
        },
    }
}

/// Writes the last header fields; gives the entry point and whether the flag of an
/// executable image was added.
pub fn finish_headers(
    output: &mut [u8],
    model: &PeModel,
    entry_point: Option<EntryPointRva>,
) -> (result: Result<(u32, bool), AppError>)
    ensures
        final(output)@.len() == old(output)@.len(),
        entry_written(old(output)@, model@, entry_point) is Err ==> final(output)@ == old(output)@,
        match finished(old(output)@, model@, entry_point) {
            Ok(last) => result == Ok::<(u32, bool), AppError>(
                (last.entry_point, last.executable_flag_added),
            ) && final(output)@ == last.bytes,
            Err(error) => result == Err::<(u32, bool), AppError>(error),
        },
{
    apply_entry_point(output, model, entry_point)?;
    write_derived_header_fields(output, model)?;
    let added = ensure_executable_image_flag(output, model)?;
    apply_checksum(output, model)?;
    let entry: u32 = read_u32(output, model.headers.entry_point_offset)?;
    Ok((entry, added))
}

/// What is returned for a finished file, given what an independent parser said of it.
pub fn accept_reparse(
    entry_point: u32,
    executable_flag_added: bool,
    reparsed: Result<(), ReparseError>,
) -> (result: Result<(u32, bool), AppError>)
    ensures
        result == match reparsed {
            Ok(_) => Ok::<(u32, bool), AppError>((entry_point, executable_flag_added)),
            Err(error) => Err(AppError::ReparseFailed(error)),
        },
{
    match reparsed {
        Ok(_) => Ok((entry_point, executable_flag_added)),
        Err(error) => Err(AppError::ReparseFailed(error)),
    }
}

/// Whether the error is what an independent parser may say of the file.
pub open spec fn refused(bytes: Seq<u8>, error: AppError) -> bool {
    error matches AppError::ReparseFailed(reason) && answers(
        bytes,
        Err::<(), ReparseError>(reason),
    )
}

/// Writes the last header fields and has the file parsed independently. The result says
/// what the parser may say: the first fault of the headers, or misalignment.
pub fn finalize_output(
    output: &mut Vec<u8>,
    model: &PeModel,
    entry_point: Option<EntryPointRva>,
) -> (result: Result<(u32, bool), AppError>)
    ensures
        final(output)@.len() == old(output)@.len(),
        entry_written(old(output)@, model@, entry_point) is Err ==> final(output)@ == old(output)@,
        match finished(old(output)@, model@, entry_point) {
            Ok(last) => final(output)@ == last.bytes && match result {
                Ok((entry, added)) => entry == last.entry_point && added
                    == last.executable_flag_added && parsable(last.bytes),
                Err(error) => refused(last.bytes, error),
            },
            Err(error) => result == Err::<(u32, bool), AppError>(error),
        },
{
    let (entry, added) = finish_headers(output, model, entry_point)?;
    let reparsed = parse_again(output.as_slice());
    accept_reparse(entry, added, reparsed)
}

/// Whether the fields that are written last stand where they do in a parsed header: the
/// entry point between the sizes and the base of code, the flags before the optional
/// header and the checksum behind the header size.
pub open spec fn fields_apart(headers: PeHeaders) -> bool {
    let optional = headers.nt_offset + 24;
    &&& headers.size_of_code_offset == optional + 4
    &&& headers.size_of_initialized_data_offset == optional + 8
    &&& headers.size_of_uninitialized_data_offset == optional + 12
    &&& headers.entry_point_offset == optional + 16
    &&& headers.base_of_code_offset == optional + 20
    &&& headers.size_of_headers_offset == optional + 60
}

/// Storing bytes elsewhere leaves a 32-bit field as it is.
proof fn lemma_kept(bytes: Seq<u8>, offset: int, data: Seq<u8>, field: int)
    requires
        field + 4 <= offset || offset + data.len() <= field,
    ensures
        put_bytes(bytes, offset, data) matches Ok(out) ==> get_u32(out, field) == get_u32(
            bytes,
            field,
        ),
{
    law_writes_leave_other_fields(bytes, offset, data, field);
}

proof fn lemma_sizes_keep_entry(output: Seq<u8>, model: ModelView, sizes: DerivedSizes)
    requires
        fields_apart(model.headers),
    ensures
        sizes_written(output, model, sizes) matches Ok(bytes) ==> get_u32(
            bytes,
            model.headers.entry_point_offset as int,
        ) == get_u32(output, model.headers.entry_point_offset as int),
{
    let field = model.headers.entry_point_offset as int;
    if sizes_written(output, model, sizes) is Ok {
        let code = model.headers.size_of_code_offset as int;
        let data = model.headers.size_of_initialized_data_offset as int;
        let rest = model.headers.size_of_uninitialized_data_offset as int;
        let first = put_u32(output, code, sizes.code)->Ok_0;
        let second = put_u32(first, data, sizes.initialized_data)->Ok_0;
        let third = put_u32(second, rest, sizes.uninitialized_data)->Ok_0;
        lemma_kept(output, code, le_u32(sizes.code), field);
        lemma_kept(first, data, le_u32(sizes.initialized_data), field);
        lemma_kept(second, rest, le_u32(sizes.uninitialized_data), field);
        lemma_kept(
            third,
            model.headers.base_of_code_offset as int,
            le_u32(sizes.base_of_code),
            field,
        );
    }
}

proof fn lemma_flag_keeps_entry(output: Seq<u8>, model: ModelView)
    requires
        fields_apart(model.headers),
    ensures
        flag_written(output, model) matches Ok((bytes, added)) ==> get_u32(
            bytes,
            model.headers.entry_point_offset as int,
        ) == get_u32(output, model.headers.entry_point_offset as int),
{
    if flag_written(output, model) is Ok {
        let offset = model.headers.nt_offset + 22;
        let flags = get_u16(output, offset)->Ok_0;
        lemma_kept(
            output,
            offset,
            le_u16(flags | IMAGE_FILE_EXECUTABLE_IMAGE),
            model.headers.entry_point_offset as int,
        );
    }
}

proof fn lemma_checksum_keeps_entry(output: Seq<u8>, model: ModelView)
    requires
        fields_apart(model.headers),
    ensures
        checksum_written(output, model) matches Ok(bytes) ==> get_u32(
            bytes,
            model.headers.entry_point_offset as int,
        ) == get_u32(output, model.headers.entry_point_offset as int),
{
    if checksum_written(output, model) is Ok {
        let field = model.headers.entry_point_offset as int;
        let offset = model.headers.size_of_headers_offset + 4;
        let cleared = put_u32(output, offset, 0)->Ok_0;
        lemma_kept(output, offset, le_u32(0), field);
        lemma_kept(cleared, offset, le_u32(checksum(cleared)->Ok_0), field);
    }
}

/// The entry point of a finished file is the one that was given, or else the one that it
/// had.
pub proof fn law_entry_point_is_the_given_one(
    output: Seq<u8>,
    model: ModelView,
    entry_point: Option<EntryPointRva>,
)
    requires
        fields_apart(model.headers),
    ensures
        finished(output, model, entry_point) matches Ok(last) ==> match entry_point {
            Some(entry) => last.entry_point == entry.0 && model.executable_at(entry.0 as int),
            None => get_u32(output, model.headers.entry_point_offset as int) == Ok::<u32, AppError>(
                last.entry_point,
            ),
        },
{
    if let Ok(last) = finished(output, model, entry_point) {
        let entered = entry_written(output, model, entry_point)->Ok_0;
        if let Some(entry) = entry_point {
            let field = model.headers.entry_point_offset as int;
            law_fields_read_back(output, field, 0, entry.0, 0);
        }
        lemma_sizes_keep_entry(entered, model, derived_sizes(entered, model)->Ok_0);
        let derived = derived_written(entered, model)->Ok_0;
        lemma_flag_keeps_entry(derived, model);
        let (flagged, added) = flag_written(derived, model)->Ok_0;
        lemma_checksum_keeps_entry(flagged, model);
    }
}

} // verus!
