//! Errors.

use vstd::prelude::*;
use vstd::string::StringExecFns;

verus! {

/// Why captured or stored bytes were not accepted as a PE image.
#[derive(Clone, Copy, Debug, PartialEq, Eq, Structural)]
pub enum ParseError {
    MissingDosHeader,
    Truncated,
    MissingSignature,
    UnsupportedFormat,
    OptionalHeaderTooSmall,
    BadSectionCount,
    BadAlignment,
    EmptyImage,
    SectionOutsideImage,
}

/// Why an independent parser refused a rebuilt file.
#[derive(Clone, Copy, Debug, PartialEq, Eq, Structural)]
pub enum ReparseError {
    Null,
    Bounds,
    ZeroFill,
    Unmapped,
    Misaligned,
    BadMagic,
    PeMagic,
    Insanity,
    Invalid,
    Overflow,
    Encoding,
    Aliasing,
}

/// What an address in an import section leads to.
#[derive(Clone, Copy, Debug, PartialEq, Eq, Structural)]
pub enum PayloadPart {
    LookupTable,
    Module,
}

/// Why an operation on an image could not be carried out.
#[derive(Clone, Copy, Debug, PartialEq, Eq, Structural)]
pub enum AppError {
    FieldOutOfRange,
    DirectoryOffsetOverflow,
    InvalidAlignment,
    AlignmentOverflow,
    NoSectionHeaders,
    LayoutOverflow,
    OutputTooLarge,
    OutOfMemory,
    SectionNameOutside,
    RawSizeTooLarge,
    RawOffsetTooLarge,
    SourceRangeOverflow,
    OutputRangeOverflow,
    SourceOutsideMemory,
    OutputOutsideImage,
    RecoveredSectionTooLarge,
    RecoveredImageTooLarge,
    Parse(ParseError),
    RebuiltHeadersInvalid(ParseError),
    DiskRepairFailed { memory: ParseError, disk: ParseError },
    DiskImageTooLarge,
    ArchitectureConflict,
    FormatConflict,
    DiskTableIncomplete,
    DiskHeadersTooLarge,
    DiskHeadersExceedCapture,
    NtOffsetTooLarge,
    ImageBaseTooLarge,
    ImageTooLarge,
    HeaderSizeTooLarge,
    DirectoryCountTooLarge,
    EntryPointNotExecutable(u32),
    BadSectionCount,
    NoSectionTable,
    SectionHeaderOverflow,
    CodeSizeOverflow,
    InitializedDataOverflow,
    UninitializedDataTooLarge,
    UninitializedDataOverflow,
    ChecksumOverflow,
    ReparseFailed(ReparseError),
    NoDirectorySlot,
    ExceptionRangeOverflow,
    ExceptionOutsideImage,
    ExceptionSizeOverflow,
    NewSectionOverflow,
    ImportRvaTooLarge,
    ImportSizeOverflow,
    ImportsTooLarge,
    NewSectionNameOutside,
    ImportPayloadTooLarge,
    ImportRawSizeTooLarge,
    ImportRawOffsetTooLarge,
    SectionCountOverflow,
    ImportRangeOverflow,
    ImageSizeTooLarge,
    ImportDescriptorsTooLarge,
    ImportDescriptorsOverflow,
    ImportLookupOverflow,
    ImportNameOverflow,
    ImportThunkOverflow,
    ImportThunkTooLarge,
    BadImportName,
    PayloadOffsetTooLarge(PayloadPart),
    PayloadRvaOverflow(PayloadPart),
    RegionAddressOverflow,
    RegionRepeated,
    TooManyRegions,
    ImageGroupOverflow,
    ImageRegionOverflow,
    AllocationOverflow,
    HiddenRangeOverflow,
    ImageAddressOverflow,
    ImageRegionOutside,
    ScanTooLarge,
    ScanAddressOverflow,
    TooManyHiddenImages,
    NoImages,
}

impl ParseError {
    /// What is wrong, in words.
    pub open spec fn text(self) -> Seq<char> {
        match self {
            ParseError::MissingDosHeader => "DOS header is missing"@,
            ParseError::Truncated => "PE headers are truncated"@,
            ParseError::MissingSignature => "NT signature is missing"@,
            ParseError::UnsupportedFormat => "machine and optional-header format are not supported"@,
            ParseError::OptionalHeaderTooSmall => "optional header is too small"@,
            ParseError::BadSectionCount => "section count is invalid"@,
            ParseError::BadAlignment => "PE alignment is invalid"@,
            ParseError::EmptyImage => "image size is zero"@,
            ParseError::SectionOutsideImage => "section lies outside the image"@,
        }
    }

    /// What is wrong, in words.
    pub fn as_text(self) -> (text: &'static str)
        ensures
            text@ == self.text(),
    {
        match self {
            ParseError::MissingDosHeader => "DOS header is missing",
            ParseError::Truncated => "PE headers are truncated",
            ParseError::MissingSignature => "NT signature is missing",
            ParseError::UnsupportedFormat => "machine and optional-header format are not supported",
            ParseError::OptionalHeaderTooSmall => "optional header is too small",
            ParseError::BadSectionCount => "section count is invalid",
            ParseError::BadAlignment => "PE alignment is invalid",
            ParseError::EmptyImage => "image size is zero",
            ParseError::SectionOutsideImage => "section lies outside the image",
        }
    }
}

impl ReparseError {
    /// What is wrong, in words.
    pub open spec fn text(self) -> Seq<char> {
        match self {
            ReparseError::Null => "null address reference"@,
            ReparseError::Bounds => "bounds check failed"@,
            ReparseError::ZeroFill => "zero filled data reference"@,
            ReparseError::Unmapped => "overlay data reference"@,
            ReparseError::Misaligned => "address misaligned"@,
            ReparseError::BadMagic => "unknown magic number"@,
            ReparseError::PeMagic => "try again with correct parser"@,
            ReparseError::Insanity => "data insanity"@,
            ReparseError::Invalid => "invalid data"@,
            ReparseError::Overflow => "overflow error"@,
            ReparseError::Encoding => "encoding error"@,
            ReparseError::Aliasing => "aliasing error"@,
        }
    }

    /// What is wrong, in words.
    pub fn as_text(self) -> (text: &'static str)
        ensures
            text@ == self.text(),
    {
        match self {
            ReparseError::Null => "null address reference",
            ReparseError::Bounds => "bounds check failed",
            ReparseError::ZeroFill => "zero filled data reference",
            ReparseError::Unmapped => "overlay data reference",
            ReparseError::Misaligned => "address misaligned",
            ReparseError::BadMagic => "unknown magic number",
            ReparseError::PeMagic => "try again with correct parser",
            ReparseError::Insanity => "data insanity",
            ReparseError::Invalid => "invalid data",
            ReparseError::Overflow => "overflow error",
            ReparseError::Encoding => "encoding error",
            ReparseError::Aliasing => "aliasing error",
        }
    }
}

impl PayloadPart {
    /// The part, in words.
    pub open spec fn text(self) -> Seq<char> {
        match self {
            PayloadPart::LookupTable => "import lookup-table"@,
            PayloadPart::Module => "import module"@,
        }
    }

    /// The part, in words.
    pub fn as_text(self) -> (text: &'static str)
        ensures
            text@ == self.text(),
    {
        match self {
            PayloadPart::LookupTable => "import lookup-table",
            PayloadPart::Module => "import module",
        }
    }
}

/// The character of a hexadecimal digit.
pub open spec fn hex_digit(value: int) -> Seq<char> {
    if value == 0 {
        "0"@
    } else if value == 1 {
        "1"@
    } else if value == 2 {
        "2"@
    } else if value == 3 {
        "3"@
    } else if value == 4 {
        "4"@
    } else if value == 5 {
        "5"@
    } else if value == 6 {
        "6"@
    } else if value == 7 {
        "7"@
    } else if value == 8 {
        "8"@
    } else if value == 9 {
        "9"@
    } else if value == 10 {
        "A"@
    } else if value == 11 {
        "B"@
    } else if value == 12 {
        "C"@
    } else if value == 13 {
        "D"@
    } else if value == 14 {
        "E"@
    } else {
        "F"@
    }
}

/// A number in hexadecimal digits, without leading zeros.
pub open spec fn hex_text(value: int) -> Seq<char>
    decreases value,
{
    if value < 16 {
        hex_digit(value)
    } else {
        hex_text(value / 16) + hex_digit(value % 16)
    }
}

fn hex_digit_text(value: u32) -> (text: &'static str)
    requires
        value < 16,
    ensures
        text@ == hex_digit(value as int),
{
    match value {
        0 => "0",
        1 => "1",
        2 => "2",
        3 => "3",
        4 => "4",
        5 => "5",
        6 => "6",
        7 => "7",
        8 => "8",
        9 => "9",
        10 => "A",
        11 => "B",
        12 => "C",
        13 => "D",
        14 => "E",
        _ => "F",
    }
}

/// Writes a number in hexadecimal digits.
pub fn write_hex(value: u32) -> (text: String)
    ensures
        text@ == hex_text(value as int),
    decreases value,
{
    if value < 16 {
        hex_digit_text(value).to_string()
    } else {
        write_hex(value / 16).concat(hex_digit_text(value % 16))
    }
}

impl AppError {
    /// What went wrong, in words.
    pub open spec fn text(self) -> Seq<char> {
        match self {
            AppError::Parse(error) => error.text(),
            AppError::RebuiltHeadersInvalid(error) => "rebuilt PE headers are invalid: "@
                + error.text(),
            AppError::DiskRepairFailed { memory, disk } => "memory headers are invalid ("@
                + memory.text() + "); disk header repair failed ("@ + disk.text() + ")"@,
            AppError::EntryPointNotExecutable(rva) => "manual entry point RVA 0x"@ + hex_text(
                rva as int,
            ) + " is not inside an executable section"@,
            AppError::ReparseFailed(error) => "rebuilt PE failed independent reparse: "@
                + error.text(),
            AppError::PayloadOffsetTooLarge(part) => part.text() + " offset exceeds u32"@,
            AppError::PayloadRvaOverflow(part) => part.text() + " RVA overflowed"@,
            _ => self.fixed_text(),
        }
    }

    /// What went wrong, in words, where nothing is to be filled in.
    pub open spec fn fixed_text(self) -> Seq<char> {
        match self {
            AppError::FieldOutOfRange => "PE field lies outside the image"@,
            AppError::DirectoryOffsetOverflow => "data-directory offset overflowed"@,
            AppError::InvalidAlignment => "PE alignment is invalid"@,
            AppError::AlignmentOverflow => "PE alignment overflowed"@,
            AppError::NoSectionHeaders => "PE has no section headers"@,
            AppError::LayoutOverflow => "rebuilt section layout overflowed"@,
            AppError::OutputTooLarge => "rebuilt PE exceeds the 1 GiB output safety limit"@,
            AppError::OutOfMemory => "not enough memory for the rebuilt PE"@,
            AppError::SectionNameOutside => "section name lies outside the rebuilt PE"@,
            AppError::RawSizeTooLarge => "section raw size does not fit a PE field"@,
            AppError::RawOffsetTooLarge => "section file offset does not fit a PE field"@,
            AppError::SourceRangeOverflow => "section source range overflowed"@,
            AppError::OutputRangeOverflow => "section output range overflowed"@,
            AppError::SourceOutsideMemory => "section source range is outside captured memory"@,
            AppError::OutputOutsideImage => "section output range is outside rebuilt PE"@,
            AppError::RecoveredSectionTooLarge => "recovered section size exceeds u32"@,
            AppError::RecoveredImageTooLarge => "recovered image size exceeds u32"@,
            AppError::DiskImageTooLarge => "disk SizeOfImage exceeds the captured image"@,
            AppError::ArchitectureConflict => "disk headers conflict with the captured image architecture"@,
            AppError::FormatConflict => "disk headers conflict with the captured optional-header format"@,
            AppError::DiskTableIncomplete => "disk PE has no complete section table"@,
            AppError::DiskHeadersTooLarge => "disk PE header size is outside the 1 MiB safety limit"@,
            AppError::DiskHeadersExceedCapture => "disk PE headers are larger than the captured image"@,
            AppError::NtOffsetTooLarge => "NT header offset does not fit a PE field"@,
            AppError::ImageBaseTooLarge => "observed PE32 image base exceeds 32 bits"@,
            AppError::ImageTooLarge => "rebuilt image size exceeds u32"@,
            AppError::HeaderSizeTooLarge => "rebuilt header size does not fit a PE field"@,
            AppError::DirectoryCountTooLarge => "directory count does not fit a PE field"@,
            AppError::BadSectionCount => "rebuilt PE has an invalid section count"@,
            AppError::NoSectionTable => "rebuilt PE has no section table"@,
            AppError::SectionHeaderOverflow => "rebuilt section header offset overflowed"@,
            AppError::CodeSizeOverflow => "code size overflowed"@,
            AppError::InitializedDataOverflow => "initialized-data size overflowed"@,
            AppError::UninitializedDataTooLarge => "uninitialized-data size exceeds u32"@,
            AppError::UninitializedDataOverflow => "uninitialized-data size overflowed"@,
            AppError::ChecksumOverflow => "checksum overflowed a PE field"@,
            AppError::NoDirectorySlot => "PE has no requested data-directory slot"@,
            AppError::ExceptionRangeOverflow => "exception-directory range overflowed"@,
            AppError::ExceptionOutsideImage => "exception directory lies outside the rebuilt PE"@,
            AppError::ExceptionSizeOverflow => "exception-directory size overflowed"@,
            AppError::NewSectionOverflow => "new section-header offset overflowed"@,
            AppError::ImportRvaTooLarge => "import section RVA exceeds u32"@,
            AppError::ImportSizeOverflow => "import section output size overflowed"@,
            AppError::ImportsTooLarge => "recovered imports exceed the 1 GiB output safety limit"@,
            AppError::NewSectionNameOutside => "new section name lies outside the PE headers"@,
            AppError::ImportPayloadTooLarge => "import payload size exceeds u32"@,
            AppError::ImportRawSizeTooLarge => "import raw size exceeds u32"@,
            AppError::ImportRawOffsetTooLarge => "import file offset exceeds u32"@,
            AppError::SectionCountOverflow => "section count overflowed"@,
            AppError::ImportRangeOverflow => "import virtual range overflowed"@,
            AppError::ImageSizeTooLarge => "image size exceeds u32"@,
            AppError::ImportDescriptorsTooLarge => "import descriptor size exceeds u32"@,
            AppError::ImportDescriptorsOverflow => "import descriptor size overflowed"@,
            AppError::ImportLookupOverflow => "import lookup-table size overflowed"@,
            AppError::ImportNameOverflow => "import name RVA overflowed"@,
            AppError::ImportThunkOverflow => "import thunk offset overflowed"@,
            AppError::ImportThunkTooLarge => "PE32 import thunk exceeds u32"@,
            AppError::BadImportName => "import name is not valid ASCII"@,
            AppError::RegionAddressOverflow => "virtual memory region address overflowed"@,
            AppError::RegionRepeated => "VirtualQueryEx returned the same address twice"@,
            AppError::TooManyRegions => "too many memory regions were returned"@,
            AppError::ImageGroupOverflow => "image memory region address overflowed"@,
            AppError::ImageRegionOverflow => "image region address overflowed"@,
            AppError::AllocationOverflow => "non-image allocation address overflowed"@,
            AppError::HiddenRangeOverflow => "hidden image range overflowed"@,
            AppError::ImageAddressOverflow => "image address overflowed"@,
            AppError::ImageRegionOutside => "image region lies outside its output buffer"@,
            AppError::ScanTooLarge => "non-image PE scan exceeds the 262144-page safety limit"@,
            AppError::ScanAddressOverflow => "non-image PE scan address overflowed"@,
            AppError::TooManyHiddenImages => "hidden image count exceeds the 4096-image safety limit"@,
            AppError::NoImages => "no image allocations were present in the captured address space"@,
            _ => ""@,
        }
    }

    fn as_fixed_text(self) -> (text: &'static str)
        ensures
            text@ == self.fixed_text(),
    {
        match self {
            AppError::FieldOutOfRange => "PE field lies outside the image",
            AppError::DirectoryOffsetOverflow => "data-directory offset overflowed",
            AppError::InvalidAlignment => "PE alignment is invalid",
            AppError::AlignmentOverflow => "PE alignment overflowed",
            AppError::NoSectionHeaders => "PE has no section headers",
            AppError::LayoutOverflow => "rebuilt section layout overflowed",
            AppError::OutputTooLarge => "rebuilt PE exceeds the 1 GiB output safety limit",
            AppError::OutOfMemory => "not enough memory for the rebuilt PE",
            AppError::SectionNameOutside => "section name lies outside the rebuilt PE",
            AppError::RawSizeTooLarge => "section raw size does not fit a PE field",
            AppError::RawOffsetTooLarge => "section file offset does not fit a PE field",
            AppError::SourceRangeOverflow => "section source range overflowed",
            AppError::OutputRangeOverflow => "section output range overflowed",
            AppError::SourceOutsideMemory => "section source range is outside captured memory",
            AppError::OutputOutsideImage => "section output range is outside rebuilt PE",
            AppError::RecoveredSectionTooLarge => "recovered section size exceeds u32",
            AppError::RecoveredImageTooLarge => "recovered image size exceeds u32",
            AppError::DiskImageTooLarge => "disk SizeOfImage exceeds the captured image",
            AppError::ArchitectureConflict => "disk headers conflict with the captured image architecture",
            AppError::FormatConflict => "disk headers conflict with the captured optional-header format",
            AppError::DiskTableIncomplete => "disk PE has no complete section table",
            AppError::DiskHeadersTooLarge => "disk PE header size is outside the 1 MiB safety limit",
            AppError::DiskHeadersExceedCapture => "disk PE headers are larger than the captured image",
            AppError::NtOffsetTooLarge => "NT header offset does not fit a PE field",
            AppError::ImageBaseTooLarge => "observed PE32 image base exceeds 32 bits",
            AppError::ImageTooLarge => "rebuilt image size exceeds u32",
            AppError::HeaderSizeTooLarge => "rebuilt header size does not fit a PE field",
            AppError::DirectoryCountTooLarge => "directory count does not fit a PE field",
            AppError::BadSectionCount => "rebuilt PE has an invalid section count",
            AppError::NoSectionTable => "rebuilt PE has no section table",
            AppError::SectionHeaderOverflow => "rebuilt section header offset overflowed",
            AppError::CodeSizeOverflow => "code size overflowed",
            AppError::InitializedDataOverflow => "initialized-data size overflowed",
            AppError::UninitializedDataTooLarge => "uninitialized-data size exceeds u32",
            AppError::UninitializedDataOverflow => "uninitialized-data size overflowed",
            AppError::ChecksumOverflow => "checksum overflowed a PE field",
            AppError::NoDirectorySlot => "PE has no requested data-directory slot",
            AppError::ExceptionRangeOverflow => "exception-directory range overflowed",
            AppError::ExceptionOutsideImage => "exception directory lies outside the rebuilt PE",
            AppError::ExceptionSizeOverflow => "exception-directory size overflowed",
            AppError::NewSectionOverflow => "new section-header offset overflowed",
            AppError::ImportRvaTooLarge => "import section RVA exceeds u32",
            AppError::ImportSizeOverflow => "import section output size overflowed",
            AppError::ImportsTooLarge => "recovered imports exceed the 1 GiB output safety limit",
            AppError::NewSectionNameOutside => "new section name lies outside the PE headers",
            AppError::ImportPayloadTooLarge => "import payload size exceeds u32",
            AppError::ImportRawSizeTooLarge => "import raw size exceeds u32",
            AppError::ImportRawOffsetTooLarge => "import file offset exceeds u32",
            AppError::SectionCountOverflow => "section count overflowed",
            AppError::ImportRangeOverflow => "import virtual range overflowed",
            AppError::ImageSizeTooLarge => "image size exceeds u32",
            AppError::ImportDescriptorsTooLarge => "import descriptor size exceeds u32",
            AppError::ImportDescriptorsOverflow => "import descriptor size overflowed",
            AppError::ImportLookupOverflow => "import lookup-table size overflowed",
            AppError::ImportNameOverflow => "import name RVA overflowed",
            AppError::ImportThunkOverflow => "import thunk offset overflowed",
            AppError::ImportThunkTooLarge => "PE32 import thunk exceeds u32",
            AppError::BadImportName => "import name is not valid ASCII",
            AppError::RegionAddressOverflow => "virtual memory region address overflowed",
            AppError::RegionRepeated => "VirtualQueryEx returned the same address twice",
            AppError::TooManyRegions => "too many memory regions were returned",
            AppError::ImageGroupOverflow => "image memory region address overflowed",
            AppError::ImageRegionOverflow => "image region address overflowed",
            AppError::AllocationOverflow => "non-image allocation address overflowed",
            AppError::HiddenRangeOverflow => "hidden image range overflowed",
            AppError::ImageAddressOverflow => "image address overflowed",
            AppError::ImageRegionOutside => "image region lies outside its output buffer",
            AppError::ScanTooLarge => "non-image PE scan exceeds the 262144-page safety limit",
            AppError::ScanAddressOverflow => "non-image PE scan address overflowed",
            AppError::TooManyHiddenImages => "hidden image count exceeds the 4096-image safety limit",
            AppError::NoImages => "no image allocations were present in the captured address space",
            _ => "",
        }
    }

    /// What went wrong, in words.
    pub fn message(self) -> (text: String)
        ensures
            text@ == self.text(),
    {
        match self {
            AppError::Parse(error) => error.as_text().to_string(),
            AppError::RebuiltHeadersInvalid(error) => "rebuilt PE headers are invalid: ".to_string().concat(
                error.as_text(),
            ),
            AppError::DiskRepairFailed { memory, disk } => "memory headers are invalid (".to_string().concat(
                memory.as_text(),
            ).concat("); disk header repair failed (").concat(disk.as_text()).concat(")"),
            AppError::EntryPointNotExecutable(rva) => "manual entry point RVA 0x".to_string().concat(
                write_hex(rva).as_str(),
            ).concat(" is not inside an executable section"),
            AppError::ReparseFailed(error) => "rebuilt PE failed independent reparse: ".to_string().concat(
                error.as_text(),
            ),
            AppError::PayloadOffsetTooLarge(part) => part.as_text().to_string().concat(
                " offset exceeds u32",
            ),
            AppError::PayloadRvaOverflow(part) => part.as_text().to_string().concat(
                " RVA overflowed",
            ),
            _ => self.as_fixed_text().to_string(),
        }
    }
}

} // verus!
