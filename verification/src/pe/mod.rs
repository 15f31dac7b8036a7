//! PE images: their structure, and what is recovered from them.

pub mod align;
pub mod carve;
pub mod exported;
pub mod exports;
pub mod image;
pub mod imports;
pub mod parse;
pub mod rebuild;
pub mod slots;

use vstd::prelude::*;

use crate::error::AppError;
use crate::pe::image::{get_u32, read_u32};

verus! {

pub const IMAGE_SCN_MEM_EXECUTE: u32 = 0x2000_0000;

pub const IMAGE_SCN_MEM_READ: u32 = 0x4000_0000;

pub const IMAGE_SCN_MEM_WRITE: u32 = 0x8000_0000;

pub const IMPORT_DIRECTORY: usize = 1;

pub const SECURITY_DIRECTORY: usize = 4;

pub const IAT_DIRECTORY: usize = 12;

/// The two optional-header formats.
#[derive(Clone, Copy, Debug, PartialEq, Eq, Structural)]
pub enum PeKind {
    Pe32,
    Pe32Plus,
}

impl PeKind {
    /// The width of a pointer in bytes.
    pub open spec fn width(self) -> int {
        match self {
            PeKind::Pe32 => 4,
            PeKind::Pe32Plus => 8,
        }
    }

    /// The width of a pointer in bytes.
    pub fn pointer_width(self) -> (width: usize)
        ensures
            width == self.width(),
    {
        match self {
            PeKind::Pe32 => 4,
            PeKind::Pe32Plus => 8,
        }
    }
}

/// An address relative to the image base.
#[derive(Clone, Copy, Debug, PartialEq, Eq, Structural)]
pub struct Rva(pub u32);

impl Rva {
    pub fn get(self) -> (value: u32)
        ensures
            value == self.0,
    {
        self.0
    }

    pub fn as_usize(self) -> (value: usize)
        ensures
            value == self.0,
    {
        self.0 as usize
    }
}

/// An entry point that was given by hand; never zero.
#[derive(Clone, Copy, Debug, PartialEq, Eq, Structural)]
pub struct EntryPointRva(pub u32);

impl EntryPointRva {
    /// Accepts every address but zero.
    pub fn new(value: u32) -> (result: Option<EntryPointRva>)
        ensures
            result == (if value == 0 {
                None
            } else {
                Some(EntryPointRva(value))
            }),
    {
        if value == 0 {
            None
        } else {
            Some(EntryPointRva(value))
        }
    }

    pub fn get(self) -> (value: u32)
        ensures
            value == self.0,
    {
        self.0
    }
}

/// A committed range of the captured image and the access it was seen with.
#[derive(Clone, Copy, Debug, PartialEq, Eq, Structural)]
pub struct RegionEvidence {
    pub offset: usize,
    pub size: usize,
    pub readable: bool,
    pub writable: bool,
    pub executable: bool,
}

/// One entry of the section table.
#[derive(Clone, Copy, Debug)]
pub struct SectionModel {
    pub name: [u8; 8],
    pub header_offset: usize,
    pub virtual_address: Rva,
    pub virtual_size: u32,
    pub raw_size: u32,
    pub characteristics: u32,
}

impl SectionModel {
    /// The size that the header declares: the larger of the two it gives.
    pub open spec fn declared(self) -> int {
        if self.virtual_size >= self.raw_size {
            self.virtual_size as int
        } else {
            self.raw_size as int
        }
    }

    /// The first address.
    pub open spec fn start(self) -> int {
        self.virtual_address.0 as int
    }

    /// Whether the section may be executed.
    pub open spec fn executable(self) -> bool {
        self.characteristics & IMAGE_SCN_MEM_EXECUTE != 0
    }

    /// Whether the section holds data only: it can be read or written, not executed.
    pub open spec fn holds_data(self) -> bool {
        &&& self.characteristics & IMAGE_SCN_MEM_EXECUTE == 0
        &&& self.characteristics & (IMAGE_SCN_MEM_READ | IMAGE_SCN_MEM_WRITE) != 0
    }

    /// Whether the declared range holds the address.
    pub open spec fn contains(self, rva: int) -> bool {
        self.start() <= rva < self.start() + self.declared()
    }

    pub fn name(&self) -> (name: &[u8; 8])
        ensures
            *name == self.name,
    {
        &self.name
    }

    /// The declared size.
    pub fn span(&self) -> (size: u32)
        ensures
            size == self.declared(),
    {
        if self.virtual_size >= self.raw_size {
            self.virtual_size
        } else {
            self.raw_size
        }
    }

    pub fn is_executable(&self) -> (result: bool)
        ensures
            result == self.executable(),
    {
        self.characteristics & IMAGE_SCN_MEM_EXECUTE != 0
    }

    pub fn is_data(&self) -> (result: bool)
        ensures
            result == self.holds_data(),
    {
        self.characteristics & IMAGE_SCN_MEM_EXECUTE == 0 && self.characteristics & (
        IMAGE_SCN_MEM_READ | IMAGE_SCN_MEM_WRITE) != 0
    }

    pub fn contains_rva(&self, rva: Rva) -> (result: bool)
        ensures
            result == self.contains(rva.0 as int),
    {
        rva.0 >= self.virtual_address.0 && rva.0 - self.virtual_address.0 < self.span()
    }
}

/// Where the header fields of an image stand, and what those say that shape it.
#[derive(Clone, Copy, Debug, PartialEq, Eq, Structural)]
pub struct PeHeaders {
    pub kind: PeKind,
    pub is_dll: bool,
    pub subsystem: u16,
    /// Whether the headers were found by searching instead of through the DOS header.
    pub salvaged: bool,
    pub section_alignment: u32,
    pub file_alignment: u32,
    pub image_size: u32,
    pub directory_count: usize,
    pub nt_offset: usize,
    pub size_of_code_offset: usize,
    pub size_of_initialized_data_offset: usize,
    pub size_of_uninitialized_data_offset: usize,
    pub entry_point_offset: usize,
    pub base_of_code_offset: usize,
    pub image_base_offset: usize,
    pub size_of_image_offset: usize,
    pub size_of_headers_offset: usize,
    pub dll_characteristics_offset: usize,
    pub number_of_directories_offset: usize,
    pub directories_offset: usize,
}

impl PeHeaders {
    /// Where the slot of a data directory stands, if the image has that slot.
    pub open spec fn directory_slot(self, index: int) -> Result<Option<int>, AppError> {
        if index >= self.directory_count {
            Ok(None)
        } else if self.directories_offset + 8 * index > usize::MAX {
            Err(AppError::DirectoryOffsetOverflow)
        } else {
            Ok(Some(self.directories_offset + 8 * index))
        }
    }

    /// Where the slot of a data directory stands, if the image has that slot.
    pub fn directory_offset(&self, index: usize) -> (result: Result<Option<usize>, AppError>)
        ensures
            match self.directory_slot(index as int) {
                Ok(Some(slot)) => result == Ok::<Option<usize>, AppError>(Some(slot as usize))
                    && slot <= usize::MAX,
                Ok(None) => result == Ok::<Option<usize>, AppError>(None),
                Err(error) => result == Err::<Option<usize>, AppError>(error),
            },
    {
        if index >= self.directory_count {
            return Ok(None);
        }
        if index > usize::MAX / 8 || self.directories_offset > usize::MAX - 8 * index {
            return Err(AppError::DirectoryOffsetOverflow);
        }
        Ok(Some(self.directories_offset + 8 * index))
    }
}

/// The structure of an image: its header fields and its sections in table order.
pub struct PeModel {
    pub headers: PeHeaders,
    pub sections: Vec<SectionModel>,
}

/// The structure of an image, as contracts speak of it.
pub ghost struct ModelView {
    pub headers: PeHeaders,
    pub sections: Seq<SectionModel>,
}

impl View for PeModel {
    type V = ModelView;

    open spec fn view(&self) -> ModelView {
        ModelView { headers: self.headers, sections: self.sections@ }
    }
}

impl ModelView {
    /// Whether an executable section holds the address.
    pub open spec fn executable_at(self, rva: int) -> bool {
        exists|i: int|
            0 <= i < self.sections.len() && (#[trigger] self.sections[i]).executable()
                && self.sections[i].contains(rva)
    }
}

impl PeModel {
    pub fn kind(&self) -> (kind: PeKind)
        ensures
            kind == self@.headers.kind,
    {
        self.headers.kind
    }

    pub fn sections(&self) -> (sections: &[SectionModel])
        ensures
            sections@ == self@.sections,
    {
        self.sections.as_slice()
    }

    /// Whether an executable section holds the address.
    pub fn executable_rva(&self, rva: Rva) -> (result: bool)
        ensures
            result == self@.executable_at(rva.0 as int),
    {
        let mut index: usize = 0;
        while index < self.sections.len()
            invariant
                index <= self.sections@.len(),
                forall|i: int|
                    0 <= i < index ==> !((#[trigger] self.sections@[i]).executable()
                        && self.sections@[i].contains(rva.0 as int)),
            decreases self.sections@.len() - index,
        {
            if self.sections[index].is_executable() && self.sections[index].contains_rva(rva) {
                assert(self@.sections[index as int].executable());
                return true;
            }
            index = index + 1;
        }
        false
    }
}

/// The address and size that a data-directory slot holds.
#[derive(Clone, Copy, Debug, PartialEq, Eq, Structural)]
pub struct DataDirectory {
    pub rva: Rva,
    pub size: u32,
}

impl DataDirectory {
    pub fn rva(&self) -> (rva: Rva)
        ensures
            rva == self.rva,
    {
        self.rva
    }

    pub fn size(&self) -> (size: u32)
        ensures
            size == self.size,
    {
        self.size
    }
}

/// The data directory that the slot holds: none where the image lacks the slot, or where
/// the address or the size in it is zero.
pub open spec fn directory_of(bytes: Seq<u8>, headers: PeHeaders, index: int) -> Result<
    Option<DataDirectory>,
    AppError,
> {
    match headers.directory_slot(index) {
        Err(error) => Err(error),
        Ok(None) => Ok(None),
        Ok(Some(slot)) => match (get_u32(bytes, slot), get_u32(bytes, slot + 4)) {
            (Ok(rva), Ok(size)) => if rva == 0 || size == 0 {
                Ok(None)
            } else {
                Ok(Some(DataDirectory { rva: Rva(rva), size }))
            },
            _ => Err(AppError::FieldOutOfRange),
        },
    }
}

/// An image: its bytes and the structure found in them.
pub struct PeImage<'a> {
    pub bytes: &'a [u8],
    pub model: PeModel,
}

impl<'a> PeImage<'a> {
    pub fn bytes(&self) -> (bytes: &'a [u8])
        ensures
            bytes@ == self.bytes@,
    {
        self.bytes
    }

    pub fn model(&self) -> (model: &PeModel)
        ensures
            *model == self.model,
    {
        &self.model
    }

    /// The data directory that a slot holds.
    pub fn directory(&self, index: usize) -> (result: Result<Option<DataDirectory>, AppError>)
        ensures
            result == directory_of(self.bytes@, self.model.headers, index as int),
    {
        let slot: usize = match self.model.headers.directory_offset(index)? {
            Some(slot) => slot,
            None => {
                return Ok(None);
            },
        };
        let total: usize = self.bytes.len();
        let rva: u32 = read_u32(self.bytes, slot)?;
        let size: u32 = read_u32(self.bytes, slot.saturating_add(4))?;
        if rva == 0 || size == 0 {
            return Ok(None);
        }
        Ok(Some(DataDirectory { rva: Rva(rva), size }))
    }
}

} // verus!
