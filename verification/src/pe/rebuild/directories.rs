//! Data directories.

use vstd::prelude::*;

use crate::error::AppError;
use crate::pe::image::{
    fits, get_u16, get_u32, put_u16, put_u32, read_u16, read_u32, rewrote, u16_at, u32_at,
    write_u16, write_u32,
};
use crate::pe::rebuild::{
    clipped, file_offset, lesser, lesser_of, rva_to_file, SectionLayout,
};
use crate::pe::{ModelView, PeHeaders, PeKind, PeModel, SECURITY_DIRECTORY};

verus! {

pub const DEBUG_DIRECTORY: usize = 6;

pub const BASERELOC_DIRECTORY: usize = 5;

pub const RELOCATION_BLOCK_HEADER: usize = 8;

pub const MAX_RELOCATION_BLOCKS: usize = 65_536;

pub const DEBUG_ENTRY_SIZE: usize = 28;

pub const DEBUG_ENTRY_RAW_RVA: usize = 20;

pub const DEBUG_ENTRY_RAW_POINTER: usize = 24;

pub const MAX_DEBUG_ENTRIES: usize = 256;

pub const IMAGE_DLLCHARACTERISTICS_DYNAMIC_BASE: u16 = 0x0040;

pub const BOUND_IMPORT_DIRECTORY: usize = 11;

/// The name of a data directory.
pub open spec fn directory_label(index: int) -> Seq<char> {
    if index == 0 {
        "Export"@
    } else if index == 1 {
        "Import"@
    } else if index == 2 {
        "Resource"@
    } else if index == 3 {
        "Exception"@
    } else if index == 4 {
        "Certificate"@
    } else if index == 5 {
        "BaseReloc"@
    } else if index == 6 {
        "Debug"@
    } else if index == 7 {
        "Architecture"@
    } else if index == 8 {
        "GlobalPtr"@
    } else if index == 9 {
        "TLS"@
    } else if index == 10 {
        "LoadConfig"@
    } else if index == 11 {
        "BoundImport"@
    } else if index == 12 {
        "IAT"@
    } else if index == 13 {
        "DelayImport"@
    } else if index == 14 {
        "COMDescriptor"@
    } else if index == 15 {
        "Reserved"@
    } else {
        "Unknown"@
    }
}

/// Whether clearing the directory is worth telling: certificates and bound imports never
/// survive.
pub open spec fn notable(index: int) -> bool {
    index != 4 && index != 11
}

/// The name of a data directory.
pub fn directory_name(index: usize) -> (name: &'static str)
    ensures
        name@ == directory_label(index as int),
{
    match index {
        0 => "Export",
        1 => "Import",
        2 => "Resource",
        3 => "Exception",
        4 => "Certificate",
        5 => "BaseReloc",
        6 => "Debug",
        7 => "Architecture",
        8 => "GlobalPtr",
        9 => "TLS",
        10 => "LoadConfig",
        11 => "BoundImport",
        12 => "IAT",
        13 => "DelayImport",
        14 => "COMDescriptor",
        15 => "Reserved",
        _ => "Unknown",
    }
}

/// Whether clearing the directory is worth telling.
pub fn is_notable_directory(index: usize) -> (result: bool)
    ensures
        result == notable(index as int),
{
    index != SECURITY_DIRECTORY && index != BOUND_IMPORT_DIRECTORY
}

/// How many directories were cleared, and which of them are notable.
pub struct ClearedDirectories {
    pub total: usize,
    pub notable: Vec<usize>,
}

/// Cleared directories, as contracts speak of them.
pub ghost struct ClearedView {
    pub total: int,
    pub notable: Seq<int>,
}

impl View for ClearedDirectories {
    type V = ClearedView;

    open spec fn view(&self) -> ClearedView {
        ClearedView {
            total: self.total as int,
            notable: self.notable@.map_values(|index: usize| index as int),
        }
    }
}

/// Nothing cleared yet.
pub open spec fn nothing_cleared() -> ClearedView {
    ClearedView { total: 0, notable: Seq::empty() }
}

/// `cleared` with one more directory.
pub open spec fn recorded(cleared: ClearedView, index: int) -> ClearedView {
    ClearedView {
        total: clipped(cleared.total + 1),
        notable: if notable(index) {
            cleared.notable.push(index)
        } else {
            cleared.notable
        },
    }
}

impl ClearedDirectories {
    pub fn new() -> (cleared: ClearedDirectories)
        ensures
            cleared@ == nothing_cleared(),
    {
        let cleared = ClearedDirectories { total: 0, notable: Vec::new() };
        assert(cleared@.notable =~= Seq::empty());
        cleared
    }

    /// Counts one more directory.
    pub fn record(&mut self, index: usize)
        ensures
            final(self)@ == recorded(old(self)@, index as int),
    {
        self.total = self.total.saturating_add(1);
        if is_notable_directory(index) {
            self.notable.push(index);
        }
        assert(self@.notable =~= recorded(old(self)@, index as int).notable);
    }

    /// The names of the notable directories.
    pub fn notable_names(&self) -> (names: Vec<String>)
        ensures
            names@.len() == self@.notable.len(),
            forall|i: int|
                0 <= i < names@.len() ==> (#[trigger] names@[i])@ == directory_label(
                    self@.notable[i],
                ),
    {
        let mut names: Vec<String> = Vec::new();
        let mut index: usize = 0;
        while index < self.notable.len()
            invariant
                index <= self.notable@.len(),
                names@.len() == index,
                forall|i: int|
                    0 <= i < index ==> (#[trigger] names@[i])@ == directory_label(
                        self.notable@[i] as int,
                    ),
            decreases self.notable@.len() - index,
        {
            names.push(directory_name(self.notable[index]).to_string());
            index = index + 1;
        }
        names
    }
}

/// `output` with an address and a size in a directory slot.
pub open spec fn directory_written(
    output: Seq<u8>,
    headers: PeHeaders,
    index: int,
    rva: u32,
    size: u32,
) -> Result<Seq<u8>, AppError> {
    match headers.directory_slot(index) {
        Err(error) => Err(error),
        Ok(None) => Err(AppError::NoDirectorySlot),
        Ok(Some(slot)) => match put_u32(output, slot, rva) {
            Err(error) => Err(error),
            Ok(bytes) => put_u32(bytes, slot + 4, size),
        },
    }
}

/// Writes an address and a size into a directory slot.
pub fn write_directory(
    output: &mut [u8],
    model: &PeModel,
    index: usize,
    rva: u32,
    size: u32,
) -> (result: Result<(), AppError>)
    ensures
        rewrote(
            directory_written(old(output)@, model@.headers, index as int, rva, size),
            old(output)@,
            result,
            final(output)@,
        ),
        !(model@.headers.directory_slot(index as int) matches Ok(Some(slot)) && fits(
            old(output)@,
            slot,
            4,
        )) ==> final(output)@ == old(output)@,
{
    let total: usize = output.len();
    let slot: usize = match model.headers.directory_offset(index)? {
        Some(slot) => slot,
        None => {
            return Err(AppError::NoDirectorySlot);
        },
    };
    write_u32(output, slot, rva)?;
    write_u32(output, slot.saturating_add(4), size)
}

/// `output` with an empty directory slot, and whether it was not empty before. An image
/// without the slot stays as it is.
pub open spec fn directory_cleared(output: Seq<u8>, headers: PeHeaders, index: int) -> Result<
    (Seq<u8>, bool),
    AppError,
> {
    match headers.directory_slot(index) {
        Err(error) => Err(error),
        Ok(None) => Ok((output, false)),
        Ok(Some(slot)) => match directory_written(output, headers, index, 0, 0) {
            Err(error) => Err(error),
            Ok(bytes) => Ok((bytes, u32_at(output, slot) != 0 || u32_at(output, slot + 4) != 0)),
        },
    }
}

/// Empties a directory slot; the result counts the directories that went.
pub fn clear_directory(output: &mut [u8], model: &PeModel, index: usize) -> (result: Result<
    usize,
    AppError,
>)
    ensures
        final(output)@.len() == old(output)@.len(),
        !(model@.headers.directory_slot(index as int) matches Ok(Some(slot)) && fits(
            old(output)@,
            slot,
            4,
        )) ==> final(output)@ == old(output)@,
        match directory_cleared(old(output)@, model@.headers, index as int) {
            Ok((bytes, was_set)) => result == Ok::<usize, AppError>(
                if was_set {
                    1
                } else {
                    0
                },
            ) && final(output)@ == bytes,
            Err(error) => result == Err::<usize, AppError>(error),
        },
{
    let total: usize = output.len();
    let slot: usize = match model.headers.directory_offset(index)? {
        Some(slot) => slot,
        None => {
            return Ok(0);
        },
    };
    let was_set = read_u32(output, slot)? != 0 || read_u32(output, slot.saturating_add(4))? != 0;
    write_u32(output, slot, 0)?;
    write_u32(output, slot.saturating_add(4), 0)?;
    if was_set {
        Ok(1)
    } else {
        Ok(0)
    }
}

/// Whether a directory lies in the headers or in the captured part of one section.
pub open spec fn mapped(
    rva: int,
    size: int,
    layouts: Seq<SectionLayout>,
    header_size: int,
) -> bool {
    &&& size != 0
    &&& rva + size <= usize::MAX
    &&& rva + size <= header_size || exists|i: int|
        0 <= i < layouts.len() && (#[trigger] layouts[i]).model.start() <= rva && rva + size
            <= layouts[i].model.start() + layouts[i].source_length
}

/// Whether a directory lies in the headers or in the captured part of one section.
pub fn directory_is_mapped(
    rva: u32,
    size: u32,
    layouts: &[SectionLayout],
    header_size: usize,
) -> (result: bool)
    ensures
        result == mapped(rva as int, size as int, layouts@, header_size as int),
{
    if size == 0 {
        return false;
    }
    let start: usize = rva as usize;
    let end: usize = match start.checked_add(size as usize) {
        Some(end) => end,
        None => {
            return false;
        },
    };
    if end <= header_size {
        return true;
    }
    let mut index: usize = 0;
    while index < layouts.len()
        invariant
            index <= layouts@.len(),
            start == rva,
            end == rva + size,
            size != 0,
            end > header_size,
            forall|i: int|
                0 <= i < index ==> !((#[trigger] layouts@[i]).model.start() <= rva && rva + size
                    <= layouts@[i].model.start() + layouts@[i].source_length),
        decreases layouts@.len() - index,
    {
        let section_start: usize = layouts[index].model.virtual_address.0 as usize;
        let section_end: usize = section_start.saturating_add(layouts[index].source_length);
        if start >= section_start && end <= section_end {
            assert(layouts@[index as int].model.start() <= rva);
            return true;
        }
        index = index + 1;
    }
    false
}

/// The type of the relocation entry at `offset`.
pub open spec fn relocation_type(output: Seq<u8>, offset: int) -> int {
    u16_at(output, offset) as int / 0x1000
}

/// The relocation type that the format uses for pointers.
pub open spec fn pointer_relocation(kind: PeKind) -> int {
    match kind {
        PeKind::Pe32 => 3,
        PeKind::Pe32Plus => 10,
    }
}

/// Whether the entries of a block lie in the file and are pointer relocations or padding.
pub open spec fn entries_fit(output: Seq<u8>, kind: PeKind, first: int, count: int) -> bool {
    forall|i: int|
        #![trigger relocation_type(output, first + 2 * i)]
        0 <= i < count ==> fits(output, first + 2 * i, 2) && (relocation_type(
            output,
            first + 2 * i,
        ) == 0 || relocation_type(output, first + 2 * i) == pointer_relocation(kind))
}

/// Whether one of the entries of a block is a pointer relocation.
pub open spec fn has_fixup(output: Seq<u8>, first: int, count: int) -> bool {
    exists|i: int|
        #![trigger relocation_type(output, first + 2 * i)]
        0 <= i < count && relocation_type(output, first + 2 * i) != 0
}

/// Whether the relocation block at `cursor` is well formed and ends by `end`.
pub open spec fn block_fits(
    output: Seq<u8>,
    kind: PeKind,
    layouts: Seq<SectionLayout>,
    header_size: int,
    cursor: int,
    end: int,
) -> bool {
    let size = u32_at(output, cursor + 4) as int;
    &&& fits(output, cursor, 8)
    &&& size >= 8
    &&& size % 2 == 0
    &&& cursor + size <= end
    &&& file_offset(u32_at(output, cursor) as int, layouts, header_size) is Some
    &&& entries_fit(output, kind, cursor + 8, (size - 8) / 2)
}

/// Whether the blocks from `cursor` on fill the table up to `end`, in at most `blocks`
/// steps, and it has a pointer relocation; `found` says whether one was seen before.
pub open spec fn walkable(
    output: Seq<u8>,
    kind: PeKind,
    layouts: Seq<SectionLayout>,
    header_size: int,
    cursor: int,
    end: int,
    found: bool,
    blocks: int,
) -> bool
    decreases blocks,
{
    if blocks <= 0 {
        false
    } else if cursor >= end {
        found
    } else {
        let size = u32_at(output, cursor + 4) as int;
        block_fits(output, kind, layouts, header_size, cursor, end) && walkable(
            output,
            kind,
            layouts,
            header_size,
            cursor + size,
            end,
            found || has_fixup(output, cursor + 8, (size - 8) / 2),
            blocks - 1,
        )
    }
}

/// Whether the relocation table at an address can be walked.
pub open spec fn relocations_walkable(
    output: Seq<u8>,
    model: ModelView,
    layouts: Seq<SectionLayout>,
    header_size: int,
    rva: int,
    size: int,
) -> bool {
    match file_offset(rva, layouts, header_size) {
        None => false,
        Some(start) => walkable(
            output,
            model.headers.kind,
            layouts,
            header_size,
            start,
            clipped(start + size),
            false,
            65_536,
        ),
    }
}

/// Reads the entries of a block: whether one is a pointer relocation, or nothing where the
/// entries are not as they should be.
fn read_entries(output: &[u8], kind: PeKind, first: usize, count: usize) -> (result: Option<bool>)
    requires
        first + 2 * count <= usize::MAX,
    ensures
        match result {
            Some(found) => entries_fit(output@, kind, first as int, count as int) && found
                == has_fixup(output@, first as int, count as int),
            None => !entries_fit(output@, kind, first as int, count as int),
        },
{
    let expected: u16 = match kind {
        PeKind::Pe32 => 3,
        PeKind::Pe32Plus => 10,
    };
    let mut found = false;
    let mut index: usize = 0;
    while index < count
        invariant
            index <= count,
            first + 2 * count <= usize::MAX,
            expected == pointer_relocation(kind),
            expected != 0,
            entries_fit(output@, kind, first as int, index as int),
            found == has_fixup(output@, first as int, index as int),
        decreases count - index,
    {
        let offset: usize = first + 2 * index;
        let entry: u16 = match read_u16(output, offset) {
            Ok(entry) => entry,
            Err(_) => {
                assert(!entries_fit(output@, kind, first as int, count as int)) by {
                    let seen = relocation_type(output@, first + 2 * index);
                }
                return None;
            },
        };
        let found_type: u16 = entry / 0x1000;
        assert(found_type == relocation_type(output@, first + 2 * index));
        if found_type != 0 {
            if found_type != expected {
                return None;
            }
            found = true;
        }
        index = index + 1;
    }
    Some(found)
}

/// Whether the relocation table at an address can be walked.
pub fn relocations_are_walkable(
    output: &[u8],
    model: &PeModel,
    layouts: &[SectionLayout],
    header_size: usize,
    rva: u32,
    size: u32,
) -> (result: bool)
    ensures
        result == relocations_walkable(
            output@,
            model@,
            layouts@,
            header_size as int,
            rva as int,
            size as int,
        ),
{
    let start: usize = match rva_to_file(rva, layouts, header_size) {
        Some(start) => start,
        None => {
            return false;
        },
    };
    let kind = model.headers.kind;
    let end: usize = start.saturating_add(size as usize);
    let ghost whole = relocations_walkable(
        output@,
        model@,
        layouts@,
        header_size as int,
        rva as int,
        size as int,
    );
    let mut cursor: usize = start;
    let mut found = false;
    let mut block: usize = 0;
    while block < MAX_RELOCATION_BLOCKS
        invariant
            block <= MAX_RELOCATION_BLOCKS,
            whole == relocations_walkable(
                output@,
                model@,
                layouts@,
                header_size as int,
                rva as int,
                size as int,
            ),
            whole == walkable(
                output@,
                kind,
                layouts@,
                header_size as int,
                cursor as int,
                end as int,
                found,
                MAX_RELOCATION_BLOCKS - block,
            ),
        decreases MAX_RELOCATION_BLOCKS - block,
    {
        if cursor >= end {
            return found;
        }
        let total: usize = output.len();
        let (page, block_size): (u32, u32) = match (
            read_u32(output, cursor),
            read_u32(output, cursor.saturating_add(4)),
        ) {
            (Ok(page), Ok(block_size)) => (page, block_size),
            _ => {
                return false;
            },
        };
        let block_size: usize = block_size as usize;
        if block_size < RELOCATION_BLOCK_HEADER || block_size % 2 != 0 || block_size > end - cursor
            || rva_to_file(page, layouts, header_size).is_none() {
            return false;
        }
        let count: usize = (block_size - RELOCATION_BLOCK_HEADER) / 2;
        match read_entries(output, kind, cursor + RELOCATION_BLOCK_HEADER, count) {
            Some(fixup) => {
                found = found || fixup;
            },
            None => {
                return false;
            },
        }
        cursor = cursor + block_size;
        block = block + 1;
    }
    false
}

/// Whether the directory may stay. A certificate may not, one outside the image may not,
/// and relocations have to be walkable.
pub open spec fn directory_stays(
    output: Seq<u8>,
    model: ModelView,
    layouts: Seq<SectionLayout>,
    header_size: int,
    index: int,
    rva: int,
    size: int,
) -> bool {
    &&& index != 4
    &&& mapped(rva, size, layouts, header_size)
    &&& index != 5 || relocations_walkable(output, model, layouts, header_size, rva, size)
}

/// `output` with the bad directories from `index` on cleared, and those cleared with the
/// ones in `cleared`.
pub open spec fn bad_cleared(
    output: Seq<u8>,
    model: ModelView,
    layouts: Seq<SectionLayout>,
    header_size: int,
    index: int,
    cleared: ClearedView,
) -> Result<(Seq<u8>, ClearedView), AppError>
    decreases model.headers.directory_count - index,
{
    match model.headers.directory_slot(index) {
        Err(error) => Err(error),
        Ok(None) => Ok((output, cleared)),
        Ok(Some(slot)) => if !fits(output, slot, 8) {
            Err(AppError::FieldOutOfRange)
        } else {
            let rva = u32_at(output, slot);
            let size = u32_at(output, slot + 4);
            if rva == 0 && size == 0 || directory_stays(
                output,
                model,
                layouts,
                header_size,
                index,
                rva as int,
                size as int,
            ) {
                bad_cleared(output, model, layouts, header_size, index + 1, cleared)
            } else {
                match directory_written(output, model.headers, index, 0, 0) {
                    Err(error) => Err(error),
                    Ok(bytes) => bad_cleared(
                        bytes,
                        model,
                        layouts,
                        header_size,
                        index + 1,
                        recorded(cleared, index),
                    ),
                }
            }
        },
    }
}

/// Clears directories that lead nowhere.
pub fn clear_bad_directories(
    output: &mut [u8],
    model: &PeModel,
    layouts: &[SectionLayout],
    header_size: usize,
) -> (result: Result<ClearedDirectories, AppError>)
    ensures
        final(output)@.len() == old(output)@.len(),
        match bad_cleared(
            old(output)@,
            model@,
            layouts@,
            header_size as int,
            0,
            nothing_cleared(),
        ) {
            Ok((bytes, cleared)) => result matches Ok(found) && found@ == cleared && final(output)@
                == bytes,
            Err(error) => result matches Err(found) && found == error,
        },
{
    let mut cleared = ClearedDirectories::new();
    let mut index: usize = 0;
    while index < model.headers.directory_count
        invariant
            index <= model.headers.directory_count,
            output@.len() == old(output)@.len(),
            bad_cleared(
                old(output)@,
                model@,
                layouts@,
                header_size as int,
                0,
                nothing_cleared(),
            ) == bad_cleared(
                output@,
                model@,
                layouts@,
                header_size as int,
                index as int,
                cleared@,
            ),
        decreases model.headers.directory_count - index,
    {
        let total: usize = output.len();
        let slot: usize = match model.headers.directory_offset(index)? {
            Some(slot) => slot,
            None => {
                return Ok(cleared);
            },
        };
        let rva: u32 = read_u32(output, slot)?;
        let size: u32 = read_u32(output, slot.saturating_add(4))?;
        if !(rva == 0 && size == 0) {
            let stays = index != SECURITY_DIRECTORY && directory_is_mapped(
                rva,
                size,
                layouts,
                header_size,
            ) && (index != BASERELOC_DIRECTORY || relocations_are_walkable(
                output,
                model,
                layouts,
                header_size,
                rva,
                size,
            ));
            if !stays {
                write_directory(output, model, index, 0, 0)?;
                cleared.record(index);
            }
        }
        index = index + 1;
    }
    Ok(cleared)
}

/// Whether the directory is empty, or lies in the image and is no certificate.
pub open spec fn settled(
    output: Seq<u8>,
    headers: PeHeaders,
    layouts: Seq<SectionLayout>,
    header_size: int,
    index: int,
) -> bool {
    let slot = headers.directories_offset + 8 * index;
    let rva = u32_at(output, slot);
    let size = u32_at(output, slot + 4);
    (rva == 0 && size == 0) || (index != 4 && mapped(
        rva as int,
        size as int,
        layouts,
        header_size,
    ))
}

/// Once bad directories are cleared, every directory is empty or lies in the image, none is
/// a certificate, and no byte outside the directory slots has changed.
pub proof fn law_bad_directories_go(
    output: Seq<u8>,
    model: ModelView,
    layouts: Seq<SectionLayout>,
    header_size: int,
)
    ensures
        bad_cleared(output, model, layouts, header_size, 0, nothing_cleared()) matches Ok(
            (bytes, cleared),
        ) ==> {
            &&& bytes.len() == output.len()
            &&& forall|j: int|
                0 <= j < model.headers.directory_count ==> #[trigger] settled(
                    bytes,
                    model.headers,
                    layouts,
                    header_size,
                    j,
                )
            &&& forall|p: int|
                0 <= p < bytes.len() && !(model.headers.directories_offset <= p
                    < model.headers.directories_offset + 8 * model.headers.directory_count)
                    ==> #[trigger] bytes[p] == output[p]
        },
{
    lemma_bad_cleared(output, model, layouts, header_size, 0, nothing_cleared());
}

proof fn lemma_bad_cleared(
    output: Seq<u8>,
    model: ModelView,
    layouts: Seq<SectionLayout>,
    header_size: int,
    index: int,
    cleared: ClearedView,
)
    requires
        0 <= index,
        forall|j: int|
            0 <= j < index && j < model.headers.directory_count ==> #[trigger] settled(
                output,
                model.headers,
                layouts,
                header_size,
                j,
            ),
    ensures
        bad_cleared(output, model, layouts, header_size, index, cleared) matches Ok(
            (bytes, total),
        ) ==> {
            &&& bytes.len() == output.len()
            &&& forall|j: int|
                0 <= j < model.headers.directory_count ==> #[trigger] settled(
                    bytes,
                    model.headers,
                    layouts,
                    header_size,
                    j,
                )
            &&& forall|p: int|
                0 <= p < bytes.len() && !(model.headers.directories_offset <= p
                    < model.headers.directories_offset + 8 * model.headers.directory_count)
                    ==> #[trigger] bytes[p] == output[p]
        },
    decreases model.headers.directory_count - index,
{
    if let Ok(Some(slot)) = model.headers.directory_slot(index) {
        if fits(output, slot, 8) {
            let rva = u32_at(output, slot);
            let size = u32_at(output, slot + 4);
            if rva == 0 && size == 0 || directory_stays(
                output,
                model,
                layouts,
                header_size,
                index,
                rva as int,
                size as int,
            ) {
                assert(settled(output, model.headers, layouts, header_size, index));
                lemma_bad_cleared(output, model, layouts, header_size, index + 1, cleared);
            } else if let Ok(bytes) = directory_written(output, model.headers, index, 0, 0) {
                assert forall|j: int| 0 <= j < index + 1 implies #[trigger] settled(
                    bytes,
                    model.headers,
                    layouts,
                    header_size,
                    j,
                ) by {
                    let at = model.headers.directories_offset + 8 * j;
                    if j < index {
                        assert(settled(output, model.headers, layouts, header_size, j));
                        assert(u32_at(bytes, at) == u32_at(output, at));
                        assert(u32_at(bytes, at + 4) == u32_at(output, at + 4));
                    } else {
                        assert(u32_at(bytes, at) == 0);
                        assert(u32_at(bytes, at + 4) == 0);
                    }
                }
                lemma_bad_cleared(
                    bytes,
                    model,
                    layouts,
                    header_size,
                    index + 1,
                    recorded(cleared, index),
                );
            }
        }
    }
}

/// The file offset that a debug entry stores for an address; zero where there is none.
pub open spec fn debug_pointer(raw_rva: u32, layouts: Seq<SectionLayout>, header_size: int) -> u32 {
    if raw_rva == 0 {
        0
    } else {
        match file_offset(raw_rva as int, layouts, header_size) {
            Some(offset) => if offset <= u32::MAX {
                offset as u32
            } else {
                0
            },
            None => 0,
        }
    }
}

/// `output` with the debug entries from `index` up to `count` pointing into the file, and
/// how many were changed with the `repaired` before.
pub open spec fn debug_entries_repaired(
    output: Seq<u8>,
    layouts: Seq<SectionLayout>,
    header_size: int,
    table: int,
    index: int,
    count: int,
    repaired: int,
) -> (Seq<u8>, int)
    decreases count - index,
{
    let entry = table + 28 * index;
    if index >= count || !fits(output, entry + 20, 8) {
        (output, repaired)
    } else {
        let pointer = debug_pointer(u32_at(output, entry + 20), layouts, header_size);
        if u32_at(output, entry + 24) == pointer {
            debug_entries_repaired(
                output,
                layouts,
                header_size,
                table,
                index + 1,
                count,
                repaired,
            )
        } else {
            debug_entries_repaired(
                put_u32(output, entry + 24, pointer)->Ok_0,
                layouts,
                header_size,
                table,
                index + 1,
                count,
                repaired + 1,
            )
        }
    }
}

/// `output` with its debug entries pointing into the file, and how many were changed.
pub open spec fn debug_repaired(
    output: Seq<u8>,
    model: ModelView,
    layouts: Seq<SectionLayout>,
    header_size: int,
) -> Result<(Seq<u8>, int), AppError> {
    match model.headers.directory_slot(6) {
        Err(error) => Err(error),
        Ok(None) => Ok((output, 0)),
        Ok(Some(slot)) => if !fits(output, slot, 8) {
            Err(AppError::FieldOutOfRange)
        } else {
            let rva = u32_at(output, slot) as int;
            let size = u32_at(output, slot + 4) as int;
            match file_offset(rva, layouts, header_size) {
                Some(table) => if rva == 0 || size < 28 {
                    Ok((output, 0))
                } else {
                    Ok(
                        debug_entries_repaired(
                            output,
                            layouts,
                            header_size,
                            table,
                            0,
                            lesser(size / 28, 256),
                            0,
                        ),
                    )
                },
                None => Ok((output, 0)),
            }
        },
    }
}

/// Points the debug entries into the file and counts those that changed.
pub fn repair_debug_directory(
    output: &mut [u8],
    model: &PeModel,
    layouts: &[SectionLayout],
    header_size: usize,
) -> (result: Result<usize, AppError>)
    ensures
        final(output)@.len() == old(output)@.len(),
        result is Err ==> final(output)@ == old(output)@,
        match debug_repaired(old(output)@, model@, layouts@, header_size as int) {
            Ok((bytes, repaired)) => result == Ok::<usize, AppError>(repaired as usize) && 0
                <= repaired <= usize::MAX && final(output)@ == bytes,
            Err(error) => result == Err::<usize, AppError>(error),
        },
{
    let total: usize = output.len();
    let slot: usize = match model.headers.directory_offset(DEBUG_DIRECTORY)? {
        Some(slot) => slot,
        None => {
            return Ok(0);
        },
    };
    let rva: u32 = read_u32(output, slot)?;
    let size: usize = read_u32(output, slot.saturating_add(4))? as usize;
    if rva == 0 || size < DEBUG_ENTRY_SIZE {
        return Ok(0);
    }
    let table: usize = match rva_to_file(rva, layouts, header_size) {
        Some(table) => table,
        None => {
            return Ok(0);
        },
    };
    let count: usize = lesser_of(size / DEBUG_ENTRY_SIZE, MAX_DEBUG_ENTRIES);
    let mut repaired: usize = 0;
    let mut index: usize = 0;
    while index < count
        invariant
            index <= count <= 256,
            repaired <= index,
            total == output@.len(),
            output@.len() == old(output)@.len(),
            debug_repaired(old(output)@, model@, layouts@, header_size as int) == Ok::<
                (Seq<u8>, int),
                AppError,
            >(
                debug_entries_repaired(
                    output@,
                    layouts@,
                    header_size as int,
                    table as int,
                    index as int,
                    count as int,
                    repaired as int,
                ),
            ),
        decreases count - index,
    {
        let entry: usize = table.saturating_add(index * DEBUG_ENTRY_SIZE);
        let pointer_offset: usize = entry.saturating_add(DEBUG_ENTRY_RAW_POINTER);
        let (raw_rva, stored): (u32, u32) = match (
            read_u32(output, entry.saturating_add(DEBUG_ENTRY_RAW_RVA)),
            read_u32(output, pointer_offset),
        ) {
            (Ok(raw_rva), Ok(stored)) => (raw_rva, stored),
            _ => {
                return Ok(repaired);
            },
        };
        let pointer: u32 = if raw_rva == 0 {
            0
        } else {
            match rva_to_file(raw_rva, layouts, header_size) {
                Some(offset) => if offset <= 0xFFFF_FFFF {
                    offset as u32
                } else {
                    0
                },
                None => 0,
            }
        };
        if stored != pointer {
            write_u32(output, pointer_offset, pointer)?;
            repaired = repaired + 1;
        }
        index = index + 1;
    }
    Ok(repaired)
}

/// Whether the image has a relocation table.
pub open spec fn has_relocations(output: Seq<u8>, headers: PeHeaders) -> Result<bool, AppError> {
    match headers.directory_slot(5) {
        Err(error) => Err(error),
        Ok(None) => Ok(false),
        Ok(Some(slot)) => match get_u32(output, slot) {
            Err(error) => Err(error),
            Ok(rva) => if rva == 0 {
                Ok(false)
            } else {
                match get_u32(output, slot + 4) {
                    Err(error) => Err(error),
                    Ok(size) => Ok(size != 0),
                }
            },
        },
    }
}

/// `output` without the flag that lets it be loaded anywhere, where it has no relocations;
/// and whether the flag went.
pub open spec fn base_fixed(output: Seq<u8>, headers: PeHeaders) -> Result<
    (Seq<u8>, bool),
    AppError,
> {
    let offset = headers.dll_characteristics_offset as int;
    match has_relocations(output, headers) {
        Err(error) => Err(error),
        Ok(true) => Ok((output, false)),
        Ok(false) => match get_u16(output, offset) {
            Err(error) => Err(error),
            Ok(flags) => if flags & IMAGE_DLLCHARACTERISTICS_DYNAMIC_BASE == 0 {
                Ok((output, false))
            } else {
                match put_u16(output, offset, flags & !IMAGE_DLLCHARACTERISTICS_DYNAMIC_BASE) {
                    Err(error) => Err(error),
                    Ok(bytes) => Ok((bytes, true)),
                }
            },
        },
    }
}

/// Takes the flag that lets the image be loaded anywhere, where it has no relocations.
pub fn clear_dynamic_base(output: &mut [u8], model: &PeModel) -> (result: Result<bool, AppError>)
    ensures
        final(output)@.len() == old(output)@.len(),
        result is Err ==> final(output)@ == old(output)@,
        match base_fixed(old(output)@, model@.headers) {
            Ok((bytes, fixed)) => result == Ok::<bool, AppError>(fixed) && final(output)@ == bytes,
            Err(error) => result == Err::<bool, AppError>(error),
        },
{
    let total: usize = output.len();
    if let Some(slot) = model.headers.directory_offset(BASERELOC_DIRECTORY)? {
        if read_u32(output, slot)? != 0 && read_u32(output, slot.saturating_add(4))? != 0 {
            return Ok(false);
        }
    }
    let offset: usize = model.headers.dll_characteristics_offset;
    let flags: u16 = read_u16(output, offset)?;
    if flags & IMAGE_DLLCHARACTERISTICS_DYNAMIC_BASE == 0 {
        return Ok(false);
    }
    write_u16(output, offset, flags & !IMAGE_DLLCHARACTERISTICS_DYNAMIC_BASE)?;
    Ok(true)
}

proof fn lemma_debug_entries(
    output: Seq<u8>,
    layouts: Seq<SectionLayout>,
    header_size: int,
    table: int,
    index: int,
    count: int,
    repaired: int,
)
    requires
        0 <= table,
        0 <= index <= count,
        forall|i: int|
            0 <= i < index ==> #[trigger] debug_entry_right(output, layouts, header_size, table, i),
    ensures
        ({
            let (bytes, total) = debug_entries_repaired(
                output,
                layouts,
                header_size,
                table,
                index,
                count,
                repaired,
            );
            &&& bytes.len() == output.len()
            &&& repaired <= total <= repaired + count - index
            &&& total == repaired ==> bytes == output
            &&& forall|i: int|
                0 <= i < count ==> #[trigger] debug_entry_right(
                    bytes,
                    layouts,
                    header_size,
                    table,
                    i,
                )
        }),
    decreases count - index,
{
    let entry = table + 28 * index;
    if index < count && fits(output, entry + 20, 8) {
        let pointer = debug_pointer(u32_at(output, entry + 20), layouts, header_size);
        let next = if u32_at(output, entry + 24) == pointer {
            output
        } else {
            put_u32(output, entry + 24, pointer)->Ok_0
        };
        assert forall|i: int| 0 <= i < index + 1 implies #[trigger] debug_entry_right(
            next,
            layouts,
            header_size,
            table,
            i,
        ) by {
            let at = table + 28 * i;
            if i < index {
                assert(debug_entry_right(output, layouts, header_size, table, i));
                assert(u32_at(next, at + 20) == u32_at(output, at + 20));
                assert(u32_at(next, at + 24) == u32_at(output, at + 24));
            } else {
                assert(u32_at(next, at + 20) == u32_at(output, at + 20));
                assert(u32_at(next, at + 24) == pointer);
            }
        }
        lemma_debug_entries(
            next,
            layouts,
            header_size,
            table,
            index + 1,
            count,
            if u32_at(output, entry + 24) == pointer {
                repaired
            } else {
                repaired + 1
            },
        );
    } else {
        assert forall|i: int| 0 <= i < count implies #[trigger] debug_entry_right(
            output,
            layouts,
            header_size,
            table,
            i,
        ) by {
            if i >= index {
                assert(!fits(output, table + 28 * i + 20, 8));
            }
        }
    }
}

/// Whether the debug entry at `index` points to where its data is in the file, if the entry
/// lies in the file.
pub open spec fn debug_entry_right(
    bytes: Seq<u8>,
    layouts: Seq<SectionLayout>,
    header_size: int,
    table: int,
    index: int,
) -> bool {
    let entry = table + 28 * index;
    fits(bytes, entry + 20, 8) ==> u32_at(bytes, entry + 24) == debug_pointer(
        u32_at(bytes, entry + 20),
        layouts,
        header_size,
    )
}

/// Once debug entries are repaired, every one in the file points to where its data is, and
/// where none was counted nothing has changed.
pub proof fn law_debug_entries_point_into_the_file(
    output: Seq<u8>,
    layouts: Seq<SectionLayout>,
    header_size: int,
    table: int,
    count: int,
)
    requires
        0 <= table,
        0 <= count,
    ensures
        ({
            let (bytes, total) = debug_entries_repaired(
                output,
                layouts,
                header_size,
                table,
                0,
                count,
                0,
            );
            &&& bytes.len() == output.len()
            &&& 0 <= total <= count
            &&& total == 0 ==> bytes == output
            &&& forall|i: int|
                0 <= i < count ==> #[trigger] debug_entry_right(
                    bytes,
                    layouts,
                    header_size,
                    table,
                    i,
                )
        }),
{
    lemma_debug_entries(output, layouts, header_size, table, 0, count, 0);
}

/// An image without relocations does not keep the flag that lets it be loaded anywhere; one
/// with relocations stays as it is.
pub proof fn law_images_without_relocations_are_fixed(output: Seq<u8>, headers: PeHeaders)
    ensures
        base_fixed(output, headers) matches Ok((bytes, fixed)) ==> {
            &&& has_relocations(output, headers) == Ok::<bool, AppError>(true) ==> bytes == output
                && !fixed
            &&& has_relocations(output, headers) == Ok::<bool, AppError>(false) ==> u16_at(
                bytes,
                headers.dll_characteristics_offset as int,
            ) & IMAGE_DLLCHARACTERISTICS_DYNAMIC_BASE == 0
            &&& !fixed ==> bytes == output
        },
{
    if let Ok((bytes, fixed)) = base_fixed(output, headers) {
        if fixed {
            let offset = headers.dll_characteristics_offset as int;
            let flags = u16_at(output, offset);
            assert((flags & !0x0040u16) & 0x0040u16 == 0) by (bit_vector);
            crate::pe::image::law_fields_read_back(
                output,
                offset,
                flags & !IMAGE_DLLCHARACTERISTICS_DYNAMIC_BASE,
                0,
                0,
            );
        }
    }
}

} // verus!
