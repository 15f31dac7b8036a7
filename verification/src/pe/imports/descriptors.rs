//! Import descriptors that a captured image still has.

use vstd::prelude::*;

use crate::pe::image::{all_zero, fits, is_zero, u32_at};
use crate::pe::imports::thunks::{name_at, pointer_at, read_ascii, read_pointer, read_u32};
use crate::pe::rebuild::{clipped, lesser, lesser_of};
use crate::pe::{directory_of, ModelView, PeImage, PeKind, SectionModel, IMPORT_DIRECTORY};

verus! {

pub const IMPORT_DESCRIPTOR_SIZE: usize = 20;

pub const MAX_IMPORTS: usize = 65_536;

pub const MAX_IMPORT_GROUPS: usize = 4_096;

pub const DESCRIPTOR_NAME_OFFSET: usize = 12;

pub const DESCRIPTOR_FIRST_THUNK_OFFSET: usize = 16;

pub const DESCRIPTOR_SCAN_STEP: usize = 4;

pub const MAX_DESCRIPTOR_SCAN_STEPS: usize = 1_000_000;

pub const MIN_AVERAGE_THUNKS: usize = 2;

/// Whether a thunk imports by ordinal.
pub open spec fn by_ordinal(kind: PeKind, value: u64) -> bool {
    match kind {
        PeKind::Pe32 => value & 0x8000_0000 != 0,
        PeKind::Pe32Plus => value & 0x8000_0000_0000_0000 != 0,
    }
}

/// The length of a thunk table of which `index` entries were seen, where at most `limit`
/// are read, and how many more could have been read. Every entry imports by ordinal or
/// leads to a name; a table without entries is none.
pub open spec fn thunks_from(
    memory: Seq<u8>,
    kind: PeKind,
    table: int,
    index: int,
    limit: int,
) -> (Option<int>, int)
    decreases limit - index,
{
    if index >= limit {
        (None, limit - index)
    } else {
        match pointer_at(memory, table + index * kind.width(), kind.width()) {
            None => (None, limit - index),
            Some(value) => if value == 0 {
                (
                    if index > 0 {
                        Some(index)
                    } else {
                        None
                    },
                    limit - index - 1,
                )
            } else if by_ordinal(kind, value) || name_at(memory, value + 2) {
                thunks_from(memory, kind, table, index + 1, limit)
            } else {
                (None, limit - index - 1)
            },
        }
    }
}

/// The table that a descriptor leads to: that of names where it has one, else that of
/// addresses.
pub open spec fn thunk_table(original: u32, first: u32) -> int {
    if original != 0 {
        original as int
    } else {
        first as int
    }
}

/// The length of the thunk table of a descriptor, and what is left of the budget.
pub open spec fn thunk_length(
    memory: Seq<u8>,
    kind: PeKind,
    original: u32,
    first: u32,
    budget: int,
) -> (Option<int>, int) {
    thunks_from(memory, kind, thunk_table(original, first), 0, budget)
}

/// The offset of an entry of a table, held at the largest `usize`.
pub fn entry_offset(table: usize, index: usize, width: usize) -> (offset: usize)
    ensures
        offset == clipped(table + index * width),
{
    match index.checked_mul(width) {
        Some(delta) => table.saturating_add(delta),
        None => usize::MAX,
    }
}

/// Measures the thunk table of a descriptor; every entry that is read takes one off the
/// budget.
pub fn thunk_table_length(
    memory: &[u8],
    kind: PeKind,
    original: u32,
    first: u32,
    budget: &mut usize,
) -> (result: Option<usize>)
    ensures
        *final(budget) <= *old(budget),
        ({
            let (length, left) = thunk_length(memory@, kind, original, first, *old(budget) as int);
            *final(budget) == left && match length {
                Some(count) => result == Some(count as usize) && 0 < count <= *old(budget),
                None => result is None,
            }
        }),
{
    let table: usize = if original != 0 {
        original as usize
    } else {
        first as usize
    };
    let width: usize = kind.pointer_width();
    let limit: usize = *budget;
    let mut index: usize = 0;
    while index < limit
        invariant
            index <= limit,
            limit == *old(budget),
            *budget == limit - index,
            width == kind.width(),
            table == thunk_table(original, first),
            thunk_length(memory@, kind, original, first, limit as int) == thunks_from(
                memory@,
                kind,
                table as int,
                index as int,
                limit as int,
            ),
        decreases limit - index,
    {
        let total: usize = memory.len();
        let offset: usize = entry_offset(table, index, width);
        let value: u64 = match read_pointer(memory, offset, width) {
            Some(value) => value,
            None => {
                return None;
            },
        };
        *budget = *budget - 1;
        if value == 0 {
            return if index > 0 {
                Some(index)
            } else {
                None
            };
        }
        let ordinal = match kind {
            PeKind::Pe32 => value & 0x8000_0000 != 0,
            PeKind::Pe32Plus => value & 0x8000_0000_0000_0000 != 0,
        };
        if !ordinal {
            if value > 0xFFFF_FFFF - 2 || read_ascii(memory, value as usize + 2).is_none() {
                return None;
            }
        }
        index = index + 1;
    }
    None
}

/// Whether a descriptor has a thunk table; every entry that is read takes one off the
/// budget.
pub fn thunk_table_is_valid(
    memory: &[u8],
    kind: PeKind,
    original: u32,
    first: u32,
    budget: &mut usize,
) -> (result: bool)
    ensures
        result == (thunk_length(memory@, kind, original, first, *old(budget) as int).0 is Some),
        *final(budget) == thunk_length(memory@, kind, original, first, *old(budget) as int).1,
{
    thunk_table_length(memory, kind, original, first, budget).is_some()
}

/// The bytes of the descriptor at `offset`.
pub open spec fn descriptor_bytes(memory: Seq<u8>, offset: int) -> Seq<u8> {
    memory.subrange(offset, offset + 20)
}

/// `found` if it is not empty.
pub open spec fn nonempty(found: Seq<u8>) -> Option<Seq<u8>> {
    if found.len() == 0 {
        None
    } else {
        Some(found)
    }
}

/// The descriptors in `found` and the usable ones of the table from `index` up to `count`:
/// those with a name and a thunk table, up to one that is all zero. A table that leaves
/// memory has none.
pub open spec fn declared_from(
    memory: Seq<u8>,
    kind: PeKind,
    table: int,
    index: int,
    count: int,
    budget: int,
    found: Seq<u8>,
) -> Option<Seq<u8>>
    decreases count - index,
{
    let offset = table + 20 * index;
    if index >= count {
        nonempty(found)
    } else if !fits(memory, offset, 20) {
        None
    } else if all_zero(descriptor_bytes(memory, offset)) {
        nonempty(found)
    } else if !name_at(memory, u32_at(memory, offset + 12) as int) {
        declared_from(memory, kind, table, index + 1, count, budget, found)
    } else {
        let (length, left) = thunk_length(
            memory,
            kind,
            u32_at(memory, offset),
            u32_at(memory, offset + 16),
            budget,
        );
        declared_from(
            memory,
            kind,
            table,
            index + 1,
            count,
            left,
            if length is Some {
                found + descriptor_bytes(memory, offset)
            } else {
                found
            },
        )
    }
}

/// The usable descriptors of the import directory.
pub open spec fn declared_descriptors(memory: Seq<u8>, model: ModelView) -> Option<Seq<u8>> {
    match directory_of(memory, model.headers, 1) {
        Ok(Some(directory)) => if directory.size < 20 {
            None
        } else {
            declared_from(
                memory,
                model.headers.kind,
                directory.rva.0 as int,
                0,
                lesser(directory.size as int / 20, 4_096),
                65_536,
                Seq::empty(),
            )
        },
        _ => None,
    }
}

/// The contents of optional bytes.
pub open spec fn bytes_view(bytes: Option<Vec<u8>>) -> Option<Seq<u8>> {
    match bytes {
        Some(found) => Some(found@),
        None => None,
    }
}

/// The bytes, if there are any.
fn keep(found: Vec<u8>) -> (result: Option<Vec<u8>>)
    ensures
        bytes_view(result) == nonempty(found@),
{
    if found.len() == 0 {
        None
    } else {
        Some(found)
    }
}

/// Finds the usable descriptors of the import directory.
pub fn existing_descriptors(image: &PeImage<'_>) -> (result: Option<Vec<u8>>)
    ensures
        bytes_view(result) == declared_descriptors(image.bytes@, image.model@),
{
    let memory = image.bytes;
    let kind = image.model.headers.kind;
    let directory = match image.directory(IMPORT_DIRECTORY) {
        Ok(Some(directory)) => directory,
        _ => {
            return None;
        },
    };
    if directory.size < 20 {
        return None;
    }
    let table: usize = directory.rva.as_usize();
    let count: usize = lesser_of(
        directory.size as usize / IMPORT_DESCRIPTOR_SIZE,
        MAX_IMPORT_GROUPS,
    );
    let mut found: Vec<u8> = Vec::new();
    let mut budget: usize = MAX_IMPORTS;
    let mut index: usize = 0;
    while index < count
        invariant
            index <= count <= 4_096,
            memory@ == image.bytes@,
            kind == image.model@.headers.kind,
            declared_descriptors(image.bytes@, image.model@) == declared_from(
                memory@,
                kind,
                table as int,
                index as int,
                count as int,
                budget as int,
                found@,
            ),
        decreases count - index,
    {
        let total: usize = memory.len();
        let delta: usize = index * IMPORT_DESCRIPTOR_SIZE;
        if total < IMPORT_DESCRIPTOR_SIZE || table > total - IMPORT_DESCRIPTOR_SIZE || delta > total
            - IMPORT_DESCRIPTOR_SIZE - table {
            return None;
        }
        let offset: usize = table + delta;
        let descriptor = &memory[offset..offset + IMPORT_DESCRIPTOR_SIZE];
        if is_zero(descriptor) {
            return keep(found);
        }
        match (
            read_u32(memory, offset),
            read_u32(memory, offset + DESCRIPTOR_NAME_OFFSET),
            read_u32(memory, offset + DESCRIPTOR_FIRST_THUNK_OFFSET),
        ) {
            (Some(original), Some(name), Some(first)) => {
                if read_ascii(memory, name as usize).is_some() {
                    if thunk_table_is_valid(memory, kind, original, first, &mut budget) {
                        let ghost before = found@;
                        found.extend_from_slice(descriptor);
                        assert(found@ =~= before + descriptor_bytes(memory@, offset as int));
                    }
                }
            },
            _ => {
                return None;
            },
        }
        index = index + 1;
    }
    keep(found)
}

/// What was read of a descriptor array: its descriptors and how many thunks they have.
pub ghost struct ArrayView {
    pub found: Seq<u8>,
    pub thunks: int,
}

/// The descriptor array of which `index` descriptors were read, up to one that is all zero.
/// Every one has a name, an address table and a thunk table.
pub open spec fn array_from(
    memory: Seq<u8>,
    kind: PeKind,
    start: int,
    index: int,
    budget: int,
    seen: ArrayView,
) -> Option<ArrayView>
    decreases 4_096 - index,
{
    let offset = start + 20 * index;
    let name = u32_at(memory, offset + 12);
    let first = u32_at(memory, offset + 16);
    if index >= 4_096 {
        Some(seen)
    } else if !fits(memory, offset, 20) {
        None
    } else if all_zero(descriptor_bytes(memory, offset)) {
        Some(seen)
    } else if name == 0 || first == 0 || !name_at(memory, name as int) {
        None
    } else {
        let (length, left) = thunk_length(memory, kind, u32_at(memory, offset), first, budget);
        match length {
            None => None,
            Some(count) => array_from(
                memory,
                kind,
                start,
                index + 1,
                left,
                ArrayView {
                    found: seen.found + descriptor_bytes(memory, offset),
                    thunks: seen.thunks + count,
                },
            ),
        }
    }
}

/// The descriptor array at `start`: at least one descriptor, with two thunks each on
/// average.
pub open spec fn array_at(memory: Seq<u8>, kind: PeKind, start: int) -> Option<Seq<u8>> {
    match array_from(
        memory,
        kind,
        start,
        0,
        65_536,
        ArrayView { found: Seq::empty(), thunks: 0 },
    ) {
        None => None,
        Some(seen) => {
            let count = seen.found.len() as int / 20;
            if count > 0 && seen.thunks >= 2 * count {
                Some(seen.found)
            } else {
                None
            }
        },
    }
}

/// Reads the descriptor array at `start`.
pub fn try_descriptor_array(memory: &[u8], kind: PeKind, start: usize) -> (result: Option<Vec<u8>>)
    ensures
        bytes_view(result) == array_at(memory@, kind, start as int),
{
    let mut found: Vec<u8> = Vec::new();
    let mut thunks: usize = 0;
    let mut budget: usize = MAX_IMPORTS;
    let mut index: usize = 0;
    let ghost whole = array_from(
        memory@,
        kind,
        start as int,
        0,
        65_536,
        ArrayView { found: Seq::empty(), thunks: 0 },
    );
    let mut open = true;
    while index < MAX_IMPORT_GROUPS && open
        invariant
            index <= MAX_IMPORT_GROUPS,
            budget <= 65_536,
            thunks <= 65_536 * index,
            found@.len() <= 20 * index,
            whole == array_from(
                memory@,
                kind,
                start as int,
                0,
                65_536,
                ArrayView { found: Seq::empty(), thunks: 0 },
            ),
            open ==> whole == array_from(
                memory@,
                kind,
                start as int,
                index as int,
                budget as int,
                ArrayView { found: found@, thunks: thunks as int },
            ),
            !open ==> whole == Some(ArrayView { found: found@, thunks: thunks as int }),
        decreases
                MAX_IMPORT_GROUPS - index + if open {
                    1int
                } else {
                    0
                },
    {
        let total: usize = memory.len();
        let delta: usize = index * IMPORT_DESCRIPTOR_SIZE;
        if total < IMPORT_DESCRIPTOR_SIZE || start > total - IMPORT_DESCRIPTOR_SIZE || delta > total
            - IMPORT_DESCRIPTOR_SIZE - start {
            return None;
        }
        let offset: usize = start + delta;
        let descriptor = &memory[offset..offset + IMPORT_DESCRIPTOR_SIZE];
        if is_zero(descriptor) {
            open = false;
        } else {
            let (original, name, first): (u32, u32, u32) = match (
                read_u32(memory, offset),
                read_u32(memory, offset + DESCRIPTOR_NAME_OFFSET),
                read_u32(memory, offset + DESCRIPTOR_FIRST_THUNK_OFFSET),
            ) {
                (Some(original), Some(name), Some(first)) => (original, name, first),
                _ => {
                    return None;
                },
            };
            if name == 0 || first == 0 || read_ascii(memory, name as usize).is_none() {
                return None;
            }
            let length: usize = match thunk_table_length(
                memory,
                kind,
                original,
                first,
                &mut budget,
            ) {
                Some(length) => length,
                None => {
                    return None;
                },
            };
            thunks = thunks + length;
            let ghost before = found@;
            found.extend_from_slice(descriptor);
            assert(found@ =~= before + descriptor_bytes(memory@, offset as int));
            index = index + 1;
        }
    }
    let count: usize = found.len() / IMPORT_DESCRIPTOR_SIZE;
    if count > 0 && thunks >= MIN_AVERAGE_THUNKS * count {
        Some(found)
    } else {
        None
    }
}

/// The first descriptor array from `offset` up to `end`, and how many more positions could
/// have been tried.
pub open spec fn orphan_from(
    memory: Seq<u8>,
    kind: PeKind,
    offset: int,
    end: int,
    steps: int,
) -> (Option<Seq<u8>>, int)
    decreases steps,
{
    if offset + 20 > end || steps <= 0 {
        (None, steps)
    } else {
        match array_at(memory, kind, offset) {
            Some(found) => (Some(found), steps - 1),
            None => orphan_from(memory, kind, offset + 4, end, steps - 1),
        }
    }
}

/// The first descriptor array in the data sections from `index` on.
pub open spec fn orphan_in_sections(
    memory: Seq<u8>,
    kind: PeKind,
    sections: Seq<SectionModel>,
    index: int,
    steps: int,
) -> Option<Seq<u8>>
    decreases sections.len() - index,
{
    if index >= sections.len() {
        None
    } else if !sections[index].holds_data() {
        orphan_in_sections(memory, kind, sections, index + 1, steps)
    } else {
        let start = sections[index].start();
        let end = lesser(start + sections[index].declared(), memory.len() as int);
        match orphan_from(memory, kind, start, end, steps) {
            (Some(found), _) => Some(found),
            (None, left) => orphan_in_sections(memory, kind, sections, index + 1, left),
        }
    }
}

/// The descriptor array that was left behind in a data section.
pub open spec fn orphaned_descriptors(memory: Seq<u8>, model: ModelView) -> Option<Seq<u8>> {
    orphan_in_sections(memory, model.headers.kind, model.sections, 0, 1_000_000)
}

/// Looks for a descriptor array from `start` up to `end`; every position that is tried
/// takes one off the steps.
fn scan_section(
    memory: &[u8],
    kind: PeKind,
    start: usize,
    end: usize,
    steps: &mut usize,
) -> (result: Option<Vec<u8>>)
    requires
        end <= memory@.len(),
    ensures
        bytes_view(result) == orphan_from(
            memory@,
            kind,
            start as int,
            end as int,
            *old(steps) as int,
        ).0,
        *final(steps) == orphan_from(
            memory@,
            kind,
            start as int,
            end as int,
            *old(steps) as int,
        ).1,
{
    let mut offset: usize = start;
    while offset <= end && end - offset >= IMPORT_DESCRIPTOR_SIZE && *steps > 0
        invariant
            orphan_from(memory@, kind, start as int, end as int, *old(steps) as int)
                == orphan_from(memory@, kind, offset as int, end as int, *steps as int),
        decreases *steps,
    {
        *steps = *steps - 1;
        if let Some(found) = try_descriptor_array(memory, kind, offset) {
            return Some(found);
        }
        offset = offset + DESCRIPTOR_SCAN_STEP;
    }
    None
}

/// Looks for a descriptor array that was left behind in a data section.
pub fn scan_for_orphaned_descriptors(image: &PeImage<'_>) -> (result: Option<Vec<u8>>)
    ensures
        bytes_view(result) == orphaned_descriptors(image.bytes@, image.model@),
{
    let memory = image.bytes;
    let kind = image.model.headers.kind;
    let mut steps: usize = MAX_DESCRIPTOR_SCAN_STEPS;
    let mut index: usize = 0;
    while index < image.model.sections.len()
        invariant
            index <= image.model.sections@.len(),
            memory@ == image.bytes@,
            kind == image.model@.headers.kind,
            orphaned_descriptors(image.bytes@, image.model@) == orphan_in_sections(
                memory@,
                kind,
                image.model@.sections,
                index as int,
                steps as int,
            ),
        decreases image.model.sections@.len() - index,
    {
        let section = image.model.sections[index];
        if section.is_data() {
            let start: usize = section.virtual_address.as_usize();
            let end: usize = lesser_of(
                start.saturating_add(section.span() as usize),
                memory.len(),
            );
            if let Some(found) = scan_section(memory, kind, start, end, &mut steps) {
                return Some(found);
            }
        }
        index = index + 1;
    }
    None
}

} // verus!
