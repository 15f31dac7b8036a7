//! The table of runtime functions.

use vstd::prelude::*;

use crate::error::AppError;
use crate::pe::image::{fits, le_u32, overwrite, put_u32, read_u32, rewrote, u32_at, write_u32};
use crate::pe::rebuild::{file_offset, lesser, lesser_of, rva_to_file, SectionLayout};
use crate::pe::{ModelView, PeKind, PeModel, Rva};

verus! {

pub const EXCEPTION_DIRECTORY: usize = 3;

pub const RUNTIME_FUNCTION_SIZE: usize = 12;

/// An entry of the table: where a function begins and ends, and where its unwind data is.
#[derive(Clone, Copy, Debug, PartialEq, Eq, Structural)]
pub struct RuntimeFunction {
    pub begin: u32,
    pub end: u32,
    pub unwind: u32,
}

/// The entry that `bytes` hold at `offset`.
pub open spec fn function_at(bytes: Seq<u8>, offset: int) -> RuntimeFunction {
    RuntimeFunction {
        begin: u32_at(bytes, offset),
        end: u32_at(bytes, offset + 4),
        unwind: u32_at(bytes, offset + 8),
    }
}

/// The bytes of an entry.
pub open spec fn function_bytes(function: RuntimeFunction) -> Seq<u8> {
    le_u32(function.begin) + le_u32(function.end) + le_u32(function.unwind)
}

/// The low three bits of the first byte of unwind data: its version.
pub open spec fn unwind_version(byte: u8) -> int {
    byte as int % 8
}

/// Whether an entry describes code: a nonempty range of executable addresses whose unwind
/// data is in the file and has a known version.
pub open spec fn valid_function(
    output: Seq<u8>,
    function: RuntimeFunction,
    model: ModelView,
    layouts: Seq<SectionLayout>,
    header_size: int,
) -> bool {
    &&& function.begin < function.end
    &&& model.executable_at(function.begin as int)
    &&& model.executable_at(function.end - 1)
    &&& match file_offset(function.unwind as int, layouts, header_size) {
        Some(offset) => offset < output.len() && (unwind_version(output[offset]) == 1
            || unwind_version(output[offset]) == 2),
        None => false,
    }
}

/// How many of `count` entries at `offset` lie in the file.
pub open spec fn complete_entries(output: Seq<u8>, offset: int, count: int) -> int {
    if offset > output.len() {
        0
    } else {
        lesser(count, (output.len() - offset) / 12)
    }
}

/// Those of the first `count` entries at `offset` that are valid.
pub open spec fn valid_functions(
    output: Seq<u8>,
    model: ModelView,
    layouts: Seq<SectionLayout>,
    header_size: int,
    offset: int,
    count: int,
) -> Seq<RuntimeFunction>
    decreases count,
{
    if count <= 0 {
        Seq::empty()
    } else {
        let earlier = valid_functions(output, model, layouts, header_size, offset, count - 1);
        let function = function_at(output, offset + 12 * (count - 1));
        if valid_function(output, function, model, layouts, header_size) {
            earlier.push(function)
        } else {
            earlier
        }
    }
}

/// The valid entries of a table of `size` bytes.
pub open spec fn table_functions(
    output: Seq<u8>,
    model: ModelView,
    layouts: Seq<SectionLayout>,
    header_size: int,
    offset: int,
    size: int,
) -> Seq<RuntimeFunction> {
    valid_functions(
        output,
        model,
        layouts,
        header_size,
        offset,
        complete_entries(output, offset, size / 12),
    )
}

/// How many entries of a table of `size` bytes are not valid; a part of an entry at the end
/// counts as one.
pub open spec fn invalid_functions(valid: Seq<RuntimeFunction>, size: int) -> int {
    size / 12 - valid.len() + if size % 12 != 0 {
        1int
    } else {
        0
    }
}

/// Whether an entry describes code.
pub fn runtime_function_is_valid(
    output: &[u8],
    entry: &[u8],
    model: &PeModel,
    layouts: &[SectionLayout],
    header_size: usize,
) -> (result: bool)
    ensures
        result == (entry@.len() >= 12 && valid_function(
            output@,
            function_at(entry@, 0),
            model@,
            layouts@,
            header_size as int,
        )),
{
    let (begin, end, unwind): (u32, u32, u32) = match (
        read_u32(entry, 0),
        read_u32(entry, 4),
        read_u32(entry, 8),
    ) {
        (Ok(begin), Ok(end), Ok(unwind)) => (begin, end, unwind),
        _ => {
            return false;
        },
    };
    if begin >= end || !model.executable_rva(Rva(begin)) || !model.executable_rva(Rva(end - 1)) {
        return false;
    }
    let offset: usize = match rva_to_file(unwind, layouts, header_size) {
        Some(offset) => offset,
        None => {
            return false;
        },
    };
    if offset >= output.len() {
        return false;
    }
    let version: u8 = output[offset] % 8;
    version == 1 || version == 2
}

/// The valid entries of a table, and how many others it has.
pub struct ExceptionScan {
    pub valid: Vec<RuntimeFunction>,
    pub invalid: usize,
}

/// Collects the valid entries of a table.
pub fn collect_valid_runtime_functions(
    output: &[u8],
    model: &PeModel,
    layouts: &[SectionLayout],
    header_size: usize,
    file_offset: usize,
    size: usize,
) -> (scan: ExceptionScan)
    ensures
        scan.valid@ == table_functions(
            output@,
            model@,
            layouts@,
            header_size as int,
            file_offset as int,
            size as int,
        ),
        scan.invalid == invalid_functions(scan.valid@, size as int),
        scan.valid@.len() <= size / 12,
{
    let count: usize = size / RUNTIME_FUNCTION_SIZE;
    let complete: usize = if file_offset > output.len() {
        0
    } else {
        lesser_of(count, (output.len() - file_offset) / RUNTIME_FUNCTION_SIZE)
    };
    let mut valid: Vec<RuntimeFunction> = Vec::new();
    let mut index: usize = 0;
    while index < complete
        invariant
            index <= complete <= count,
            complete > 0 ==> file_offset + 12 * complete <= output@.len(),
            valid@.len() <= index,
            valid@ == valid_functions(
                output@,
                model@,
                layouts@,
                header_size as int,
                file_offset as int,
                index as int,
            ),
        decreases complete - index,
    {
        let total: usize = output.len();
        let offset: usize = file_offset + RUNTIME_FUNCTION_SIZE * index;
        let entry = &output[offset..offset + RUNTIME_FUNCTION_SIZE];
        assert(function_at(entry@, 0) == function_at(output@, offset as int));
        if runtime_function_is_valid(output, entry, model, layouts, header_size) {
            match (read_u32(entry, 0), read_u32(entry, 4), read_u32(entry, 8)) {
                (Ok(begin), Ok(end), Ok(unwind)) => {
                    valid.push(RuntimeFunction { begin, end, unwind });
                },
                _ => {},
            }
        }
        index = index + 1;
    }
    let partial: usize = if size % RUNTIME_FUNCTION_SIZE != 0 {
        1
    } else {
        0
    };
    let invalid: usize = (count - valid.len()) + partial;
    ExceptionScan { valid, invalid }
}

/// The address ranges that runtime functions cover.
pub type UnwindRanges = Vec<(u32, u32)>;

/// The address ranges of entries.
pub open spec fn function_ranges(valid: Seq<RuntimeFunction>) -> Seq<(u32, u32)> {
    valid.map_values(|function: RuntimeFunction| (function.begin, function.end))
}

/// The address ranges of entries.
pub fn runtime_function_ranges(valid: &[RuntimeFunction]) -> (ranges: UnwindRanges)
    ensures
        ranges@ == function_ranges(valid@),
{
    let mut ranges: UnwindRanges = Vec::new();
    let mut index: usize = 0;
    while index < valid.len()
        invariant
            index <= valid@.len(),
            ranges@ == function_ranges(valid@.take(index as int)),
        decreases valid@.len() - index,
    {
        ranges.push((valid[index].begin, valid[index].end));
        index = index + 1;
        assert(ranges@ =~= function_ranges(valid@.take(index as int)));
    }
    assert(valid@.take(index as int) =~= valid@);
    ranges
}

/// The bytes of entries, one behind the other.
pub open spec fn packed(valid: Seq<RuntimeFunction>) -> Seq<u8>
    decreases valid.len(),
{
    if valid.len() == 0 {
        Seq::empty()
    } else {
        packed(valid.drop_last()) + function_bytes(valid.last())
    }
}

/// `output` with a table of `size` bytes that holds the entries and zeros behind them.
#[verifier::opaque]
pub open spec fn table_written(
    output: Seq<u8>,
    offset: int,
    size: int,
    valid: Seq<RuntimeFunction>,
) -> Seq<u8> {
    overwrite(
        overwrite(output, offset, Seq::new(size as nat, |i: int| 0u8)),
        offset,
        packed(valid.take(lesser(valid.len() as int, size / 12))),
    )
}

/// `bytes` with the slot of the table brought in line with the number of entries: the size
/// of what is left, or nothing where no entry is.
pub open spec fn slot_written(bytes: Seq<u8>, slot: int, count: int) -> Result<Seq<u8>, AppError> {
    if count == 0 {
        match put_u32(bytes, slot, 0) {
            Err(error) => Err(error),
            Ok(cleared) => put_u32(cleared, slot + 4, 0),
        }
    } else if 12 * count > u32::MAX {
        Err(AppError::ExceptionSizeOverflow)
    } else {
        put_u32(bytes, slot + 4, (12 * count) as u32)
    }
}

/// `output` with the entries in place of the table, and its slot brought in line.
pub open spec fn functions_written(
    output: Seq<u8>,
    slot: int,
    offset: int,
    size: int,
    valid: Seq<RuntimeFunction>,
) -> Result<Seq<u8>, AppError> {
    if offset + size > usize::MAX {
        Err(AppError::ExceptionRangeOverflow)
    } else if offset + size > output.len() {
        Err(AppError::ExceptionOutsideImage)
    } else {
        slot_written(table_written(output, offset, size, valid), slot, valid.len() as int)
    }
}

proof fn lemma_packed_length(valid: Seq<RuntimeFunction>)
    ensures
        packed(valid).len() == 12 * valid.len(),
    decreases valid.len(),
{
    if valid.len() > 0 {
        lemma_packed_length(valid.drop_last());
    }
}

/// Writes the table of `size` bytes.
fn write_table(output: &mut [u8], offset: usize, size: usize, valid: &[RuntimeFunction])
    requires
        offset + size <= old(output)@.len(),
    ensures
        final(output)@ == table_written(old(output)@, offset as int, size as int, valid@),
        final(output)@.len() == old(output)@.len(),
{
    proof {
        reveal(table_written);
    }
    let total: usize = output.len();
    let mut cleared: usize = 0;
    while cleared < size
        invariant
            cleared <= size,
            total == old(output)@.len(),
            offset + size <= total,
            output@ == overwrite(
                old(output)@,
                offset as int,
                Seq::new(cleared as nat, |i: int| 0u8),
            ),
        decreases size - cleared,
    {
        output[offset + cleared] = 0;
        cleared = cleared + 1;
        assert(output@ =~= overwrite(
            old(output)@,
            offset as int,
            Seq::new(cleared as nat, |i: int| 0u8),
        ));
    }
    let ghost blank = output@;
    let count: usize = lesser_of(valid.len(), size / RUNTIME_FUNCTION_SIZE);
    let mut index: usize = 0;
    assert(valid@.take(0) =~= Seq::empty());
    assert(overwrite(blank, offset as int, packed(valid@.take(0))) =~= blank);
    while index < count
        invariant
            index <= count <= valid@.len(),
            12 * count <= size,
            total == blank.len(),
            offset + size <= total,
            output@ == overwrite(blank, offset as int, packed(valid@.take(index as int))),
        decreases count - index,
    {
        let ghost before = output@;
        let function = valid[index];
        let at: usize = offset + RUNTIME_FUNCTION_SIZE * index;
        proof {
            lemma_packed_length(valid@.take(index as int));
            assert(valid@.take(index + 1).drop_last() =~= valid@.take(index as int));
        }
        let begin = write_u32(output, at, function.begin);
        let end = write_u32(output, at + 4, function.end);
        let unwind = write_u32(output, at + 8, function.unwind);
        assert(output@ =~= overwrite(before, at as int, function_bytes(function)));
        index = index + 1;
        assert(output@ =~= overwrite(blank, offset as int, packed(valid@.take(index as int))));
    }
    assert(overwrite(old(output)@, offset as int, Seq::new(0, |i: int| 0u8)) =~= old(output)@);
}

/// Writes the entries in place of the table, and brings its slot in line.
pub fn write_valid_runtime_functions(
    output: &mut [u8],
    entry_offset: usize,
    file_offset: usize,
    size: usize,
    valid: &[RuntimeFunction],
) -> (result: Result<(), AppError>)
    ensures
        final(output)@.len() == old(output)@.len(),
        file_offset + size > old(output)@.len() ==> final(output)@ == old(output)@,
        rewrote(
            functions_written(
                old(output)@,
                entry_offset as int,
                file_offset as int,
                size as int,
                valid@,
            ),
            old(output)@,
            result,
            final(output)@,
        ),
{
    if size > usize::MAX - file_offset {
        return Err(AppError::ExceptionRangeOverflow);
    }
    if file_offset + size > output.len() {
        return Err(AppError::ExceptionOutsideImage);
    }
    write_table(output, file_offset, size, valid);
    let total: usize = output.len();
    if valid.len() == 0 {
        write_u32(output, entry_offset, 0)?;
        return write_u32(output, entry_offset.saturating_add(4), 0);
    }
    if valid.len() > 0xFFFF_FFFF / RUNTIME_FUNCTION_SIZE {
        return Err(AppError::ExceptionSizeOverflow);
    }
    write_u32(
        output,
        entry_offset.saturating_add(4),
        (valid.len() * RUNTIME_FUNCTION_SIZE) as u32,
    )
}

/// What a repair found: how many entries were dropped, and the ranges of the others, if
/// there was a table.
pub struct ExceptionRepair {
    pub invalid: usize,
    pub ranges: Option<UnwindRanges>,
}

/// What a repair found, as contracts speak of it.
pub ghost struct ExceptionView {
    pub invalid: int,
    pub ranges: Option<Seq<(u32, u32)>>,
}

impl View for ExceptionRepair {
    type V = ExceptionView;

    open spec fn view(&self) -> ExceptionView {
        ExceptionView {
            invalid: self.invalid as int,
            ranges: match self.ranges {
                Some(ranges) => Some(ranges@),
                None => None,
            },
        }
    }
}

impl ExceptionRepair {
    /// What is found where there is no table.
    pub fn absent() -> (repair: ExceptionRepair)
        ensures
            repair@ == no_table(),
    {
        ExceptionRepair { invalid: 0, ranges: None }
    }
}

/// What is found where there is no table.
pub open spec fn no_table() -> ExceptionView {
    ExceptionView { invalid: 0, ranges: None }
}

/// `output` without the invalid entries of the table at `offset`, and what was found.
pub open spec fn table_repaired(
    output: Seq<u8>,
    model: ModelView,
    layouts: Seq<SectionLayout>,
    header_size: int,
    slot: int,
    offset: int,
    size: int,
) -> Result<(Seq<u8>, ExceptionView), AppError> {
    let valid = table_functions(output, model, layouts, header_size, offset, size);
    let invalid = invalid_functions(valid, size);
    let found = ExceptionView { invalid, ranges: Some(function_ranges(valid)) };
    if invalid == 0 {
        Ok((output, found))
    } else {
        match functions_written(output, slot, offset, size, valid) {
            Err(error) => Err(error),
            Ok(bytes) => Ok((bytes, found)),
        }
    }
}

/// `output` without invalid runtime functions, and what was found. Only the 64-bit format
/// has such a table.
pub open spec fn exception_repaired(
    output: Seq<u8>,
    model: ModelView,
    layouts: Seq<SectionLayout>,
    header_size: int,
) -> Result<(Seq<u8>, ExceptionView), AppError> {
    if model.headers.kind != PeKind::Pe32Plus {
        Ok((output, no_table()))
    } else {
        match model.headers.directory_slot(3) {
            Err(error) => Err(error),
            Ok(None) => Ok((output, no_table())),
            Ok(Some(slot)) => if !fits(output, slot, 8) {
                Err(AppError::FieldOutOfRange)
            } else {
                let rva = u32_at(output, slot) as int;
                let size = u32_at(output, slot + 4) as int;
                match file_offset(rva, layouts, header_size) {
                    Some(offset) => if rva == 0 || size == 0 {
                        Ok((output, no_table()))
                    } else {
                        table_repaired(output, model, layouts, header_size, slot, offset, size)
                    },
                    None => Ok((output, no_table())),
                }
            },
        }
    }
}

/// Drops invalid runtime functions.
pub fn repair_exception_directory(
    output: &mut [u8],
    model: &PeModel,
    layouts: &[SectionLayout],
    header_size: usize,
) -> (result: Result<ExceptionRepair, AppError>)
    ensures
        final(output)@.len() == old(output)@.len(),
        result is Err ==> final(output)@ == old(output)@,
        match exception_repaired(old(output)@, model@, layouts@, header_size as int) {
            Ok((bytes, found)) => result matches Ok(repair) && repair@ == found && final(output)@
                == bytes,
            Err(error) => result matches Err(found) && found == error,
        },
{
    let total: usize = output.len();
    match model.headers.kind {
        PeKind::Pe32 => {
            return Ok(ExceptionRepair::absent());
        },
        PeKind::Pe32Plus => {},
    }
    let slot: usize = match model.headers.directory_offset(EXCEPTION_DIRECTORY)? {
        Some(slot) => slot,
        None => {
            return Ok(ExceptionRepair::absent());
        },
    };
    let rva: u32 = read_u32(output, slot)?;
    let size: usize = read_u32(output, slot.saturating_add(4))? as usize;
    if rva == 0 || size == 0 {
        return Ok(ExceptionRepair::absent());
    }
    let offset: usize = match rva_to_file(rva, layouts, header_size) {
        Some(offset) => offset,
        None => {
            return Ok(ExceptionRepair::absent());
        },
    };
    let scan = collect_valid_runtime_functions(output, model, layouts, header_size, offset, size);
    let ranges = runtime_function_ranges(scan.valid.as_slice());
    if scan.invalid > 0 {
        proof {
            let valid = scan.valid@;
            let table = table_written(output@, offset as int, size as int, valid);
            assert(table.len() == output@.len()) by {
                reveal(table_written);
            }
            assert(offset + size <= output@.len() ==> slot_written(
                table,
                slot as int,
                valid.len() as int,
            ) is Ok);
        }
        write_valid_runtime_functions(output, slot, offset, size, scan.valid.as_slice())?;
    }
    Ok(ExceptionRepair { invalid: scan.invalid, ranges: Some(ranges) })
}

/// Whether one of the ranges holds the address.
pub open spec fn in_a_range(ranges: Seq<(u32, u32)>, entry: u32) -> bool {
    exists|i: int| 0 <= i < ranges.len() && (#[trigger] ranges[i]).0 <= entry < ranges[i].1
}

/// Whether one of the ranges holds the address, if there are ranges.
pub open spec fn covered_by(ranges: Option<Seq<(u32, u32)>>, entry: u32) -> Option<bool> {
    match ranges {
        None => None,
        Some(found) => Some(in_a_range(found, entry)),
    }
}

/// Whether one of the ranges holds the entry point, if there are ranges.
pub fn entry_unwind_covered(ranges: &Option<UnwindRanges>, entry: u32) -> (result: Option<bool>)
    ensures
        result == covered_by(
            match *ranges {
                Some(found) => Some(found@),
                None => None,
            },
            entry,
        ),
{
    match ranges {
        None => None,
        Some(found) => {
            let mut index: usize = 0;
            while index < found.len()
                invariant
                    *ranges == Some(*found),
                    index <= found@.len(),
                    forall|i: int|
                        0 <= i < index ==> !((#[trigger] found@[i]).0 <= entry < found@[i].1),
                decreases found@.len() - index,
            {
                let (begin, end): (u32, u32) = found[index];
                if entry >= begin && entry < end {
                    assert(found@[index as int] == (begin, end));
                    assert(in_a_range(found@, entry));
                    return Some(true);
                }
                index = index + 1;
            }
            assert(!in_a_range(found@, entry));
            Some(false)
        },
    }
}

proof fn lemma_valid_functions(
    output: Seq<u8>,
    model: ModelView,
    layouts: Seq<SectionLayout>,
    header_size: int,
    offset: int,
    count: int,
)
    ensures
        ({
            let valid = valid_functions(output, model, layouts, header_size, offset, count);
            &&& valid.len() <= if count > 0 {
                count
            } else {
                0
            }
            &&& forall|i: int|
                0 <= i < valid.len() ==> valid_function(
                    output,
                    #[trigger] valid[i],
                    model,
                    layouts,
                    header_size,
                )
        }),
    decreases count,
{
    if count > 0 {
        lemma_valid_functions(output, model, layouts, header_size, offset, count - 1);
    }
}

/// The valid entries of a table fit into it.
pub proof fn lemma_table_functions(
    output: Seq<u8>,
    model: ModelView,
    layouts: Seq<SectionLayout>,
    header_size: int,
    offset: int,
    size: int,
)
    requires
        0 <= size,
    ensures
        12 * table_functions(output, model, layouts, header_size, offset, size).len() <= size,
{
    lemma_valid_functions(
        output,
        model,
        layouts,
        header_size,
        offset,
        complete_entries(output, offset, size / 12),
    );
}

/// Every range that a repaired table reports is nonempty, and begins and ends in executable
/// code.
pub proof fn law_reported_ranges_are_code(
    output: Seq<u8>,
    model: ModelView,
    layouts: Seq<SectionLayout>,
    header_size: int,
)
    ensures
        exception_repaired(output, model, layouts, header_size) matches Ok((bytes, found))
            ==> found.ranges matches Some(ranges) ==> forall|i: int|
            0 <= i < ranges.len() ==> (#[trigger] ranges[i]).0 < ranges[i].1
                && model.executable_at(ranges[i].0 as int) && model.executable_at(
                ranges[i].1 - 1,
            ),
{
    if let Ok((bytes, found)) = exception_repaired(output, model, layouts, header_size) {
        if let Some(ranges) = found.ranges {
            let slot = model.headers.directory_slot(3)->Ok_0->Some_0;
            let rva = u32_at(output, slot) as int;
            let size = u32_at(output, slot + 4) as int;
            let offset = file_offset(rva, layouts, header_size)->Some_0;
            let count = complete_entries(output, offset, size / 12);
            lemma_valid_functions(output, model, layouts, header_size, offset, count);
            let valid = table_functions(output, model, layouts, header_size, offset, size);
            assert(ranges == function_ranges(valid));
            assert forall|i: int| 0 <= i < ranges.len() implies (#[trigger] ranges[i]).0
                < ranges[i].1 && model.executable_at(ranges[i].0 as int) && model.executable_at(
                ranges[i].1 - 1,
            ) by {
                assert(valid_function(output, valid[i], model, layouts, header_size));
            }
        }
    }
}

proof fn lemma_packed(valid: Seq<RuntimeFunction>, index: int)
    requires
        0 <= index < valid.len(),
    ensures
        packed(valid).len() == 12 * valid.len(),
        function_at(packed(valid), 12 * index) == valid[index],
    decreases valid.len(),
{
    lemma_packed_length(valid);
    let earlier = packed(valid.drop_last());
    lemma_packed_length(valid.drop_last());
    let bytes = packed(valid);
    if index < valid.len() - 1 {
        lemma_packed(valid.drop_last(), index);
        assert forall|p: int|
            12 * index <= p < 12 * index + 12 implies #[trigger] bytes[p] == earlier[p] by {}
        assert(function_at(bytes, 12 * index) == function_at(earlier, 12 * index));
    } else {
        let last = function_bytes(valid.last());
        assert forall|p: int|
            12 * index <= p < 12 * index + 12 implies #[trigger] bytes[p] == last[p
            - 12 * index] by {}
        assert(function_at(bytes, 12 * index) == function_at(last, 0));
        lemma_function_bytes(valid.last());
    }
}

proof fn lemma_function_bytes(function: RuntimeFunction)
    ensures
        function_bytes(function).len() == 12,
        function_at(function_bytes(function), 0) == function,
{
    let bytes = function_bytes(function);
    assert(u32_at(bytes, 0) == function.begin);
    assert(u32_at(bytes, 4) == function.end);
    assert(u32_at(bytes, 8) == function.unwind);
}

/// A table that was rewritten holds the entries in order, and zeros behind them; no byte
/// outside it has changed.
pub proof fn law_rewritten_table_reads_back(
    output: Seq<u8>,
    offset: int,
    size: int,
    valid: Seq<RuntimeFunction>,
)
    requires
        0 <= offset,
        12 * valid.len() <= size,
        offset + size <= output.len(),
    ensures
        ({
            let bytes = table_written(output, offset, size, valid);
            &&& bytes.len() == output.len()
            &&& forall|i: int|
                0 <= i < valid.len() ==> function_at(bytes, offset + 12 * i) == #[trigger] valid[i]
            &&& forall|p: int|
                offset + 12 * valid.len() <= p < offset + size ==> #[trigger] bytes[p] == 0
            &&& forall|p: int|
                0 <= p < output.len() && !(offset <= p < offset + size) ==> #[trigger] bytes[p]
                    == output[p]
        }),
{
    reveal(table_written);
    let bytes = table_written(output, offset, size, valid);
    assert(valid.take(lesser(valid.len() as int, size / 12)) =~= valid);
    lemma_packed_length(valid);
    assert forall|i: int| 0 <= i < valid.len() implies function_at(bytes, offset + 12 * i)
        == #[trigger] valid[i] by {
        lemma_packed(valid, i);
        assert forall|p: int|
            offset + 12 * i <= p < offset + 12 * i + 12 implies #[trigger] bytes[p] == packed(
            valid,
        )[p - offset] by {}
        assert(function_at(bytes, offset + 12 * i) == function_at(packed(valid), 12 * i));
    }
}

} // verus!
