//! Little-endian fields of a byte buffer.

use vstd::prelude::*;

use crate::error::AppError;
use crate::pe::PeKind;

verus! {

/// Whether `size` bytes starting at `offset` lie inside `bytes`.
pub open spec fn fits(bytes: Seq<u8>, offset: int, size: int) -> bool {
    0 <= offset && offset + size <= bytes.len()
}

/// The 16-bit value stored at `offset`.
pub open spec fn u16_at(bytes: Seq<u8>, offset: int) -> u16 {
    (bytes[offset] + 0x100 * bytes[offset + 1]) as u16
}

/// The 32-bit value stored at `offset`.
pub open spec fn u32_at(bytes: Seq<u8>, offset: int) -> u32 {
    (u16_at(bytes, offset) + 0x1_0000 * u16_at(bytes, offset + 2)) as u32
}

/// The 64-bit value stored at `offset`.
pub open spec fn u64_at(bytes: Seq<u8>, offset: int) -> u64 {
    (u32_at(bytes, offset) + 0x1_0000_0000 * u32_at(bytes, offset + 4)) as u64
}

/// The bytes of a 16-bit value.
pub open spec fn le_u16(value: u16) -> Seq<u8> {
    seq![(value % 0x100) as u8, (value / 0x100) as u8]
}

/// The bytes of a 32-bit value.
pub open spec fn le_u32(value: u32) -> Seq<u8> {
    le_u16((value % 0x1_0000) as u16) + le_u16((value / 0x1_0000) as u16)
}

/// The bytes of a 64-bit value.
pub open spec fn le_u64(value: u64) -> Seq<u8> {
    le_u32((value % 0x1_0000_0000) as u32) + le_u32((value / 0x1_0000_0000) as u32)
}

/// `bytes` with `data` in place of what stood at `offset`.
pub open spec fn overwrite(bytes: Seq<u8>, offset: int, data: Seq<u8>) -> Seq<u8> {
    Seq::new(
        bytes.len(),
        |i: int| if offset <= i < offset + data.len() { data[i - offset] } else { bytes[i] },
    )
}

/// The 16-bit field at `offset`, or the error of a field that is not there.
pub open spec fn get_u16(bytes: Seq<u8>, offset: int) -> Result<u16, AppError> {
    if fits(bytes, offset, 2) {
        Ok(u16_at(bytes, offset))
    } else {
        Err(AppError::FieldOutOfRange)
    }
}

/// The 32-bit field at `offset`, or the error of a field that is not there.
pub open spec fn get_u32(bytes: Seq<u8>, offset: int) -> Result<u32, AppError> {
    if fits(bytes, offset, 4) {
        Ok(u32_at(bytes, offset))
    } else {
        Err(AppError::FieldOutOfRange)
    }
}

/// The 64-bit field at `offset`, or the error of a field that is not there.
pub open spec fn get_u64(bytes: Seq<u8>, offset: int) -> Result<u64, AppError> {
    if fits(bytes, offset, 8) {
        Ok(u64_at(bytes, offset))
    } else {
        Err(AppError::FieldOutOfRange)
    }
}

/// The pointer at `offset`, or the error of a pointer that is not there.
pub open spec fn get_pointer(bytes: Seq<u8>, offset: int, kind: PeKind) -> Result<u64, AppError> {
    match kind {
        PeKind::Pe32 => match get_u32(bytes, offset) {
            Ok(value) => Ok(value as u64),
            Err(error) => Err(error),
        },
        PeKind::Pe32Plus => get_u64(bytes, offset),
    }
}

/// `bytes` with `data` stored at `offset`, or the error where it does not fit.
pub open spec fn put_bytes(bytes: Seq<u8>, offset: int, data: Seq<u8>) -> Result<
    Seq<u8>,
    AppError,
> {
    if fits(bytes, offset, data.len() as int) {
        Ok(overwrite(bytes, offset, data))
    } else {
        Err(AppError::FieldOutOfRange)
    }
}

/// `bytes` with a 16-bit field stored at `offset`.
pub open spec fn put_u16(bytes: Seq<u8>, offset: int, value: u16) -> Result<Seq<u8>, AppError> {
    put_bytes(bytes, offset, le_u16(value))
}

/// `bytes` with a 32-bit field stored at `offset`.
pub open spec fn put_u32(bytes: Seq<u8>, offset: int, value: u32) -> Result<Seq<u8>, AppError> {
    put_bytes(bytes, offset, le_u32(value))
}

/// `bytes` with a 64-bit field stored at `offset`.
pub open spec fn put_u64(bytes: Seq<u8>, offset: int, value: u64) -> Result<Seq<u8>, AppError> {
    put_bytes(bytes, offset, le_u64(value))
}

/// What a step that rewrites a buffer did, given what it was to do: on success the buffer
/// is the new one, on failure the error is the given one and the length has not changed.
pub open spec fn rewrote(
    expected: Result<Seq<u8>, AppError>,
    before: Seq<u8>,
    result: Result<(), AppError>,
    after: Seq<u8>,
) -> bool {
    match expected {
        Ok(bytes) => result == Ok::<(), AppError>(()) && after == bytes,
        Err(error) => result == Err::<(), AppError>(error) && after.len() == before.len(),
    }
}

/// Whether every byte is zero.
pub open spec fn all_zero(bytes: Seq<u8>) -> bool {
    forall|i: int| 0 <= i < bytes.len() ==> bytes[i] == 0
}

/// The length of the nonempty, NUL-terminated ASCII text at `start`, of which `length`
/// characters were seen, if its terminator is found within `max` bytes.
pub open spec fn ascii_length_from(bytes: Seq<u8>, start: int, length: int, max: int) -> Option<
    int,
>
    decreases max - length,
{
    if length >= max || !fits(bytes, start + length, 1) {
        None
    } else if bytes[start + length] == 0 {
        if length > 0 {
            Some(length)
        } else {
            None
        }
    } else if bytes[start + length] < 0x80 {
        ascii_length_from(bytes, start, length + 1, max)
    } else {
        None
    }
}

/// The length of the nonempty, NUL-terminated ASCII text at `start`, if there is one whose
/// terminator is found within `max` bytes.
pub open spec fn ascii_length(bytes: Seq<u8>, start: int, max: int) -> Option<int> {
    ascii_length_from(bytes, start, 0, max)
}

/// Reads a 16-bit field.
pub fn read_u16(bytes: &[u8], offset: usize) -> (result: Result<u16, AppError>)
    ensures
        result == get_u16(bytes@, offset as int),
{
    if bytes.len() < 2 || offset > bytes.len() - 2 {
        return Err(AppError::FieldOutOfRange);
    }
    Ok(bytes[offset] as u16 + 0x100 * (bytes[offset + 1] as u16))
}

/// Reads a 32-bit field.
pub fn read_u32(bytes: &[u8], offset: usize) -> (result: Result<u32, AppError>)
    ensures
        result == get_u32(bytes@, offset as int),
{
    if bytes.len() < 4 || offset > bytes.len() - 4 {
        return Err(AppError::FieldOutOfRange);
    }
    let low: u16 = bytes[offset] as u16 + 0x100 * (bytes[offset + 1] as u16);
    let high: u16 = bytes[offset + 2] as u16 + 0x100 * (bytes[offset + 3] as u16);
    Ok(low as u32 + 0x1_0000 * (high as u32))
}

/// Reads a 64-bit field.
pub fn read_u64(bytes: &[u8], offset: usize) -> (result: Result<u64, AppError>)
    ensures
        result == get_u64(bytes@, offset as int),
{
    if bytes.len() < 8 || offset > bytes.len() - 8 {
        return Err(AppError::FieldOutOfRange);
    }
    let low: u32 = read_u32(bytes, offset)?;
    let high: u32 = read_u32(bytes, offset + 4)?;
    Ok(low as u64 + 0x1_0000_0000 * (high as u64))
}

/// Reads a pointer of the width that `kind` has.
pub fn read_pointer(bytes: &[u8], offset: usize, kind: PeKind) -> (result: Result<u64, AppError>)
    ensures
        result == get_pointer(bytes@, offset as int, kind),
{
    match kind {
        PeKind::Pe32 => match read_u32(bytes, offset) {
            Ok(value) => Ok(value as u64),
            Err(error) => Err(error),
        },
        PeKind::Pe32Plus => read_u64(bytes, offset),
    }
}

/// Copies `data` over the bytes at `offset`.
pub fn copy_into(bytes: &mut [u8], offset: usize, data: &[u8])
    requires
        offset + data@.len() <= old(bytes)@.len(),
    ensures
        final(bytes)@ == overwrite(old(bytes)@, offset as int, data@),
{
    let ghost before = bytes@;
    let total: usize = bytes.len();
    let mut index: usize = 0;
    while index < data.len()
        invariant
            index <= data@.len(),
            total == before.len(),
            offset + data@.len() <= total,
            bytes@ == overwrite(before, offset as int, data@.take(index as int)),
        decreases data@.len() - index,
    {
        bytes[offset + index] = data[index];
        index = index + 1;
        assert(bytes@ =~= overwrite(before, offset as int, data@.take(index as int)));
    }
    assert(data@.take(index as int) =~= data@);
    assert(overwrite(before, offset as int, data@.take(0)) =~= before);
}

/// Stores `data` at `offset`.
pub fn write_bytes(bytes: &mut [u8], offset: usize, data: &[u8]) -> (result: Result<(), AppError>)
    ensures
        rewrote(put_bytes(old(bytes)@, offset as int, data@), old(bytes)@, result, final(bytes)@),
        result is Err ==> final(bytes)@ == old(bytes)@,
{
    if bytes.len() < data.len() || offset > bytes.len() - data.len() {
        return Err(AppError::FieldOutOfRange);
    }
    copy_into(bytes, offset, data);
    Ok(())
}

/// Stores a 16-bit field.
pub fn write_u16(bytes: &mut [u8], offset: usize, value: u16) -> (result: Result<(), AppError>)
    ensures
        rewrote(put_u16(old(bytes)@, offset as int, value), old(bytes)@, result, final(bytes)@),
        result is Err ==> final(bytes)@ == old(bytes)@,
{
    let data: [u8; 2] = [(value % 0x100) as u8, (value / 0x100) as u8];
    assert(data@ =~= le_u16(value));
    write_bytes(bytes, offset, &data)
}

/// Stores a 32-bit field.
pub fn write_u32(bytes: &mut [u8], offset: usize, value: u32) -> (result: Result<(), AppError>)
    ensures
        rewrote(put_u32(old(bytes)@, offset as int, value), old(bytes)@, result, final(bytes)@),
        result is Err ==> final(bytes)@ == old(bytes)@,
{
    let low: u16 = (value % 0x1_0000) as u16;
    let high: u16 = (value / 0x1_0000) as u16;
    let data: [u8; 4] = [
        (low % 0x100) as u8,
        (low / 0x100) as u8,
        (high % 0x100) as u8,
        (high / 0x100) as u8,
    ];
    assert(data@ =~= le_u32(value));
    write_bytes(bytes, offset, &data)
}

/// Stores a 64-bit field.
pub fn write_u64(bytes: &mut [u8], offset: usize, value: u64) -> (result: Result<(), AppError>)
    ensures
        rewrote(put_u64(old(bytes)@, offset as int, value), old(bytes)@, result, final(bytes)@),
        result is Err ==> final(bytes)@ == old(bytes)@,
{
    let low: u32 = (value % 0x1_0000_0000) as u32;
    let high: u32 = (value / 0x1_0000_0000) as u32;
    if bytes.len() < 8 || offset > bytes.len() - 8 {
        return Err(AppError::FieldOutOfRange);
    }
    let ghost before = bytes@;
    write_u32(bytes, offset, low)?;
    write_u32(bytes, offset + 4, high)?;
    assert(bytes@ =~= overwrite(before, offset as int, le_u64(value)));
    Ok(())
}

/// Whether every byte is zero.
pub fn is_zero(bytes: &[u8]) -> (result: bool)
    ensures
        result == all_zero(bytes@),
{
    let mut index: usize = 0;
    while index < bytes.len()
        invariant
            index <= bytes@.len(),
            forall|i: int| 0 <= i < index ==> bytes@[i] == 0,
        decreases bytes@.len() - index,
    {
        if bytes[index] != 0 {
            return false;
        }
        index = index + 1;
    }
    true
}

/// The length of the NUL-terminated ASCII text at `offset`.
pub fn read_ascii(bytes: &[u8], offset: usize, max: usize) -> (result: Option<usize>)
    ensures
        match ascii_length(bytes@, offset as int, max as int) {
            Some(length) => result == Some(length as usize) && length <= max && fits(
                bytes@,
                offset as int,
                length,
            ),
            None => result is None,
        },
{
    let mut length: usize = 0;
    while length < max && offset <= bytes.len() && length < bytes.len() - offset
        invariant
            length <= max,
            length > 0 ==> offset + length <= bytes@.len(),
            ascii_length(bytes@, offset as int, max as int) == ascii_length_from(
                bytes@,
                offset as int,
                length as int,
                max as int,
            ),
        decreases max - length,
    {
        let byte: u8 = bytes[offset + length];
        if byte == 0 {
            return if length > 0 {
                Some(length)
            } else {
                None
            };
        }
        if byte >= 0x80 {
            return None;
        }
        length = length + 1;
    }
    None
}

/// A field reads back as it was written, whatever stood there before.
pub proof fn law_fields_read_back(bytes: Seq<u8>, offset: int, v16: u16, v32: u32, v64: u64)
    ensures
        put_u16(bytes, offset, v16) matches Ok(out) ==> get_u16(out, offset)
            == Ok::<u16, AppError>(v16),
        put_u32(bytes, offset, v32) matches Ok(out) ==> get_u32(out, offset)
            == Ok::<u32, AppError>(v32),
        put_u64(bytes, offset, v64) matches Ok(out) ==> get_u64(out, offset)
            == Ok::<u64, AppError>(v64),
{
}

/// Storing bytes leaves every 32-bit field alone that does not overlap them.
pub proof fn law_writes_leave_other_fields(
    bytes: Seq<u8>,
    offset: int,
    data: Seq<u8>,
    other: int,
)
    requires
        other + 4 <= offset || offset + data.len() <= other,
    ensures
        put_bytes(bytes, offset, data) matches Ok(out) ==> get_u32(out, other) == get_u32(
            bytes,
            other,
        ),
{
}

/// The text that is found has the stated length: its bytes are ASCII and not NUL, and the
/// NUL that ends it follows.
pub proof fn law_texts_end_with_nul(bytes: Seq<u8>, start: int, max: int)
    ensures
        ascii_length(bytes, start, max) matches Some(length) ==> {
            &&& 0 < length < max
            &&& fits(bytes, start, length + 1)
            &&& bytes[start + length] == 0
            &&& forall|i: int| start <= i < start + length ==> 0 < #[trigger] bytes[i] < 0x80
        },
{
    lemma_ascii_length_from(bytes, start, 0, max);
}

proof fn lemma_ascii_length_from(bytes: Seq<u8>, start: int, seen: int, max: int)
    requires
        0 <= seen,
        seen > 0 ==> fits(bytes, start, seen),
        forall|i: int| start <= i < start + seen ==> 0 < #[trigger] bytes[i] < 0x80,
    ensures
        ascii_length_from(bytes, start, seen, max) matches Some(length) ==> {
            &&& 0 < length < max
            &&& fits(bytes, start, length + 1)
            &&& bytes[start + length] == 0
            &&& forall|i: int| start <= i < start + length ==> 0 < #[trigger] bytes[i] < 0x80
        },
    decreases max - seen,
{
    if seen < max && fits(bytes, start + seen, 1) && 0 < bytes[start + seen] < 0x80 {
        lemma_ascii_length_from(bytes, start, seen + 1, max);
    }
}

} // verus!
