//! Pointers to exports, straight or through jump stubs.

use vstd::prelude::*;

use crate::pe::exports::{ExportIndex, ExportView, ResolvedExport};
use crate::pe::image::{ascii_length, fits, u32_at, u64_at};
use crate::pe::{image, PeKind};

verus! {

pub const MAX_IMPORT_NAME: usize = 4_096;

pub const MAX_THUNK_DEPTH: usize = 4;

/// The pointer of a width at `offset`, if there is one.
pub open spec fn pointer_at(bytes: Seq<u8>, offset: int, width: int) -> Option<u64> {
    if !fits(bytes, offset, width) {
        None
    } else if width == 4 {
        Some(u32_at(bytes, offset) as u64)
    } else if width == 8 {
        Some(u64_at(bytes, offset))
    } else {
        None
    }
}

/// The 32-bit field at `offset`, if there is one.
pub open spec fn field_at(bytes: Seq<u8>, offset: int) -> Option<u32> {
    if fits(bytes, offset, 4) {
        Some(u32_at(bytes, offset))
    } else {
        None
    }
}

/// Whether a NUL-terminated ASCII name stands at `offset`.
pub open spec fn name_at(bytes: Seq<u8>, offset: int) -> bool {
    offset <= u32::MAX && ascii_length(bytes, offset, 4_096) is Some
}

/// The signed number that a 32-bit field holds.
pub open spec fn signed(value: u32) -> int {
    if value < 0x8000_0000 {
        value as int
    } else {
        value - 0x1_0000_0000
    }
}

/// Where the 64-bit jump stub at `rva` leads: through a slot that is addressed relative to
/// the next instruction, or to a constant.
pub open spec fn x64_target(memory: Seq<u8>, base: u64, rva: int) -> Option<u64> {
    let displacement = signed(u32_at(memory, rva + 2));
    if !fits(memory, rva, 12) {
        None
    } else if memory[rva] == 0xFF && memory[rva + 1] == 0x25 {
        if base + rva + 6 > i64::MAX || base + rva + 6 + displacement > i64::MAX {
            None
        } else {
            pointer_at(memory, rva + 6 + displacement, 8)
        }
    } else if memory[rva] == 0x48 && memory[rva + 1] == 0xB8 && memory[rva + 10] == 0xFF
        && memory[rva + 11] == 0xE0 {
        pointer_at(memory, rva + 2, 8)
    } else {
        None
    }
}

/// Where the 32-bit jump stub at `rva` leads: through a slot at an absolute address, or to
/// a constant.
pub open spec fn x86_target(memory: Seq<u8>, base: u64, rva: int) -> Option<u64> {
    if !fits(memory, rva, 7) {
        None
    } else if memory[rva] == 0xFF && memory[rva + 1] == 0x25 {
        pointer_at(memory, u32_at(memory, rva + 2) - base, 4)
    } else if memory[rva] == 0xB8 && memory[rva + 5] == 0xFF && memory[rva + 6] == 0xE0 {
        pointer_at(memory, rva + 1, 4)
    } else {
        None
    }
}

/// Where the jump stub at an address leads.
pub open spec fn stub_target(memory: Seq<u8>, base: u64, kind: PeKind, value: u64) -> Option<u64> {
    if value < base {
        None
    } else {
        match kind {
            PeKind::Pe32Plus => x64_target(memory, base, value - base),
            PeKind::Pe32 => x86_target(memory, base, value - base),
        }
    }
}

/// The export that a pointer leads to in at most `hops` steps, and whether it is ambiguous.
pub open spec fn export_reached(
    memory: Seq<u8>,
    base: u64,
    kind: PeKind,
    value: u64,
    exports: Map<u64, (ExportView, bool)>,
    hops: int,
) -> Option<(ExportView, bool)>
    decreases hops,
{
    if hops <= 0 {
        None
    } else if exports.dom().contains(value) {
        Some(exports[value])
    } else {
        match stub_target(memory, base, kind, value) {
            None => None,
            Some(next) => if next == value {
                None
            } else {
                export_reached(memory, base, kind, next, exports, hops - 1)
            },
        }
    }
}

/// The export that a pointer leads to, straight or through a few jump stubs.
pub open spec fn resolved(
    memory: Seq<u8>,
    base: u64,
    kind: PeKind,
    value: u64,
    exports: Map<u64, (ExportView, bool)>,
) -> Option<(ExportView, bool)> {
    export_reached(memory, base, kind, value, exports, 5)
}

/// Reads a pointer of a width.
pub fn read_pointer(bytes: &[u8], offset: usize, width: usize) -> (result: Option<u64>)
    ensures
        result == pointer_at(bytes@, offset as int, width as int),
{
    let kind = match width {
        4 => PeKind::Pe32,
        8 => PeKind::Pe32Plus,
        _ => {
            return None;
        },
    };
    match image::read_pointer(bytes, offset, kind) {
        Ok(value) => Some(value),
        Err(_) => None,
    }
}

/// Reads a 32-bit field.
pub fn read_u32(bytes: &[u8], offset: usize) -> (result: Option<u32>)
    ensures
        result == field_at(bytes@, offset as int),
{
    match image::read_u32(bytes, offset) {
        Ok(value) => Some(value),
        Err(_) => None,
    }
}

/// Looks for a name.
pub fn read_ascii(bytes: &[u8], offset: usize) -> (result: Option<()>)
    ensures
        result is Some == name_at(bytes@, offset as int),
{
    if offset > 0xFFFF_FFFF {
        return None;
    }
    match image::read_ascii(bytes, offset, MAX_IMPORT_NAME) {
        Some(_) => Some(()),
        None => None,
    }
}

/// Decodes a 64-bit jump stub.
pub fn decode_x64_thunk(memory: &[u8], base: u64, rva: u64) -> (result: Option<u64>)
    ensures
        result == x64_target(memory@, base, rva as int),
{
    let total: usize = memory.len();
    if total < 12 || rva > (total - 12) as u64 {
        return None;
    }
    let at: usize = rva as usize;
    if memory[at] == 0xFF && memory[at + 1] == 0x25 {
        let displacement: u32 = match read_u32(memory, at + 2) {
            Some(value) => value,
            None => {
                return None;
            },
        };
        let next: u64 = at as u64 + 6;
        if base > 0x7FFF_FFFF_FFFF_FFFF || next > 0x7FFF_FFFF_FFFF_FFFF - base {
            return None;
        }
        let slot: u64 = if displacement < 0x8000_0000 {
            if displacement as u64 > 0x7FFF_FFFF_FFFF_FFFF - base - next {
                return None;
            }
            next + displacement as u64
        } else {
            let back: u64 = 0x1_0000_0000 - displacement as u64;
            if back > next {
                return None;
            }
            next - back
        };
        if slot >= total as u64 {
            return None;
        }
        return read_pointer(memory, slot as usize, 8);
    }
    if memory[at] == 0x48 && memory[at + 1] == 0xB8 && memory[at + 10] == 0xFF && memory[at + 11]
        == 0xE0 {
        return read_pointer(memory, at + 2, 8);
    }
    None
}

/// Decodes a 32-bit jump stub.
pub fn decode_x86_thunk(memory: &[u8], base: u64, rva: u64) -> (result: Option<u64>)
    ensures
        result == x86_target(memory@, base, rva as int),
{
    let total: usize = memory.len();
    if total < 7 || rva > (total - 7) as u64 {
        return None;
    }
    let at: usize = rva as usize;
    if memory[at] == 0xFF && memory[at + 1] == 0x25 {
        let slot: u64 = match read_u32(memory, at + 2) {
            Some(value) => value as u64,
            None => {
                return None;
            },
        };
        if slot < base || slot - base >= total as u64 {
            return None;
        }
        return read_pointer(memory, (slot - base) as usize, 4);
    }
    if memory[at] == 0xB8 && memory[at + 5] == 0xFF && memory[at + 6] == 0xE0 {
        return read_pointer(memory, at + 1, 4);
    }
    None
}

/// The contents of a resolved export.
pub open spec fn resolved_view(found: Option<(ResolvedExport, bool)>) -> Option<
    (ExportView, bool),
> {
    match found {
        Some((export, ambiguous)) => Some((export@, ambiguous)),
        None => None,
    }
}

/// Finds the export that a pointer leads to, and whether it is ambiguous.
pub fn resolve_value(
    memory: &[u8],
    observed_base: u64,
    kind: PeKind,
    value: u64,
    exports: &ExportIndex,
) -> (result: Option<(ResolvedExport, bool)>)
    ensures
        resolved_view(result) == resolved(memory@, observed_base, kind, value, exports@),
{
    let mut current: u64 = value;
    let mut hop: usize = 0;
    while hop <= MAX_THUNK_DEPTH
        invariant
            hop <= 5,
            resolved(memory@, observed_base, kind, value, exports@) == export_reached(
                memory@,
                observed_base,
                kind,
                current,
                exports@,
                5 - hop,
            ),
        decreases 5 - hop,
    {
        match exports.resolve(current) {
            Some((symbol, ambiguous)) => {
                return Some((symbol.duplicate(), ambiguous));
            },
            None => {},
        }
        if current < observed_base {
            return None;
        }
        let rva: u64 = current - observed_base;
        let next = match kind {
            PeKind::Pe32Plus => decode_x64_thunk(memory, observed_base, rva),
            PeKind::Pe32 => decode_x86_thunk(memory, observed_base, rva),
        };
        match next {
            Some(target) => {
                if target == current {
                    return None;
                }
                current = target;
            },
            None => {
                return None;
            },
        }
        hop = hop + 1;
    }
    None
}

/// A pointer at an export resolves to that export.
pub proof fn law_direct_pointers_resolve(
    memory: Seq<u8>,
    base: u64,
    kind: PeKind,
    value: u64,
    exports: Map<u64, (ExportView, bool)>,
)
    requires
        exports.dom().contains(value),
    ensures
        resolved(memory, base, kind, value, exports) == Some(exports[value]),
{
}

} // verus!
