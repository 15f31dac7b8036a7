//! The memory of a process: what it consists of and which parts of it are captured.

pub mod allocations;
pub mod hidden;
pub mod coverage;
pub mod images;
pub mod names;
pub mod pages;
pub mod regions;
pub mod stability;
pub mod watching;

use vstd::prelude::*;

use crate::pe::RegionEvidence;

verus! {

pub const MEM_COMMIT: u32 = 0x0000_1000;

pub const MEM_PRIVATE: u32 = 0x0002_0000;

pub const MEM_MAPPED: u32 = 0x0004_0000;

pub const MEM_IMAGE: u32 = 0x0100_0000;

pub const PAGE_NOACCESS: u32 = 0x001;

pub const PAGE_READONLY: u32 = 0x002;

pub const PAGE_READWRITE: u32 = 0x004;

pub const PAGE_WRITECOPY: u32 = 0x008;

pub const PAGE_EXECUTE: u32 = 0x010;

pub const PAGE_EXECUTE_READ: u32 = 0x020;

pub const PAGE_EXECUTE_READWRITE: u32 = 0x040;

pub const PAGE_EXECUTE_WRITECOPY: u32 = 0x080;

pub const PAGE_GUARD: u32 = 0x100;

pub const PAGE_SIZE: u64 = 0x1000;

pub const MAX_MEMORY_REGIONS: usize = 1_048_576;

pub const MAX_IMAGES: usize = 4_096;

pub const MAX_IMAGE_SIZE: u64 = 0x4000_0000;

pub const MAX_TOTAL_IMAGE_BYTES: u64 = 0x1_0000_0000;

/// A range of addresses with one state, one protection and one kind.
#[derive(Clone, Copy, Debug, PartialEq, Eq, Structural)]
pub struct MemoryRegion {
    pub base: u64,
    pub allocation_base: u64,
    pub size: u64,
    pub state: u32,
    pub protect: u32,
    pub kind: u32,
}

impl MemoryRegion {
    /// Whether the region has memory behind it.
    pub open spec fn committed(self) -> bool {
        self.state == MEM_COMMIT
    }

    /// Whether the region belongs to an image that the system mapped.
    pub open spec fn of_image(self) -> bool {
        self.kind == MEM_IMAGE
    }

    /// The end, held at the largest address.
    pub open spec fn end(self) -> int {
        clipped_address(self.base + self.size)
    }
}

/// `value`, held at the largest address.
pub open spec fn clipped_address(value: int) -> int {
    if value <= u64::MAX {
        value
    } else {
        u64::MAX as int
    }
}

/// How many pages a size takes.
pub open spec fn page_count(size: int) -> int {
    (size + 0xfff) / 0x1000
}

/// Whether the protection bars all access.
pub open spec fn barred(protect: u32) -> bool {
    protect & (PAGE_GUARD | PAGE_NOACCESS) != 0
}

/// Whether the protection lets memory be read.
pub open spec fn allows_read(protect: u32) -> bool {
    let base = protect & 0xff;
    !barred(protect) && (base == PAGE_READONLY || base == PAGE_READWRITE || base == PAGE_WRITECOPY
        || base == PAGE_EXECUTE_READ || base == PAGE_EXECUTE_READWRITE || base
        == PAGE_EXECUTE_WRITECOPY)
}

/// Whether the protection lets memory be executed.
pub open spec fn allows_execute(protect: u32) -> bool {
    let base = protect & 0xff;
    !barred(protect) && (base == PAGE_EXECUTE || base == PAGE_EXECUTE_READ || base
        == PAGE_EXECUTE_READWRITE || base == PAGE_EXECUTE_WRITECOPY)
}

/// Whether the protection lets memory be written.
pub open spec fn allows_write(protect: u32) -> bool {
    let base = protect & 0xff;
    !barred(protect) && (base == PAGE_READWRITE || base == PAGE_WRITECOPY || base
        == PAGE_EXECUTE_READWRITE || base == PAGE_EXECUTE_WRITECOPY)
}

pub fn is_readable(protect: u32) -> (result: bool)
    ensures
        result == allows_read(protect),
{
    if protect & (PAGE_GUARD | PAGE_NOACCESS) != 0 {
        return false;
    }
    let base: u32 = protect & 0xff;
    base == PAGE_READONLY || base == PAGE_READWRITE || base == PAGE_WRITECOPY || base
        == PAGE_EXECUTE_READ || base == PAGE_EXECUTE_READWRITE || base == PAGE_EXECUTE_WRITECOPY
}

pub fn is_executable(protect: u32) -> (result: bool)
    ensures
        result == allows_execute(protect),
{
    if protect & (PAGE_GUARD | PAGE_NOACCESS) != 0 {
        return false;
    }
    let base: u32 = protect & 0xff;
    base == PAGE_EXECUTE || base == PAGE_EXECUTE_READ || base == PAGE_EXECUTE_READWRITE || base
        == PAGE_EXECUTE_WRITECOPY
}

pub fn is_writable(protect: u32) -> (result: bool)
    ensures
        result == allows_write(protect),
{
    if protect & (PAGE_GUARD | PAGE_NOACCESS) != 0 {
        return false;
    }
    let base: u32 = protect & 0xff;
    base == PAGE_READWRITE || base == PAGE_WRITECOPY || base == PAGE_EXECUTE_READWRITE || base
        == PAGE_EXECUTE_WRITECOPY
}

/// How many pages a size takes.
pub fn pages_of(size: u64) -> (pages: u64)
    ensures
        pages == page_count(size as int),
{
    let whole: u64 = size / PAGE_SIZE;
    if size % PAGE_SIZE == 0 {
        whole
    } else {
        whole + 1
    }
}

/// No protection lets a guarded or inaccessible page be read, written or executed, and
/// memory that can be written can be read.
pub proof fn law_guarded_pages_allow_nothing(protect: u32)
    ensures
        barred(protect) ==> !allows_read(protect) && !allows_write(protect) && !allows_execute(
            protect,
        ),
        allows_write(protect) ==> allows_read(protect),
{
}

/// An image that was captured from memory.
pub struct CapturedImage {
    pub base: u64,
    pub bytes: Vec<u8>,
    pub regions: Vec<RegionEvidence>,
    pub unreadable_pages: usize,
    pub name: Option<String>,
    pub path: Option<String>,
    pub is_main: bool,
    pub hidden: bool,
    pub linked: bool,
    pub image_backed: bool,
    pub path_mismatch: bool,
    pub resident_pages: usize,
    pub private_pages: usize,
    pub page_flags: Vec<u8>,
}

/// Whether one of the images is that of the program itself.
pub open spec fn has_main(images: Seq<CapturedImage>) -> bool {
    exists|i: int| 0 <= i < images.len() && (#[trigger] images[i]).is_main
}

/// Whether none of the images is that of the program itself.
pub fn main_image_is_missing(images: &[CapturedImage]) -> (result: bool)
    ensures
        result == !has_main(images@),
{
    let mut index: usize = 0;
    while index < images.len()
        invariant
            index <= images@.len(),
            forall|i: int| 0 <= i < index ==> !(#[trigger] images@[i]).is_main,
        decreases images@.len() - index,
    {
        if images[index].is_main {
            assert(images@[index as int].is_main);
            return false;
        }
        index = index + 1;
    }
    true
}

} // verus!
