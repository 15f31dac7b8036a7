//! The names of images: as listed, and as the files that are mapped.

use vstd::prelude::*;
use vstd::string::{StrSliceExecFns, StringExecFns};

use crate::memory::CapturedImage;
use crate::pe::exports::optional_text;
use crate::text::{same_text, text_matches};

verus! {

/// Whether the character separates the parts of a path.
pub open spec fn separator(character: char) -> bool {
    character == '\\' || character == '/'
}

/// Where the last part of the first `end` characters of a path starts.
pub open spec fn last_part(path: Seq<char>, end: int) -> int
    decreases end,
{
    if end <= 0 {
        0
    } else if separator(path[end - 1]) {
        end
    } else {
        last_part(path, end - 1)
    }
}

/// The last part of a path.
pub open spec fn base_name(path: Seq<char>) -> Seq<char> {
    path.subrange(last_part(path, path.len() as int), path.len() as int)
}

/// The last part of a path.
pub fn basename(path: &str) -> (name: &str)
    ensures
        name@ == base_name(path@),
{
    let total: usize = path.unicode_len();
    let mut start: usize = total;
    while start > 0
        invariant
            start <= total,
            total == path@.len(),
            last_part(path@, total as int) == last_part(path@, start as int),
        decreases start,
    {
        let character = path.get_char(start - 1);
        if character == '\\' || character == '/' {
            return path.substring_char(start, total);
        }
        start = start - 1;
    }
    path.substring_char(0, total)
}

/// Whether both names are known and differ, but for the case of letters.
pub open spec fn names_differ(reported: Option<Seq<char>>, mapped: Option<Seq<char>>) -> bool {
    match (reported, mapped) {
        (Some(listed), Some(path)) => !same_text(listed, base_name(path)),
        _ => false,
    }
}

/// The contents of an optional text.
pub open spec fn optional_str(text: Option<&str>) -> Option<Seq<char>> {
    match text {
        Some(found) => Some(found@),
        None => None,
    }
}

/// Whether both names are known and differ.
pub fn basename_mismatch(reported: Option<&str>, mapped: Option<&str>) -> (result: bool)
    ensures
        result == names_differ(optional_str(reported), optional_str(mapped)),
{
    match (reported, mapped) {
        (Some(listed), Some(path)) => !text_matches(listed, basename(path)),
        _ => false,
    }
}

/// Whether a path goes on behind a device with a separator.
pub open spec fn on_device(path: Seq<char>, device: Seq<char>) -> bool {
    device.len() < path.len() && path.take(device.len() as int) == device && path[device.len() as int]
        == '\\'
}

/// The path with a drive letter in place of the device, by the first drive from `index` on
/// whose device it is on.
pub open spec fn dos_path(path: Seq<char>, drives: Seq<(String, String)>, index: int) -> Option<
    Seq<char>,
>
    decreases drives.len() - index,
{
    if index >= drives.len() {
        None
    } else if on_device(path, drives[index].0@) {
        Some(
            drives[index].1@ + path.subrange(
                drives[index].0@.len() as int,
                path.len() as int,
            ),
        )
    } else {
        dos_path(path, drives, index + 1)
    }
}

fn stands_on(path: &str, device: &str) -> (result: bool)
    ensures
        result == on_device(path@, device@),
{
    let total: usize = path.unicode_len();
    let length: usize = device.unicode_len();
    if length >= total || path.get_char(length) != '\\' {
        return false;
    }
    let mut index: usize = 0;
    while index < length
        invariant
            index <= length,
            length == device@.len(),
            length < path@.len(),
            forall|i: int| 0 <= i < index ==> path@[i] == device@[i],
        decreases length - index,
    {
        if path.get_char(index) != device.get_char(index) {
            assert(path@.take(length as int)[index as int] != device@[index as int]);
            return false;
        }
        index = index + 1;
    }
    assert(path@.take(length as int) =~= device@);
    true
}

/// Puts a drive letter in place of the device that a path starts with.
pub fn to_dos_path(device: &str, map: &[(String, String)]) -> (result: Option<String>)
    ensures
        optional_text(result) == dos_path(device@, map@, 0),
{
    let mut index: usize = 0;
    while index < map.len()
        invariant
            index <= map@.len(),
            dos_path(device@, map@, 0) == dos_path(device@, map@, index as int),
        decreases map@.len() - index,
    {
        let prefix = map[index].0.as_str();
        if stands_on(device, prefix) {
            let rest = device.substring_char(prefix.unicode_len(), device.unicode_len());
            let letter = map[index].1.clone();
            return Some(letter.concat(rest));
        }
        index = index + 1;
    }
    None
}

/// A drive of the 26 letters: the character of its number.
pub open spec fn drive_letter(index: int) -> u8 {
    (0x41 + index) as u8
}

/// The letters of those of the first `count` drives that are there.
pub open spec fn letters_of(mask: u32, count: int) -> Seq<u8>
    decreases count,
{
    if count <= 0 {
        Seq::empty()
    } else if mask & (1u32 << ((count - 1) as u32)) == 0 {
        letters_of(mask, count - 1)
    } else {
        letters_of(mask, count - 1).push(drive_letter(count - 1))
    }
}

/// Finds the letters of the drives that are there.
pub fn drive_letters(mask: u32) -> (letters: Vec<u8>)
    ensures
        letters@ == letters_of(mask, 26),
{
    let mut letters: Vec<u8> = Vec::new();
    let mut index: u32 = 0;
    while index < 26
        invariant
            index <= 26,
            letters@ == letters_of(mask, index as int),
        decreases 26 - index,
    {
        if mask & (1u32 << index) != 0 {
            letters.push(0x41 + index as u8);
        }
        index = index + 1;
    }
    letters
}

/// Whether the file at a path is the one that is wanted.
pub open spec fn path_wanted(
    device: Seq<char>,
    drives: Seq<(String, String)>,
    wanted: Seq<char>,
) -> bool {
    match dos_path(device, drives, 0) {
        Some(path) => same_text(path, wanted),
        None => false,
    }
}

/// The addresses of those of the first `count` mapped files whose path is wanted.
pub open spec fn wanted_by_path(
    mapped: Seq<(u64, String)>,
    drives: Seq<(String, String)>,
    wanted: Seq<char>,
    count: int,
) -> Seq<u64>
    decreases count,
{
    if count <= 0 {
        Seq::empty()
    } else {
        let before = wanted_by_path(mapped, drives, wanted, count - 1);
        if path_wanted(mapped[count - 1].1@, drives, wanted) {
            before.push(mapped[count - 1].0)
        } else {
            before
        }
    }
}

/// The addresses of those of the first `count` mapped files whose path is not wanted but
/// whose name is.
pub open spec fn wanted_by_name(
    mapped: Seq<(u64, String)>,
    drives: Seq<(String, String)>,
    wanted: Seq<char>,
    name: Seq<char>,
    count: int,
) -> Seq<u64>
    decreases count,
{
    if count <= 0 {
        Seq::empty()
    } else {
        let before = wanted_by_name(mapped, drives, wanted, name, count - 1);
        if !path_wanted(mapped[count - 1].1@, drives, wanted) && same_text(
            base_name(mapped[count - 1].1@),
            name,
        ) {
            before.push(mapped[count - 1].0)
        } else {
            before
        }
    }
}

/// The address of the program itself: that of its module where one is listed, else that of
/// the only mapped file with its path, else that of the only one with its name.
pub open spec fn main_address(
    listed: Option<u64>,
    mapped: Seq<(u64, String)>,
    drives: Seq<(String, String)>,
    wanted: Seq<char>,
    name: Seq<char>,
) -> Option<u64> {
    let by_path = wanted_by_path(mapped, drives, wanted, mapped.len() as int);
    let by_name = wanted_by_name(mapped, drives, wanted, name, mapped.len() as int);
    match listed {
        Some(base) => Some(base),
        None => if by_path.len() > 1 {
            None
        } else if by_path.len() == 1 {
            Some(by_path[0])
        } else if by_name.len() == 1 {
            Some(by_name[0])
        } else {
            None
        },
    }
}

/// Finds the address of the program itself; `mapped` gives the images with a mapped file.
pub fn resolve_main_base(
    listed: Option<u64>,
    mapped: &[(u64, String)],
    drives: &[(String, String)],
    wanted: &str,
    name: &str,
) -> (result: Option<u64>)
    ensures
        result == main_address(listed, mapped@, drives@, wanted@, name@),
{
    if let Some(base) = listed {
        return Some(base);
    }
    let mut by_path: Vec<u64> = Vec::new();
    let mut by_name: Vec<u64> = Vec::new();
    let mut index: usize = 0;
    while index < mapped.len()
        invariant
            index <= mapped@.len(),
            by_path@ == wanted_by_path(mapped@, drives@, wanted@, index as int),
            by_name@ == wanted_by_name(mapped@, drives@, wanted@, name@, index as int),
        decreases mapped@.len() - index,
    {
        let base: u64 = mapped[index].0;
        let device = mapped[index].1.as_str();
        let same_path = match to_dos_path(device, drives) {
            Some(path) => text_matches(path.as_str(), wanted),
            None => false,
        };
        if same_path {
            by_path.push(base);
        } else if text_matches(basename(device), name) {
            by_name.push(base);
        }
        index = index + 1;
    }
    if by_path.len() > 1 {
        None
    } else if by_path.len() == 1 {
        Some(by_path[0])
    } else if by_name.len() == 1 {
        Some(by_name[0])
    } else {
        None
    }
}

/// Whether an image is not the file that it is listed as: by path where both are known, else
/// by name.
pub open spec fn misreported(
    name: Option<Seq<char>>,
    path: Option<Seq<char>>,
    mapped: Option<Seq<char>>,
    drives: Seq<(String, String)>,
) -> bool {
    let actual = match mapped {
        Some(device) => dos_path(device, drives, 0),
        None => None,
    };
    match (path, actual) {
        (Some(reported), Some(found)) => !same_text(reported, found),
        _ => names_differ(name, mapped),
    }
}

/// The name of an image: that of the mapped file where none is listed or another one is.
pub open spec fn corrected_name(
    name: Option<Seq<char>>,
    mismatch: bool,
    mapped: Option<Seq<char>>,
) -> Option<Seq<char>> {
    if name is None || mismatch {
        match mapped {
            Some(device) => Some(base_name(device)),
            None => None,
        }
    } else {
        name
    }
}

/// Holds what an image is listed as against the file that is mapped.
pub fn annotate_image(image: &mut CapturedImage, mapped: Option<&str>, drives: &[(String, String)])
    ensures
        final(image).path_mismatch == misreported(
            optional_text(old(image).name),
            optional_text(old(image).path),
            optional_str(mapped),
            drives@,
        ),
        optional_text(final(image).name) == corrected_name(
            optional_text(old(image).name),
            final(image).path_mismatch,
            optional_str(mapped),
        ),
        *final(image) == (CapturedImage {
            path_mismatch: final(image).path_mismatch,
            name: final(image).name,
            ..*old(image)
        }),
{
    let actual: Option<String> = match mapped {
        Some(device) => to_dos_path(device, drives),
        None => None,
    };
    let listed: Option<&str> = match &image.name {
        Some(name) => Some(name.as_str()),
        None => None,
    };
    let mismatch = match (&image.path, &actual) {
        (Some(reported), Some(found)) => !text_matches(reported.as_str(), found.as_str()),
        _ => basename_mismatch(listed, mapped),
    };
    let unnamed = image.name.is_none();
    image.path_mismatch = mismatch;
    if unnamed || mismatch {
        image.name = match mapped {
            Some(device) => Some(basename(device).to_string()),
            None => None,
        };
    }
}

/// A base name holds no separator, and a path without one is its own base name.
pub proof fn law_base_names_have_no_separator(path: Seq<char>)
    ensures
        forall|i: int| 0 <= i < base_name(path).len() ==> !separator(#[trigger] base_name(path)[i]),
        (forall|i: int| 0 <= i < path.len() ==> !separator(#[trigger] path[i])) ==> base_name(path)
            == path,
{
    lemma_last_part(path, path.len() as int);
    let start = last_part(path, path.len() as int);
    assert forall|i: int| 0 <= i < base_name(path).len() implies !separator(
        #[trigger] base_name(path)[i],
    ) by {
        assert(base_name(path)[i] == path[start + i]);
    }
    if forall|i: int| 0 <= i < path.len() ==> !separator(#[trigger] path[i]) {
        assert(base_name(path) =~= path);
    }
}

/// A base name is what follows the last separator of a path: the path is its base name behind
/// nothing, or behind a part that ends with a separator.
pub proof fn law_base_names_end_the_path(path: Seq<char>)
    ensures
        ({
            let start = path.len() - base_name(path).len();
            &&& 0 <= start
            &&& path == path.take(start) + base_name(path)
            &&& start == 0 || path[start - 1] == '\\' || path[start - 1] == '/'
        }),
{
    lemma_last_part(path, path.len() as int);
    let start = last_part(path, path.len() as int);
    assert(path =~= path.take(start) + base_name(path));
}

proof fn lemma_last_part(path: Seq<char>, end: int)
    requires
        0 <= end <= path.len(),
    ensures
        0 <= last_part(path, end) <= end,
        forall|i: int| last_part(path, end) <= i < end ==> !separator(#[trigger] path[i]),
        last_part(path, end) > 0 ==> separator(path[last_part(path, end) - 1]),
    decreases end,
{
    if end > 0 && !separator(path[end - 1]) {
        lemma_last_part(path, end - 1);
    }
}

} // verus!
