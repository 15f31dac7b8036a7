//! Images inside other images.

use vstd::prelude::*;

use crate::pe::image::{fits, get_u32, read_u32, u16_at, u32_at};
use crate::pe::parse::{disk_model, parse_disk_image};
use crate::pe::rebuild::{greater, greater_of};
use crate::pe::{
    directory_of, ModelView, PeHeaders, PeImage, PeKind, SectionModel, SECURITY_DIRECTORY,
};

verus! {

pub const RAW_SIZE_OFFSET: usize = 16;

pub const RAW_POINTER_OFFSET: usize = 20;

pub const SUBSYSTEM_NATIVE: u16 = 1;

pub const MIN_EMBEDDED_SIZE: usize = 0x100;

pub const MAX_EMBEDDED_SIZE: usize = 0x1000_0000;

pub const MAX_EMBEDDED_PER_IMAGE: usize = 256;

pub const MAX_CARVE_ATTEMPTS: usize = 8_192;

/// An image inside another: where it stands, its length and format, and the extension that
/// a file of it gets.
pub struct EmbeddedPe {
    pub offset: usize,
    pub length: usize,
    pub kind: PeKind,
    pub extension: &'static str,
}

/// An image inside another, as contracts speak of it.
pub ghost struct EmbeddedView {
    pub offset: int,
    pub length: int,
    pub kind: PeKind,
    pub extension: Seq<char>,
}

impl View for EmbeddedPe {
    type V = EmbeddedView;

    open spec fn view(&self) -> EmbeddedView {
        EmbeddedView {
            offset: self.offset as int,
            length: self.length as int,
            kind: self.kind,
            extension: self.extension@,
        }
    }
}

/// The extension of a file: that of a driver, a library or a program.
pub open spec fn extension_of(headers: PeHeaders) -> Seq<char> {
    if headers.subsystem == 1 {
        "sys"@
    } else if headers.is_dll {
        "dll"@
    } else {
        "exe"@
    }
}

/// Where the certificate of a file ends; zero where it has none.
pub open spec fn certificate_stop(bytes: Seq<u8>, model: ModelView) -> Option<int> {
    match directory_of(bytes, model.headers, 4) {
        Ok(Some(certificate)) => if certificate.rva.0 + certificate.size > usize::MAX {
            None
        } else {
            Some(certificate.rva.0 + certificate.size)
        },
        _ => Some(0),
    }
}

/// The larger of `end` and the ends of the stored sections from `index` on.
pub open spec fn sections_stop(
    bytes: Seq<u8>,
    sections: Seq<SectionModel>,
    index: int,
    end: int,
) -> Option<int>
    decreases sections.len() - index,
{
    if index >= sections.len() {
        Some(end)
    } else {
        let header = sections[index].header_offset as int;
        match (get_u32(bytes, header + 16), get_u32(bytes, header + 20)) {
            (Ok(raw_size), Ok(raw_offset)) => if raw_offset + raw_size > usize::MAX {
                None
            } else {
                sections_stop(bytes, sections, index + 1, greater(end, raw_offset + raw_size))
            },
            _ => None,
        }
    }
}

/// The length of a file: it ends with its headers, its last section or its certificate.
pub open spec fn file_length(bytes: Seq<u8>, model: ModelView) -> Option<int> {
    match get_u32(bytes, model.headers.size_of_headers_offset as int) {
        Err(_) => None,
        Ok(headers) => match sections_stop(bytes, model.sections, 0, headers as int) {
            None => None,
            Some(end) => match certificate_stop(bytes, model) {
                None => None,
                Some(certificate) => Some(greater(end, certificate)),
            },
        },
    }
}

/// The image that stands at `offset`, if it is one, is long enough but not too long, and
/// lies in memory.
pub open spec fn embedded_at(memory: Seq<u8>, offset: int) -> Option<EmbeddedView> {
    let bytes = memory.subrange(offset, memory.len() as int);
    if offset > memory.len() {
        None
    } else {
        match disk_model(bytes) {
            Err(_) => None,
            Ok(model) => match file_length(bytes, model) {
                None => None,
                Some(length) => if 0x100 <= length <= 0x1000_0000 && length <= bytes.len() {
                    Some(
                        EmbeddedView {
                            offset,
                            length,
                            kind: model.headers.kind,
                            extension: extension_of(model.headers),
                        },
                    )
                } else {
                    None
                },
            },
        }
    }
}

/// The images in `found` and those from `offset` on. Each position with the DOS magic is an
/// attempt, of which there are only so many, and the search goes on behind an image that
/// was found.
pub open spec fn embedded_from(
    memory: Seq<u8>,
    offset: int,
    attempts: int,
    found: Seq<EmbeddedView>,
) -> Seq<EmbeddedView>
    decreases greater(0, memory.len() - offset),
{
    if offset + 64 > memory.len() || found.len() >= 256 || attempts >= 8_192 {
        found
    } else if !(memory[offset] == 0x4d && memory[offset + 1] == 0x5a) {
        embedded_from(memory, offset + 1, attempts, found)
    } else {
        match embedded_at(memory, offset) {
            Some(embedded) => embedded_from(
                memory,
                offset + embedded.length,
                attempts + 1,
                found.push(embedded),
            ),
            None => embedded_from(memory, offset + 1, attempts + 1, found),
        }
    }
}

/// The images inside an image; that which starts it is none of them.
pub open spec fn embedded_in(memory: Seq<u8>) -> Seq<EmbeddedView> {
    embedded_from(memory, 1, 0, Seq::empty())
}

/// The extension of a file.
pub fn classify(image: &PeImage<'_>) -> (extension: &'static str)
    ensures
        extension@ == extension_of(image.model@.headers),
{
    if image.model.headers.subsystem == SUBSYSTEM_NATIVE {
        "sys"
    } else if image.model.headers.is_dll {
        "dll"
    } else {
        "exe"
    }
}

/// Where the certificate of a file ends.
pub fn certificate_end(image: &PeImage<'_>) -> (result: Option<usize>)
    ensures
        match certificate_stop(image.bytes@, image.model@) {
            Some(end) => result == Some(end as usize) && 0 <= end <= usize::MAX,
            None => result is None,
        },
{
    match image.directory(SECURITY_DIRECTORY) {
        Ok(Some(certificate)) => certificate.rva.as_usize().checked_add(certificate.size as usize),
        _ => Some(0),
    }
}

/// The length of a file.
pub fn embedded_length(image: &PeImage<'_>) -> (result: Option<usize>)
    ensures
        match file_length(image.bytes@, image.model@) {
            Some(length) => result == Some(length as usize) && 0 <= length <= usize::MAX,
            None => result is None,
        },
{
    let bytes = image.bytes;
    let total: usize = bytes.len();
    let headers: u32 = match read_u32(bytes, image.model.headers.size_of_headers_offset) {
        Ok(headers) => headers,
        Err(_) => {
            return None;
        },
    };
    let mut end: usize = headers as usize;
    let mut index: usize = 0;
    while index < image.model.sections.len()
        invariant
            index <= image.model.sections@.len(),
            bytes@ == image.bytes@,
            total == bytes@.len(),
            get_u32(bytes@, image.model@.headers.size_of_headers_offset as int) == Ok::<
                u32,
                crate::error::AppError,
            >(headers),
            sections_stop(bytes@, image.model@.sections, 0, headers as int) == sections_stop(
                bytes@,
                image.model@.sections,
                index as int,
                end as int,
            ),
        decreases image.model.sections@.len() - index,
    {
        let header: usize = image.model.sections[index].header_offset;
        match (
            read_u32(bytes, header.saturating_add(RAW_SIZE_OFFSET)),
            read_u32(bytes, header.saturating_add(RAW_POINTER_OFFSET)),
        ) {
            (Ok(raw_size), Ok(raw_offset)) => {
                match (raw_offset as usize).checked_add(raw_size as usize) {
                    Some(stop) => {
                        end = greater_of(end, stop);
                    },
                    None => {
                        return None;
                    },
                }
            },
            _ => {
                return None;
            },
        }
        index = index + 1;
    }
    match certificate_end(image) {
        Some(certificate) => Some(greater_of(end, certificate)),
        None => None,
    }
}

/// Looks for an image at `offset`.
pub fn try_carve(memory: &[u8], offset: usize) -> (result: Option<EmbeddedPe>)
    ensures
        match embedded_at(memory@, offset as int) {
            Some(embedded) => result matches Some(found) && found@ == embedded,
            None => result is None,
        },
{
    if offset > memory.len() {
        return None;
    }
    let bytes = &memory[offset..memory.len()];
    let image = match parse_disk_image(bytes) {
        Ok(image) => image,
        Err(_) => {
            return None;
        },
    };
    let length: usize = match embedded_length(&image) {
        Some(length) => length,
        None => {
            return None;
        },
    };
    if length < MIN_EMBEDDED_SIZE || length > MAX_EMBEDDED_SIZE || length > bytes.len() {
        return None;
    }
    Some(
        EmbeddedPe {
            offset,
            length,
            kind: image.model.headers.kind,
            extension: classify(&image),
        },
    )
}

/// The images, as contracts speak of them.
pub open spec fn embedded_view(found: Seq<EmbeddedPe>) -> Seq<EmbeddedView> {
    found.map_values(|embedded: EmbeddedPe| embedded@)
}

/// Finds the images inside an image.
pub fn carve_embedded(memory: &[u8]) -> (found: Vec<EmbeddedPe>)
    ensures
        embedded_view(found@) == embedded_in(memory@),
{
    let mut found: Vec<EmbeddedPe> = Vec::new();
    let mut attempts: usize = 0;
    let mut offset: usize = 1;
    let total: usize = memory.len();
    assert(embedded_view(found@) =~= Seq::empty());
    while total >= 64 && offset <= total - 64 && found.len() < MAX_EMBEDDED_PER_IMAGE && attempts
        < MAX_CARVE_ATTEMPTS
        invariant
            total == memory@.len(),
            attempts <= MAX_CARVE_ATTEMPTS,
            embedded_in(memory@) == embedded_from(
                memory@,
                offset as int,
                attempts as int,
                embedded_view(found@),
            ),
        decreases greater(0, total - offset),
    {
        if !(memory[offset] == 0x4d && memory[offset + 1] == 0x5a) {
            offset = offset + 1;
        } else {
            attempts = attempts + 1;
            match try_carve(memory, offset) {
                Some(embedded) => {
                    let ghost before = embedded_view(found@);
                    let ghost view = embedded@;
                    offset = offset + embedded.length;
                    found.push(embedded);
                    assert(embedded_view(found@) =~= before.push(view));
                },
                None => {
                    offset = offset + 1;
                },
            }
        }
    }
    found
}

/// Whether images stand one behind the other between `start` and `end`, each of an allowed
/// length and at a place where one stands.
pub open spec fn lined_up(memory: Seq<u8>, found: Seq<EmbeddedView>, end: int) -> bool {
    &&& forall|i: int|
        0 <= i < found.len() ==> 1 <= (#[trigger] found[i]).offset && 0x100 <= found[i].length
            <= 0x1000_0000 && found[i].offset + found[i].length <= end && embedded_at(
            memory,
            found[i].offset,
        ) == Some(found[i])
    &&& forall|i: int, j: int|
        0 <= i < j < found.len() ==> #[trigger] found[i].offset + found[i].length
            <= #[trigger] found[j].offset
}

/// The images that are found inside an image lie in it, in order and without overlap, none
/// at its start; each is of an allowed length, and there are at most so many.
pub proof fn law_embedded_images_are_apart(memory: Seq<u8>)
    ensures
        embedded_in(memory).len() <= 256,
        lined_up(memory, embedded_in(memory), memory.len() as int),
{
    lemma_embedded_from(memory, 1, 0, Seq::empty());
}

proof fn lemma_embedded_from(
    memory: Seq<u8>,
    offset: int,
    attempts: int,
    found: Seq<EmbeddedView>,
)
    requires
        1 <= offset,
        found.len() <= 256,
        lined_up(memory, found, offset),
        found.len() > 0 ==> offset <= memory.len(),
    ensures
        embedded_from(memory, offset, attempts, found).len() <= 256,
        lined_up(
            memory,
            embedded_from(memory, offset, attempts, found),
            memory.len() as int,
        ),
    decreases greater(0, memory.len() - offset),
{
    if offset + 64 > memory.len() || found.len() >= 256 || attempts >= 8_192 {
    } else if !(memory[offset] == 0x4d && memory[offset + 1] == 0x5a) {
        lemma_embedded_from(memory, offset + 1, attempts, found);
    } else {
        match embedded_at(memory, offset) {
            Some(embedded) => {
                lemma_embedded_from(
                    memory,
                    offset + embedded.length,
                    attempts + 1,
                    found.push(embedded),
                );
            },
            None => {
                lemma_embedded_from(memory, offset + 1, attempts + 1, found);
            },
        }
    }
}

proof fn lemma_sections_stop(
    bytes: Seq<u8>,
    sections: Seq<SectionModel>,
    index: int,
    end: int,
)
    requires
        0 <= index <= sections.len(),
    ensures
        sections_stop(bytes, sections, index, end) matches Some(stop) ==> end <= stop && forall|
            i: int,
        |
            index <= i < sections.len() ==> u32_at(
                bytes,
                (#[trigger] sections[i]).header_offset + 20,
            ) + u32_at(bytes, sections[i].header_offset + 16) <= stop,
    decreases sections.len() - index,
{
    if index < sections.len() {
        let header = sections[index].header_offset as int;
        if let (Ok(raw_size), Ok(raw_offset)) = (
            get_u32(bytes, header + 16),
            get_u32(bytes, header + 20),
        ) {
            lemma_sections_stop(
                bytes,
                sections,
                index + 1,
                greater(end, raw_offset + raw_size),
            );
        }
    }
}

/// The length of a file takes in its headers, every stored section and its certificate, so
/// a signed file is whole.
pub proof fn law_length_takes_in_the_whole_file(bytes: Seq<u8>, model: ModelView)
    ensures
        file_length(bytes, model) matches Some(length) ==> {
            &&& u32_at(bytes, model.headers.size_of_headers_offset as int) <= length
            &&& forall|i: int|
                0 <= i < model.sections.len() ==> u32_at(
                    bytes,
                    (#[trigger] model.sections[i]).header_offset + 20,
                ) + u32_at(bytes, model.sections[i].header_offset + 16) <= length
            &&& certificate_stop(bytes, model) matches Some(stop) ==> stop <= length
        },
{
    if let Ok(headers) = get_u32(bytes, model.headers.size_of_headers_offset as int) {
        lemma_sections_stop(bytes, model.sections, 0, headers as int);
    }
}

/// Whether the file has a certificate: an address and a size that are not zero in the fifth
/// slot of its data directories.
pub open spec fn has_certificate(bytes: Seq<u8>, headers: PeHeaders) -> bool {
    let slot = headers.directories_offset + 32;
    &&& headers.directory_count > 4
    &&& slot + 8 <= bytes.len()
    &&& u32_at(bytes, slot) != 0
    &&& u32_at(bytes, slot + 4) != 0
}

/// Where the certificate of a file ends that has one.
pub open spec fn certificate_bound(bytes: Seq<u8>, headers: PeHeaders) -> int {
    let slot = headers.directories_offset + 32;
    u32_at(bytes, slot) + u32_at(bytes, slot + 4)
}

/// Where the stored bytes of the section at `index` end.
pub open spec fn stored_bound(bytes: Seq<u8>, sections: Seq<SectionModel>, index: int) -> int {
    let header = sections[index].header_offset;
    u32_at(bytes, header + 20) + u32_at(bytes, header + 16)
}

proof fn lemma_sections_stop_is_tight(
    bytes: Seq<u8>,
    sections: Seq<SectionModel>,
    index: int,
    end: int,
)
    requires
        0 <= index <= sections.len(),
    ensures
        sections_stop(bytes, sections, index, end) matches Some(stop) ==> stop == end || exists|
            i: int,
        |
            index <= i < sections.len() && stop == #[trigger] stored_bound(bytes, sections, i),
        (forall|i: int|
            index <= i < sections.len() ==> fits(
                bytes,
                (#[trigger] sections[i]).header_offset as int,
                40,
            ) && stored_bound(bytes, sections, i) <= usize::MAX) ==> sections_stop(
            bytes,
            sections,
            index,
            end,
        ) is Some,
    decreases sections.len() - index,
{
    if index < sections.len() {
        let header = sections[index].header_offset as int;
        if let (Ok(raw_size), Ok(raw_offset)) = (
            get_u32(bytes, header + 16),
            get_u32(bytes, header + 20),
        ) {
            let next = greater(end, raw_offset + raw_size);
            lemma_sections_stop_is_tight(bytes, sections, index + 1, next);
            assert(stored_bound(bytes, sections, index) == raw_offset + raw_size);
        }
        assert(sections[index].header_offset == header);
    }
}

/// The length of a file is tight: it is the size of its headers, the end of the stored bytes
/// of one of its sections, or the end of its certificate, and it takes in all of these. A
/// file whose fields can be read and added up has a length.
pub proof fn law_length_is_where_the_file_ends(bytes: Seq<u8>, model: ModelView)
    requires
        bytes.len() <= usize::MAX,
        model.headers.directories_offset + 128 <= usize::MAX,
    ensures
        file_length(bytes, model) matches Some(length) ==> {
            &&& length == u32_at(bytes, model.headers.size_of_headers_offset as int) || (exists|
                i: int,
            |
                0 <= i < model.sections.len() && length == #[trigger] stored_bound(
                    bytes,
                    model.sections,
                    i,
                )) || (has_certificate(bytes, model.headers) && length == certificate_bound(
                bytes,
                model.headers,
            ))
            &&& u32_at(bytes, model.headers.size_of_headers_offset as int) <= length
            &&& forall|i: int|
                0 <= i < model.sections.len() ==> #[trigger] stored_bound(bytes, model.sections, i)
                    <= length
            &&& has_certificate(bytes, model.headers) ==> certificate_bound(bytes, model.headers)
                <= length
        },
        fits(bytes, model.headers.size_of_headers_offset as int, 4) && (forall|i: int|
            0 <= i < model.sections.len() ==> fits(
                bytes,
                (#[trigger] model.sections[i]).header_offset as int,
                40,
            ) && stored_bound(bytes, model.sections, i) <= usize::MAX) && (has_certificate(
            bytes,
            model.headers,
        ) ==> certificate_bound(bytes, model.headers) <= usize::MAX) ==> file_length(
            bytes,
            model,
        ) is Some,
{
    if let Ok(headers) = get_u32(bytes, model.headers.size_of_headers_offset as int) {
        lemma_sections_stop(bytes, model.sections, 0, headers as int);
        lemma_sections_stop_is_tight(bytes, model.sections, 0, headers as int);
    }
    assert forall|i: int| 0 <= i < model.sections.len() && file_length(bytes, model) is Some implies
        #[trigger] stored_bound(bytes, model.sections, i) <= file_length(bytes, model)->Some_0 by {
        assert(model.sections[i].header_offset == model.sections[i].header_offset);
    }
}

/// What stands at a place is found there: where a stored file starts whose length is allowed
/// and lies in memory, there is an image of that length, with the format of its headers; and
/// there is none where no such file starts.
pub proof fn law_files_are_recognised(memory: Seq<u8>, offset: int)
    requires
        0 <= offset <= memory.len(),
    ensures
        ({
            let bytes = memory.subrange(offset, memory.len() as int);
            match embedded_at(memory, offset) {
                Some(found) => {
                    &&& found.offset == offset
                    &&& disk_model(bytes) matches Ok(model) && found.kind == model.headers.kind
                        && file_length(bytes, model) == Some(found.length) && found.extension
                        == extension_of(model.headers)
                    &&& 0x100 <= found.length <= 0x1000_0000
                    &&& offset + found.length <= memory.len()
                    &&& memory[offset] == 0x4d && memory[offset + 1] == 0x5a
                },
                None => disk_model(bytes) matches Ok(model) ==> (file_length(bytes, model) matches Some(
                    length,
                ) ==> length < 0x100 || length > 0x1000_0000 || offset + length > memory.len()),
            }
        }),
{
    let bytes = memory.subrange(offset, memory.len() as int);
    if let Some(found) = embedded_at(memory, offset) {
        assert(bytes[0] == memory[offset] && bytes[1] == memory[offset + 1]);
        assert(u16_at(bytes, 0) == 0x5A4D);
    }
}

/// A driver, a library and a program each get their own extension: that of a driver where
/// the subsystem is the native one, else that of a library where the file says that it is
/// one, else that of a program.
pub proof fn law_extensions_tell_files_apart(headers: PeHeaders)
    ensures
        headers.subsystem == 1 ==> extension_of(headers) == "sys"@,
        headers.subsystem != 1 && headers.is_dll ==> extension_of(headers) == "dll"@,
        headers.subsystem != 1 && !headers.is_dll ==> extension_of(headers) == "exe"@,
{
}

/// How many places from `from` up to `end` hold the DOS magic.
pub open spec fn magic_places(memory: Seq<u8>, from: int, end: int) -> int
    decreases end - from,
{
    if from >= end {
        0
    } else {
        magic_places(memory, from, end - 1) + if memory[end - 1] == 0x4d && memory[end] == 0x5a {
            1int
        } else {
            0
        }
    }
}

/// Whether the place lies in one of the images, behind its first byte.
pub open spec fn inside_one(found: Seq<EmbeddedView>, offset: int) -> bool {
    exists|i: int|
        0 <= i < found.len() && (#[trigger] found[i]).offset < offset < found[i].offset
            + found[i].length
}

proof fn lemma_magic_places(memory: Seq<u8>, from: int, middle: int, end: int)
    requires
        from <= middle <= end,
    ensures
        magic_places(memory, from, middle) <= magic_places(memory, from, end),
    decreases end - middle,
{
    if middle < end {
        lemma_magic_places(memory, from, middle, end - 1);
    }
}

#[verifier::spinoff_prover]
proof fn lemma_found_stays(
    memory: Seq<u8>,
    at: int,
    attempts: int,
    found: Seq<EmbeddedView>,
)
    ensures
        ({
            let all = embedded_from(memory, at, attempts, found);
            found.len() <= all.len() && forall|i: int|
                0 <= i < found.len() ==> #[trigger] all[i] == found[i]
        }),
    decreases greater(0, memory.len() - at),
{
    if at + 64 > memory.len() || found.len() >= 256 || attempts >= 8_192 {
    } else if !(memory[at] == 0x4d && memory[at + 1] == 0x5a) {
        lemma_found_stays(memory, at + 1, attempts, found);
    } else {
        match embedded_at(memory, at) {
            Some(embedded) => {
                lemma_found_stays(
                    memory,
                    at + embedded.length,
                    attempts + 1,
                    found.push(embedded),
                );
                let all = embedded_from(memory, at, attempts, found);
                assert forall|i: int| 0 <= i < found.len() implies #[trigger] all[i] == found[i] by {
                    assert(all[i] == found.push(embedded)[i]);
                }
            },
            None => {
                lemma_found_stays(memory, at + 1, attempts + 1, found);
            },
        }
    }
}

#[verifier::rlimit(50)]
#[verifier::spinoff_prover]
proof fn lemma_embedded_is_found(
    memory: Seq<u8>,
    at: int,
    attempts: int,
    found: Seq<EmbeddedView>,
    offset: int,
)
    requires
        1 <= at <= offset,
        attempts <= magic_places(memory, 1, at),
        magic_places(memory, 1, offset) < 8_192,
        offset <= memory.len(),
        embedded_at(memory, offset) is Some,
    ensures
        ({
            let all = embedded_from(memory, at, attempts, found);
            all.contains(embedded_at(memory, offset)->Some_0) || inside_one(all, offset)
                || all.len() >= 256
        }),
    decreases offset - at,
{
    law_files_are_recognised(memory, offset);
    lemma_magic_places(memory, 1, at, offset);
    let all = embedded_from(memory, at, attempts, found);
    if found.len() < 256 {
        if !(memory[at] == 0x4d && memory[at + 1] == 0x5a) {
            assert(at < offset);
            lemma_embedded_is_found(memory, at + 1, attempts, found, offset);
        } else {
            match embedded_at(memory, at) {
                Some(embedded) => {
                    law_files_are_recognised(memory, at);
                    let next = at + embedded.length;
                    let more = found.push(embedded);
                    lemma_found_stays(memory, next, attempts + 1, more);
                    assert(all[found.len() as int] == more[found.len() as int]);
                    if offset == at {
                        assert(all.contains(embedded));
                    } else if offset < next {
                        assert(all[found.len() as int].offset < offset);
                        assert(inside_one(all, offset));
                    } else {
                        lemma_magic_places(memory, 1, at + 1, next);
                        lemma_embedded_is_found(memory, next, attempts + 1, more, offset);
                    }
                },
                None => {
                    assert(at < offset);
                    lemma_embedded_is_found(memory, at + 1, attempts + 1, found, offset);
                },
            }
        }
    }
}

/// No image is passed over: where one stands behind the start of memory, it is found, or it
/// lies inside one that is found, or as many as are allowed are found; but for a place with
/// too many others before it that hold the DOS magic.
pub proof fn law_no_embedded_image_is_passed_over(memory: Seq<u8>, offset: int)
    requires
        1 <= offset <= memory.len(),
        embedded_at(memory, offset) is Some,
        magic_places(memory, 1, offset) < 8_192,
    ensures
        embedded_in(memory).contains(embedded_at(memory, offset)->Some_0) || inside_one(
            embedded_in(memory),
            offset,
        ) || embedded_in(memory).len() == 256,
{
    lemma_embedded_is_found(memory, 1, 0, Seq::empty(), offset);
    law_embedded_images_are_apart(memory);
}

} // verus!
