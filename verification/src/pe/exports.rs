//! Which exports stand at which addresses.

use std::collections::BTreeMap;
use vstd::prelude::*;
use vstd::utf8::decode_utf8;

use crate::pe::image::{
    ascii_length, fits, law_texts_end_with_nul, read_ascii, read_u16, read_u32, u16_at, u32_at,
};
use crate::pe::parse::{memory_model, parse_memory_image};
use crate::pe::{directory_of, DataDirectory, PeHeaders, PeImage};
use crate::text::{same_text, text_from_bytes, text_matches};

verus! {

broadcast use {
    vstd::std_specs::btree::group_btree_axioms,
    vstd::laws_cmp::group_laws_cmp,
};

pub const EXPORT_DIRECTORY: usize = 0;

pub const EXPORT_TABLE_SIZE: usize = 40;

pub const MAX_EXPORTS: u32 = 65_536;

pub const MAX_EXPORT_NAME: usize = 4_096;

/// An export: the module that has it, its ordinal, and its name where it has one.
pub struct ResolvedExport {
    pub module: String,
    pub name: Option<String>,
    pub ordinal: u32,
}

/// An export, as contracts speak of it.
pub ghost struct ExportView {
    pub module: Seq<char>,
    pub name: Option<Seq<char>>,
    pub ordinal: u32,
}

/// The contents of an optional text.
pub open spec fn optional_text(text: Option<String>) -> Option<Seq<char>> {
    match text {
        Some(found) => Some(found@),
        None => None,
    }
}

impl View for ResolvedExport {
    type V = ExportView;

    open spec fn view(&self) -> ExportView {
        ExportView {
            module: self.module@,
            name: optional_text(self.name),
            ordinal: self.ordinal,
        }
    }
}

impl ResolvedExport {
    pub fn duplicate(&self) -> (copy: ResolvedExport)
        ensures
            copy@ == self@,
    {
        ResolvedExport {
            module: self.module.clone(),
            name: match &self.name {
                Some(name) => Some(name.clone()),
                None => None,
            },
            ordinal: self.ordinal,
        }
    }
}

/// What is known of an address: the export there, and whether another module has one too.
pub struct KnownExport {
    pub export: ResolvedExport,
    pub ambiguous: bool,
}

impl View for KnownExport {
    type V = (ExportView, bool);

    open spec fn view(&self) -> (ExportView, bool) {
        (self.export@, self.ambiguous)
    }
}

/// The fields of an export table that lead to its exports.
#[derive(Clone, Copy, Debug, PartialEq, Eq, Structural)]
pub struct ExportTable {
    pub directory: DataDirectory,
    pub module_name: u32,
    pub ordinal_base: u32,
    pub function_count: u32,
    pub name_count: u32,
    pub functions: u32,
    pub names: u32,
    pub ordinals: u32,
}

/// A count, held at the most that is read.
pub open spec fn limited(count: u32) -> u32 {
    if count < 65_536 {
        count
    } else {
        65_536
    }
}

/// The export table of an image.
pub open spec fn export_table(bytes: Seq<u8>, headers: PeHeaders) -> Option<ExportTable> {
    match directory_of(bytes, headers, 0) {
        Ok(Some(directory)) => {
            let at = directory.rva.0 as int;
            if fits(bytes, at, 40) {
                Some(
                    ExportTable {
                        directory,
                        module_name: u32_at(bytes, at + 12),
                        ordinal_base: u32_at(bytes, at + 16),
                        function_count: limited(u32_at(bytes, at + 20)),
                        name_count: limited(u32_at(bytes, at + 24)),
                        functions: u32_at(bytes, at + 28),
                        names: u32_at(bytes, at + 32),
                        ordinals: u32_at(bytes, at + 36),
                    },
                )
            } else {
                None
            }
        },
        _ => None,
    }
}

/// The NUL-terminated ASCII text at an address, if there is one.
pub open spec fn text_at(bytes: Seq<u8>, rva: int) -> Option<Seq<char>> {
    match ascii_length(bytes, rva, 4_096) {
        Some(length) => Some(decode_utf8(bytes.subrange(rva, rva + length))),
        None => None,
    }
}

/// The address of the function at `index`, if the image has that function itself: an
/// address of zero is a gap, and one in the export directory leads to another module.
pub open spec fn function_address(bytes: Seq<u8>, table: ExportTable, index: int) -> Option<u32> {
    let at = table.functions + 4 * index;
    let rva = u32_at(bytes, at);
    let start = table.directory.rva.0;
    if !fits(bytes, at, 4) || rva == 0 || (start <= rva < start + table.directory.size) {
        None
    } else {
        Some(rva)
    }
}

/// Whether the name at `position` is that of the function at `index`.
pub open spec fn names_function(
    bytes: Seq<u8>,
    table: ExportTable,
    position: int,
    index: int,
) -> bool {
    fits(bytes, table.ordinals + 2 * position, 2) && u16_at(bytes, table.ordinals + 2 * position)
        == index
}

/// The first of the first `count` names that is that of the function at `index`.
pub open spec fn first_name(bytes: Seq<u8>, table: ExportTable, index: int, count: int) -> Option<
    int,
>
    decreases count,
{
    if count <= 0 {
        None
    } else {
        match first_name(bytes, table, index, count - 1) {
            Some(position) => Some(position),
            None => if names_function(bytes, table, count - 1, index) {
                Some(count - 1)
            } else {
                None
            },
        }
    }
}

/// The name of the function at `index`, if it has one that can be read.
pub open spec fn function_name(bytes: Seq<u8>, table: ExportTable, index: int) -> Option<
    Seq<char>,
> {
    match first_name(bytes, table, index, table.name_count as int) {
        None => None,
        Some(position) => {
            let at = table.names + 4 * position;
            if fits(bytes, at, 4) {
                text_at(bytes, u32_at(bytes, at) as int)
            } else {
                None
            }
        },
    }
}

/// `known` with an export at an address. The first export of an address stays; one of
/// another module makes the address ambiguous.
pub open spec fn with_export(
    known: Map<u64, (ExportView, bool)>,
    address: u64,
    export: ExportView,
) -> Map<u64, (ExportView, bool)> {
    if !known.dom().contains(address) {
        known.insert(address, (export, false))
    } else if same_text(known[address].0.module, export.module) {
        known
    } else {
        known.insert(address, (known[address].0, true))
    }
}

/// `known` with the function at `index`, if the image has it.
pub open spec fn with_function(
    known: Map<u64, (ExportView, bool)>,
    base: u64,
    bytes: Seq<u8>,
    table: ExportTable,
    module: Seq<char>,
    index: int,
) -> Map<u64, (ExportView, bool)> {
    match function_address(bytes, table, index) {
        Some(rva) => if base + rva > u64::MAX || table.ordinal_base + index > u32::MAX {
            known
        } else {
            with_export(
                known,
                (base + rva) as u64,
                ExportView {
                    module,
                    name: function_name(bytes, table, index),
                    ordinal: (table.ordinal_base + index) as u32,
                },
            )
        },
        None => known,
    }
}

/// `known` with the first `count` functions of an image.
pub open spec fn with_functions(
    known: Map<u64, (ExportView, bool)>,
    base: u64,
    bytes: Seq<u8>,
    table: ExportTable,
    module: Seq<char>,
    count: int,
) -> Map<u64, (ExportView, bool)>
    decreases count,
{
    if count <= 0 {
        known
    } else {
        with_function(
            with_functions(known, base, bytes, table, module, count - 1),
            base,
            bytes,
            table,
            module,
            count - 1,
        )
    }
}

/// The name of a module: the one given, else the one in its export table.
pub open spec fn module_text(bytes: Seq<u8>, table: ExportTable, given: Option<&str>) -> Option<
    Seq<char>,
> {
    match given {
        Some(name) => Some(name@),
        None => text_at(bytes, table.module_name as int),
    }
}

/// `known` with the exports of an image: its address, its bytes and its name if that is
/// known. An image whose headers, export table or name cannot be read adds nothing.
pub open spec fn with_image(
    known: Map<u64, (ExportView, bool)>,
    image: (u64, &[u8], Option<&str>),
) -> Map<u64, (ExportView, bool)> {
    match memory_model(image.1@) {
        Err(_) => known,
        Ok(model) => match export_table(image.1@, model.headers) {
            None => known,
            Some(table) => match module_text(image.1@, table, image.2) {
                None => known,
                Some(module) => with_functions(
                    known,
                    image.0,
                    image.1@,
                    table,
                    module,
                    table.function_count as int,
                ),
            },
        },
    }
}

/// The exports of images, in order.
pub open spec fn exports_of(images: Seq<(u64, &[u8], Option<&str>)>) -> Map<
    u64,
    (ExportView, bool),
>
    decreases images.len(),
{
    if images.len() == 0 {
        Map::empty()
    } else {
        with_image(exports_of(images.drop_last()), images.last())
    }
}

/// The exports of the captured images by address.
pub struct ExportIndex {
    known: BTreeMap<u64, KnownExport>,
}

impl View for ExportIndex {
    type V = Map<u64, (ExportView, bool)>;

    closed spec fn view(&self) -> Map<u64, (ExportView, bool)> {
        self.known@.map_values(|known: KnownExport| known@)
    }
}

impl Default for ExportIndex {
    fn default() -> (index: ExportIndex)
        ensures
            index@ == Map::<u64, (ExportView, bool)>::empty(),
    {
        let index = ExportIndex { known: BTreeMap::new() };
        assert(index@ =~= Map::<u64, (ExportView, bool)>::empty());
        index
    }
}

/// Reads the export table of an image.
fn read_export_table(image: &PeImage<'_>) -> (result: Option<ExportTable>)
    ensures
        result == export_table(image.bytes@, image.model.headers),
{
    let directory = match image.directory(EXPORT_DIRECTORY) {
        Ok(Some(directory)) => directory,
        _ => {
            return None;
        },
    };
    let bytes = image.bytes;
    let at: usize = directory.rva.as_usize();
    if bytes.len() < EXPORT_TABLE_SIZE || at > bytes.len() - EXPORT_TABLE_SIZE {
        return None;
    }
    match (
        (read_u32(bytes, at + 12), read_u32(bytes, at + 16), read_u32(bytes, at + 20)),
        (read_u32(bytes, at + 24), read_u32(bytes, at + 28), read_u32(bytes, at + 32)),
        read_u32(bytes, at + 36),
    ) {
        (
            (Ok(module_name), Ok(ordinal_base), Ok(functions_declared)),
            (Ok(names_declared), Ok(functions), Ok(names)),
            Ok(ordinals),
        ) => Some(
            ExportTable {
                directory,
                module_name,
                ordinal_base,
                function_count: limit(functions_declared),
                name_count: limit(names_declared),
                functions,
                names,
                ordinals,
            },
        ),
        _ => None,
    }
}

fn limit(count: u32) -> (result: u32)
    ensures
        result == limited(count),
{
    if count < MAX_EXPORTS {
        count
    } else {
        MAX_EXPORTS
    }
}

proof fn lemma_ascii_is_utf8(bytes: Seq<u8>)
    requires
        forall|i: int| 0 <= i < bytes.len() ==> #[trigger] bytes[i] < 0x80,
    ensures
        vstd::utf8::valid_utf8(bytes),
{
    broadcast use vstd::utf8::utf8_byte_ranges_bitwise;

    assert(bytes.subrange(0, 0) =~= Seq::empty());
    assert(vstd::utf8::partial_valid_utf8(bytes, 0));
    vstd::utf8::partial_valid_utf8_extend_ascii_block(bytes, 0, bytes.len() as int);
    assert(bytes.subrange(0, bytes.len() as int) =~= bytes);
}

/// Reads the text at an address.
fn read_text(bytes: &[u8], rva: u32) -> (result: Option<String>)
    ensures
        optional_text(result) == text_at(bytes@, rva as int),
{
    let start: usize = rva as usize;
    let length: usize = match read_ascii(bytes, start, MAX_EXPORT_NAME) {
        Some(length) => length,
        None => {
            return None;
        },
    };
    let total: usize = bytes.len();
    proof {
        law_texts_end_with_nul(bytes@, rva as int, 4_096);
    }
    let part = &bytes[start..start + length];
    proof {
        lemma_ascii_is_utf8(part@);
    }
    Some(text_from_bytes(part))
}

/// Finds the first name of every function.
fn map_names(bytes: &[u8], table: &ExportTable) -> (names: Vec<Option<usize>>)
    requires
        table.function_count <= 65_536,
        table.name_count <= 65_536,
    ensures
        names@.len() == table.function_count,
        forall|i: int|
            0 <= i < names@.len() ==> match first_name(
                bytes@,
                *table,
                i,
                table.name_count as int,
            ) {
                Some(position) => #[trigger] names@[i] == Some(position as usize) && 0 <= position
                    < table.name_count,
                None => names@[i] is None,
            },
{
    let mut names: Vec<Option<usize>> = Vec::new();
    while names.len() < table.function_count as usize
        invariant
            names@.len() <= table.function_count,
            forall|i: int| 0 <= i < names@.len() ==> #[trigger] names@[i] is None,
        decreases table.function_count - names@.len(),
    {
        names.push(None);
    }
    let total: usize = bytes.len();
    let mut position: usize = 0;
    while position < table.name_count as usize
        invariant
            position <= table.name_count <= 65_536,
            total == bytes@.len(),
            names@.len() == table.function_count,
            forall|i: int|
                0 <= i < names@.len() ==> match first_name(bytes@, *table, i, position as int) {
                    Some(found) => #[trigger] names@[i] == Some(found as usize) && 0 <= found
                        < position,
                    None => names@[i] is None,
                },
        decreases table.name_count - position,
    {
        let ghost before = names@;
        match read_u16(bytes, (table.ordinals as usize).saturating_add(2 * position)) {
            Ok(ordinal) => {
                let index: usize = ordinal as usize;
                if index < names.len() && names[index].is_none() {
                    names.set(index, Some(position));
                }
            },
            Err(_) => {},
        }
        proof {
            assert forall|i: int| 0 <= i < names@.len() implies match first_name(
                bytes@,
                *table,
                i,
                position + 1,
            ) {
                Some(found) => #[trigger] names@[i] == Some(found as usize) && 0 <= found < position
                    + 1,
                None => names@[i] is None,
            } by {
                assert(before[i] is None || before[i] is Some);
            }
        }
        position = position + 1;
    }
    names
}

/// Reads the name that was found for a function.
fn read_name(bytes: &[u8], table: &ExportTable, position: Option<usize>) -> (result: Option<
    String,
>)
    requires
        position matches Some(found) ==> found < 65_536,
    ensures
        optional_text(result) == match position {
            None => None,
            Some(found) => if fits(bytes@, table.names + 4 * found, 4) {
                text_at(bytes@, u32_at(bytes@, table.names + 4 * found) as int)
            } else {
                None
            },
        },
{
    let total: usize = bytes.len();
    match position {
        None => None,
        Some(found) => match read_u32(bytes, (table.names as usize).saturating_add(4 * found)) {
            Ok(rva) => read_text(bytes, rva),
            Err(_) => None,
        },
    }
}

/// Reads the address of a function.
fn read_function(bytes: &[u8], table: &ExportTable, index: usize) -> (result: Option<u32>)
    requires
        index < 65_536,
    ensures
        result == function_address(bytes@, *table, index as int),
{
    let total: usize = bytes.len();
    match read_u32(bytes, (table.functions as usize).saturating_add(4 * index)) {
        Ok(rva) => {
            let start: u32 = table.directory.rva.0;
            if rva == 0 || (rva >= start && rva - start < table.directory.size) {
                None
            } else {
                Some(rva)
            }
        },
        Err(_) => None,
    }
}

impl ExportIndex {
    /// Adds an export.
    fn add_export(&mut self, address: u64, export: ResolvedExport)
        ensures
            final(self)@ == with_export(old(self)@, address, export@),
    {
        let ghost before = self.known@;
        let replaced: Option<ResolvedExport> = match self.known.get(&address) {
            None => None,
            Some(known) => {
                assert(before[address]@ == known@);
                if text_matches(known.export.module.as_str(), export.module.as_str()) {
                    return;
                }
                Some(known.export.duplicate())
            },
        };
        match replaced {
            None => {
                self.known.insert(address, KnownExport { export, ambiguous: false });
            },
            Some(first) => {
                self.known.insert(address, KnownExport { export: first, ambiguous: true });
            },
        }
        assert(self@ =~= with_export(old(self)@, address, export@));
    }

    /// Adds the exports of an image.
    fn add_image(&mut self, base: u64, bytes: &[u8], name: Option<&str>)
        ensures
            final(self)@ == with_image(old(self)@, (base, bytes, name)),
    {
        let image = match parse_memory_image(bytes) {
            Ok(image) => image,
            Err(_) => {
                return;
            },
        };
        let table = match read_export_table(&image) {
            Some(table) => table,
            None => {
                return;
            },
        };
        let module: String = match name {
            Some(given) => given.to_string(),
            None => match read_text(bytes, table.module_name) {
                Some(found) => found,
                None => {
                    return;
                },
            },
        };
        let names = map_names(bytes, &table);
        let mut index: usize = 0;
        while index < table.function_count as usize
            invariant
                index <= table.function_count <= 65_536,
                table.name_count <= 65_536,
                names@.len() == table.function_count,
                forall|i: int|
                    0 <= i < names@.len() ==> match first_name(
                        bytes@,
                        table,
                        i,
                        table.name_count as int,
                    ) {
                        Some(position) => #[trigger] names@[i] == Some(position as usize) && 0
                            <= position < table.name_count,
                        None => names@[i] is None,
                    },
                self@ == with_functions(
                    old(self)@,
                    base,
                    bytes@,
                    table,
                    module@,
                    index as int,
                ),
            decreases table.function_count - index,
        {
            let ghost before = self@;
            if let Some(rva) = read_function(bytes, &table, index) {
                let found = names[index];
                assert(names@[index as int] == found);
                if rva as u64 <= u64::MAX - base && index as u32 <= 0xFFFF_FFFF - table.ordinal_base {
                    let export = ResolvedExport {
                        module: module.clone(),
                        name: read_name(bytes, &table, found),
                        ordinal: table.ordinal_base + index as u32,
                    };
                    assert(export@ == (ExportView {
                        module: module@,
                        name: function_name(bytes@, table, index as int),
                        ordinal: (table.ordinal_base + index) as u32,
                    }));
                    self.add_export(base + rva as u64, export);
                }
            }
            assert(self@ == with_function(before, base, bytes@, table, module@, index as int));
            index = index + 1;
        }
    }

    /// Indexes the exports of images, each given with its address and its name if that is
    /// known.
    pub fn build(images: &[(u64, &[u8], Option<&str>)]) -> (index: ExportIndex)
        ensures
            index@ == exports_of(images@),
    {
        let mut built = ExportIndex::default();
        let mut next: usize = 0;
        assert(images@.take(0) =~= Seq::empty());
        while next < images.len()
            invariant
                next <= images@.len(),
                built@ == exports_of(images@.take(next as int)),
            decreases images@.len() - next,
        {
            assert(images@.take(next + 1).drop_last() =~= images@.take(next as int));
            let image = images[next];
            built.add_image(image.0, image.1, image.2);
            next = next + 1;
        }
        assert(images@.take(next as int) =~= images@);
        built
    }

    /// The export at an address, and whether another module has one there too.
    pub fn resolve(&self, value: u64) -> (result: Option<(&ResolvedExport, bool)>)
        ensures
            match result {
                Some((export, ambiguous)) => self@.dom().contains(value) && self@[value] == (
                    export@,
                    ambiguous,
                ),
                None => !self@.dom().contains(value),
            },
    {
        match self.known.get(&value) {
            Some(known) => Some((&known.export, known.ambiguous)),
            None => None,
        }
    }
}

proof fn lemma_with_functions(
    known: Map<u64, (ExportView, bool)>,
    base: u64,
    bytes: Seq<u8>,
    table: ExportTable,
    module: Seq<char>,
    count: int,
    address: u64,
)
    requires
        known.dom().contains(address),
    ensures
        ({
            let later = with_functions(known, base, bytes, table, module, count);
            later.dom().contains(address) && later[address].0 == known[address].0 && (
            known[address].1 ==> later[address].1)
        }),
    decreases count,
{
    if count > 0 {
        lemma_with_functions(known, base, bytes, table, module, count - 1, address);
    }
}

/// What an index says of an address stands when more images are added: the export stays,
/// and an ambiguous address stays ambiguous.
pub proof fn law_first_export_stays(
    images: Seq<(u64, &[u8], Option<&str>)>,
    image: (u64, &[u8], Option<&str>),
    address: u64,
)
    requires
        exports_of(images).dom().contains(address),
    ensures
        exports_of(images.push(image)).dom().contains(address),
        exports_of(images.push(image))[address].0 == exports_of(images)[address].0,
        exports_of(images)[address].1 ==> exports_of(images.push(image))[address].1,
{
    let known = exports_of(images);
    assert(images.push(image).drop_last() =~= images);
    if let Ok(model) = memory_model(image.1@) {
        if let Some(table) = export_table(image.1@, model.headers) {
            if let Some(module) = module_text(image.1@, table, image.2) {
                lemma_with_functions(
                    known,
                    image.0,
                    image.1@,
                    table,
                    module,
                    table.function_count as int,
                    address,
                );
            }
        }
    }
}

} // verus!
