//! What the index of exports and the resolution of pointers have to do with the images.

use vstd::prelude::*;

use crate::pe::exports::{
    export_table, exports_of, first_name, function_address, function_name, module_text, text_at,
    with_functions, ExportTable, ExportView,
};
use crate::pe::image::{fits, u16_at, u32_at};
use crate::pe::imports::attestation::away;
use crate::pe::imports::thunks::{export_reached, pointer_at, resolved};
use crate::pe::parse::memory_model;
use crate::pe::{directory_of, DataDirectory, PeKind};
use crate::text::{law_same_text_is_an_equivalence, same_text};

verus! {

/// Whether the image has an export directory at `at` whose first 40 bytes can be read.
pub open spec fn has_exports(bytes: Seq<u8>, directory: DataDirectory) -> bool {
    &&& memory_model(bytes) matches Ok(model) && directory_of(bytes, model.headers, 0) == Ok::<
        Option<DataDirectory>,
        crate::error::AppError,
    >(Some(directory))
    &&& fits(bytes, directory.rva.0 as int, 40)
}

/// Where the function at `index` stands, relative to the image; zero where it has none that
/// can be read.
pub open spec fn function_rva(bytes: Seq<u8>, directory: DataDirectory, index: int) -> u32 {
    let at = directory.rva.0 as int;
    let place = u32_at(bytes, at + 28) + 4 * index;
    if place + 4 <= bytes.len() {
        u32_at(bytes, place)
    } else {
        0
    }
}

/// Whether the image has the function at `index` itself: it has an address, which does not
/// lie in the export directory, as that of a function of another module does.
pub open spec fn has_function(bytes: Seq<u8>, directory: DataDirectory, index: int) -> bool {
    let at = directory.rva.0 as int;
    let rva = function_rva(bytes, directory, index);
    &&& 0 <= index < 65_536 && index < u32_at(bytes, at + 20)
    &&& rva != 0
    &&& rva < at || at + directory.size <= rva
    &&& u32_at(bytes, at + 16) + index <= u32::MAX
}

/// Whether the name at `position` is that of the function at `index`, and none before is.
pub open spec fn first_named(
    bytes: Seq<u8>,
    directory: DataDirectory,
    position: int,
    index: int,
) -> bool {
    let ordinals = u32_at(bytes, directory.rva.0 + 36) as int;
    &&& 0 <= position < 65_536 && position < u32_at(bytes, directory.rva.0 + 24)
    &&& names_index(bytes, ordinals, position, index)
    &&& forall|p: int| 0 <= p < position ==> !#[trigger] names_index(bytes, ordinals, p, index)
}

/// Whether the entry of the table of ordinals at `position` is `index`.
pub open spec fn names_index(bytes: Seq<u8>, ordinals: int, position: int, index: int) -> bool {
    ordinals + 2 * position + 2 <= bytes.len() && u16_at(bytes, ordinals + 2 * position) == index
}

proof fn lemma_first_name(bytes: Seq<u8>, table: ExportTable, index: int, count: int, at: int)
    requires
        0 <= at < count,
        names_index(bytes, table.ordinals as int, at, index),
        forall|p: int|
            0 <= p < at ==> !#[trigger] names_index(bytes, table.ordinals as int, p, index),
    ensures
        first_name(bytes, table, index, count) == Some(at),
    decreases count,
{
    if count - 1 > at {
        lemma_first_name(bytes, table, index, count - 1, at);
    } else {
        lemma_no_name(bytes, table, index, at);
    }
}

proof fn lemma_no_name(bytes: Seq<u8>, table: ExportTable, index: int, count: int)
    requires
        forall|p: int|
            0 <= p < count ==> !#[trigger] names_index(bytes, table.ordinals as int, p, index),
    ensures
        first_name(bytes, table, index, count) is None,
    decreases count,
{
    if count > 0 {
        assert(!names_index(bytes, table.ordinals as int, count - 1, index));
        lemma_no_name(bytes, table, index, count - 1);
    }
}

/// The name of an exported function is the text that its first name leads to; a function
/// without a name has none.
pub proof fn law_names_follow_the_ordinals(
    bytes: Seq<u8>,
    directory: DataDirectory,
    position: int,
    index: int,
)
    requires
        has_exports(bytes, directory),
    ensures
        ({
            let table = export_table(bytes, memory_model(bytes)->Ok_0.headers)->Some_0;
            let place = u32_at(bytes, directory.rva.0 + 32) + 4 * position;
            &&& first_named(bytes, directory, position, index) && place + 4 <= bytes.len()
                ==> function_name(bytes, table, index) == text_at(
                bytes,
                u32_at(bytes, place) as int,
            )
            &&& (forall|p: int|
                0 <= p < u32_at(bytes, directory.rva.0 + 24) ==> !#[trigger] names_index(
                    bytes,
                    u32_at(bytes, directory.rva.0 + 36) as int,
                    p,
                    index,
                )) ==> function_name(bytes, table, index) is None
        }),
{
    let table = export_table(bytes, memory_model(bytes)->Ok_0.headers)->Some_0;
    if first_named(bytes, directory, position, index) {
        lemma_first_name(bytes, table, index, table.name_count as int, position);
    }
    if forall|p: int|
        0 <= p < u32_at(bytes, directory.rva.0 + 24) ==> !#[trigger] names_index(
            bytes,
            u32_at(bytes, directory.rva.0 + 36) as int,
            p,
            index,
        ) {
        lemma_no_name(bytes, table, index, table.name_count as int);
    }
}

/// What an index says of an address once the first `count` functions of an image are added.
proof fn lemma_functions(
    known: Map<u64, (ExportView, bool)>,
    base: u64,
    bytes: Seq<u8>,
    directory: DataDirectory,
    table: ExportTable,
    module: Seq<char>,
    count: int,
    index: int,
)
    requires
        has_exports(bytes, directory),
        Some(table) == export_table(bytes, memory_model(bytes)->Ok_0.headers),
        0 <= index < count <= table.function_count,
        has_function(bytes, directory, index),
        base + function_rva(bytes, directory, index) <= u64::MAX,
    ensures
        ({
            let later = with_functions(known, base, bytes, table, module, count);
            let address = (base + function_rva(bytes, directory, index)) as u64;
            &&& later.dom().contains(address)
            &&& known.dom().contains(address) ==> later[address].0 == known[address].0 && (
            !same_text(known[address].0.module, module) ==> later[address].1) && (same_text(
                known[address].0.module,
                module,
            ) ==> later[address].1 == known[address].1)
            &&& !known.dom().contains(address) && (forall|j: int|
                0 <= j < index && #[trigger] has_function(bytes, directory, j) ==> function_rva(
                    bytes,
                    directory,
                    j,
                ) != function_rva(bytes, directory, index)) ==> later[address] == (
                ExportView {
                    module,
                    name: function_name(bytes, table, index),
                    ordinal: (u32_at(bytes, directory.rva.0 + 16) + index) as u32,
                },
                false,
            )
        }),
    decreases count,
{
    law_same_text_is_an_equivalence(module, module, module);
    let address = (base + function_rva(bytes, directory, index)) as u64;
    let before = with_functions(known, base, bytes, table, module, count - 1);
    assert(function_address(bytes, table, index) == Some(function_rva(bytes, directory, index)));
    if index < count - 1 {
        lemma_functions(known, base, bytes, directory, table, module, count - 1, index);
        lemma_known_module(known, base, bytes, table, module, count - 1, address);
    } else {
        lemma_absent(known, base, bytes, directory, table, module, count - 1, address);
        lemma_known_module(known, base, bytes, table, module, count - 1, address);
    }
}

proof fn lemma_known_module(
    known: Map<u64, (ExportView, bool)>,
    base: u64,
    bytes: Seq<u8>,
    table: ExportTable,
    module: Seq<char>,
    count: int,
    address: u64,
)
    ensures
        ({
            let later = with_functions(known, base, bytes, table, module, count);
            &&& later.dom().contains(address) && !known.dom().contains(address) ==> same_text(
                later[address].0.module,
                module,
            ) && !later[address].1
            &&& known.dom().contains(address) ==> later.dom().contains(address)
                && later[address].0 == known[address].0 && (later[address].1 ==> known[address].1
                || !same_text(known[address].0.module, module)) && (known[address].1
                ==> later[address].1)
        }),
    decreases count,
{
    law_same_text_is_an_equivalence(module, module, module);
    if count > 0 {
        lemma_known_module(known, base, bytes, table, module, count - 1, address);
    }
}

/// An address that no function of the image has stays unknown.
proof fn lemma_absent(
    known: Map<u64, (ExportView, bool)>,
    base: u64,
    bytes: Seq<u8>,
    directory: DataDirectory,
    table: ExportTable,
    module: Seq<char>,
    count: int,
    address: u64,
)
    requires
        has_exports(bytes, directory),
        Some(table) == export_table(bytes, memory_model(bytes)->Ok_0.headers),
        count <= table.function_count,
    ensures
        ({
            let later = with_functions(known, base, bytes, table, module, count);
            later.dom().contains(address) && !known.dom().contains(address) ==> exists|j: int|
                0 <= j < count && #[trigger] has_function(bytes, directory, j) && base
                    + function_rva(bytes, directory, j) == address
        }),
    decreases count,
{
    if count > 0 {
        lemma_absent(known, base, bytes, directory, table, module, count - 1, address);
        let before = with_functions(known, base, bytes, table, module, count - 1);
        let later = with_functions(known, base, bytes, table, module, count);
        if later.dom().contains(address) && !known.dom().contains(address) {
            if before.dom().contains(address) {
                let j = choose|j: int|
                    0 <= j < count - 1 && #[trigger] has_function(bytes, directory, j) && base
                        + function_rva(bytes, directory, j) == address;
                assert(has_function(bytes, directory, j));
            } else {
                assert(has_function(bytes, directory, count - 1));
            }
        }
    }
}

/// Every function that an image exports itself is in the index, at its address. An address
/// that was not known before has the module, name and ordinal of the first function there,
/// and is not ambiguous; one that was known keeps its export, and becomes ambiguous where
/// that belongs to another module.
pub proof fn law_every_export_is_known(
    images: Seq<(u64, &[u8], Option<&str>)>,
    image: (u64, &[u8], Option<&str>),
    directory: DataDirectory,
    index: int,
)
    requires
        has_exports(image.1@, directory),
        image.2 is Some || text_at(
            image.1@,
            u32_at(image.1@, directory.rva.0 + 12) as int,
        ) is Some,
        has_function(image.1@, directory, index),
        image.0 + function_rva(image.1@, directory, index) <= u64::MAX,
    ensures
        ({
            let before = exports_of(images);
            let after = exports_of(images.push(image));
            let bytes = image.1@;
            let table = export_table(bytes, memory_model(bytes)->Ok_0.headers)->Some_0;
            let address = (image.0 + function_rva(bytes, directory, index)) as u64;
            let module = match image.2 {
                Some(name) => name@,
                None => text_at(bytes, u32_at(bytes, directory.rva.0 + 12) as int)->Some_0,
            };
            &&& after.dom().contains(address)
            &&& before.dom().contains(address) ==> after[address].0 == before[address].0 && (
            !same_text(before[address].0.module, module) ==> after[address].1) && (same_text(
                before[address].0.module,
                module,
            ) ==> after[address].1 == before[address].1)
            &&& !before.dom().contains(address) && (forall|j: int|
                0 <= j < index && #[trigger] has_function(bytes, directory, j) ==> function_rva(
                    bytes,
                    directory,
                    j,
                ) != function_rva(bytes, directory, index)) ==> after[address] == (
                ExportView {
                    module,
                    name: function_name(bytes, table, index),
                    ordinal: (u32_at(bytes, directory.rva.0 + 16) + index) as u32,
                },
                false,
            )
        }),
{
    let bytes = image.1@;
    let model = memory_model(bytes)->Ok_0;
    let table = export_table(bytes, model.headers)->Some_0;
    let module = module_text(bytes, table, image.2)->Some_0;
    assert(images.push(image).drop_last() =~= images);
    lemma_functions(
        exports_of(images),
        image.0,
        bytes,
        directory,
        table,
        module,
        table.function_count as int,
        index,
    );
}

/// The index makes nothing up: an address that an image adds is that of a function that the
/// image exports itself, and an image without an export directory adds nothing.
pub proof fn law_known_exports_come_from_images(
    images: Seq<(u64, &[u8], Option<&str>)>,
    image: (u64, &[u8], Option<&str>),
    address: u64,
)
    requires
        exports_of(images.push(image)).dom().contains(address),
        !exports_of(images).dom().contains(address),
    ensures
        exists|directory: DataDirectory, index: int|
            has_exports(image.1@, directory) && #[trigger] has_function(image.1@, directory, index)
                && image.0 + function_rva(image.1@, directory, index) == address,
{
    let bytes = image.1@;
    let model = memory_model(bytes)->Ok_0;
    assert(images.push(image).drop_last() =~= images);
    let table = export_table(bytes, model.headers)->Some_0;
    let module = module_text(bytes, table, image.2)->Some_0;
    assert(has_exports(bytes, table.directory));
    lemma_absent(
        exports_of(images),
        image.0,
        bytes,
        table.directory,
        table,
        module,
        table.function_count as int,
        address,
    );
}

/// Whether a jump stub stands at the address and leads on to `next`: a jump through a slot,
/// or a jump to a constant that was loaded before.
pub open spec fn stub_leads_to(
    memory: Seq<u8>,
    base: u64,
    kind: PeKind,
    value: u64,
    next: u64,
) -> bool {
    let rva = value - base;
    &&& base <= value
    &&& match kind {
        PeKind::Pe32Plus => rva + 12 <= memory.len() && ((memory[rva] == 0xFF && memory[rva + 1]
            == 0x25 && base + rva + 6 <= i64::MAX && exists|slot: int| #[trigger]
            away(rva + 6, u32_at(memory, rva + 2), slot) && base + slot <= i64::MAX && pointer_at(
                memory,
                slot,
                8,
            ) == Some(next)) || (memory[rva] == 0x48 && memory[rva + 1] == 0xB8 && memory[rva + 10]
            == 0xFF && memory[rva + 11] == 0xE0 && pointer_at(memory, rva + 2, 8) == Some(next))),
        PeKind::Pe32 => rva + 7 <= memory.len() && ((memory[rva] == 0xFF && memory[rva + 1] == 0x25
            && pointer_at(memory, u32_at(memory, rva + 2) - base, 4) == Some(next)) || (memory[rva]
            == 0xB8 && memory[rva + 5] == 0xFF && memory[rva + 6] == 0xE0 && pointer_at(
            memory,
            rva + 1,
            4,
        ) == Some(next))),
    }
}

/// Whether the addresses are those of stubs that lead from one to the next, none of them that
/// of an export but the last.
pub open spec fn stub_chain(
    memory: Seq<u8>,
    base: u64,
    kind: PeKind,
    exports: Map<u64, (ExportView, bool)>,
    chain: Seq<u64>,
) -> bool {
    &&& chain.len() > 0
    &&& exports.dom().contains(chain.last())
    &&& forall|i: int|
        0 <= i < chain.len() - 1 ==> {
            &&& !exports.dom().contains(#[trigger] chain[i])
            &&& chain[i] != chain[i + 1]
            &&& stub_leads_to(memory, base, kind, chain[i], chain[i + 1])
        }
}

proof fn lemma_stub_chain(
    memory: Seq<u8>,
    base: u64,
    kind: PeKind,
    exports: Map<u64, (ExportView, bool)>,
    chain: Seq<u64>,
    at: int,
    hops: int,
)
    requires
        stub_chain(memory, base, kind, exports, chain),
        0 <= at < chain.len(),
        chain.len() - at <= hops,
    ensures
        export_reached(memory, base, kind, chain[at], exports, hops) == Some(
            exports[chain.last()],
        ),
    decreases chain.len() - at,
{
    if at < chain.len() - 1 {
        assert(!exports.dom().contains(chain[at]));
        lemma_stub_chain(memory, base, kind, exports, chain, at + 1, hops - 1);
    }
}

/// A pointer resolves to the export that it leads to, straight or through up to four stubs.
pub proof fn law_pointers_resolve_through_stubs(
    memory: Seq<u8>,
    base: u64,
    kind: PeKind,
    exports: Map<u64, (ExportView, bool)>,
    chain: Seq<u64>,
)
    requires
        stub_chain(memory, base, kind, exports, chain),
        chain.len() <= 5,
    ensures
        resolved(memory, base, kind, chain[0], exports) == Some(exports[chain.last()]),
{
    lemma_stub_chain(memory, base, kind, exports, chain, 0, 5);
}

proof fn lemma_chain_of(
    memory: Seq<u8>,
    base: u64,
    kind: PeKind,
    value: u64,
    exports: Map<u64, (ExportView, bool)>,
    hops: int,
) -> (chain: Seq<u64>)
    requires
        export_reached(memory, base, kind, value, exports, hops) is Some,
    ensures
        stub_chain(memory, base, kind, exports, chain),
        chain.len() <= hops,
        chain[0] == value,
        export_reached(memory, base, kind, value, exports, hops) == Some(exports[chain.last()]),
    decreases hops,
{
    if exports.dom().contains(value) {
        seq![value]
    } else {
        let next = crate::pe::imports::thunks::stub_target(memory, base, kind, value)->Some_0;
        let rest = lemma_chain_of(memory, base, kind, next, exports, hops - 1);
        let chain = seq![value] + rest;
        assert(chain[1] == rest[0]);
        assert(stub_leads_to(memory, base, kind, value, next)) by {
            let rva = value - base;
            let distance = u32_at(memory, rva + 2);
            let slot = if distance < 0x8000_0000 {
                rva + 6 + distance
            } else {
                rva + 6 + distance - 0x1_0000_0000
            };
            assert(away(rva + 6, distance, slot));
        }
        assert forall|i: int| 0 <= i < chain.len() - 1 implies {
            &&& !exports.dom().contains(#[trigger] chain[i])
            &&& chain[i] != chain[i + 1]
            &&& stub_leads_to(memory, base, kind, chain[i], chain[i + 1])
        } by {
            if i > 0 {
                assert(chain[i] == rest[i - 1]);
                assert(chain[i + 1] == rest[i]);
            }
        }
        assert(chain.last() == rest.last());
        chain
    }
}

/// A pointer resolves to nothing else: where it resolves, up to four stubs lead from it to
/// the export.
pub proof fn law_resolved_pointers_lead_to_their_export(
    memory: Seq<u8>,
    base: u64,
    kind: PeKind,
    value: u64,
    exports: Map<u64, (ExportView, bool)>,
)
    requires
        resolved(memory, base, kind, value, exports) is Some,
    ensures
        exists|chain: Seq<u64>| #[trigger]
            stub_chain(memory, base, kind, exports, chain) && chain.len() <= 5 && chain[0] == value
                && resolved(memory, base, kind, value, exports) == Some(exports[chain.last()]),
{
    let chain = lemma_chain_of(memory, base, kind, value, exports, 5);
    assert(stub_chain(memory, base, kind, exports, chain));
}

} // verus!
