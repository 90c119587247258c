//! The Variant encoding of a JSON document, as mathematics.
//!
//! The value bytes of a document depend on the document and on the ids of
//! its field names; the metadata bytes depend on the dictionary alone.

use vstd::prelude::*;
use vstd::utf8::encode_utf8;
use crate::dictionary::{dictionary_add, field_id};
use crate::error::VariantError;
use crate::fields::{entry_ids, entry_offsets, max_id, sort_entries, FieldModel};
use crate::number::{classified, Number};
use crate::value::JsonModel;
use crate::variant_utils::{
    array_header_byte, count_width, metadata_header_byte, min_width, object_header_byte,
    primitive_header_byte, short_string_header_byte, DECIMAL16, DECIMAL4, DECIMAL8, DOUBLE, FALSE, INT1, INT2,
    INT4, INT8, LONG_STR, MAX_PRECISION_DECIMAL_4, MAX_PRECISION_DECIMAL_8, MAX_SHORT_STR_SIZE,
    MAX_UNSCALED_DECIMAL_4, MAX_UNSCALED_DECIMAL_8, NULL, TRUE,
};
use crate::wire::le_bytes;

verus! {

/// The values of `values`, each as `width` little-endian bytes, one after
/// the other.
pub open spec fn le_table(values: Seq<int>, width: nat) -> Seq<u8>
    decreases values.len(),
{
    if values.len() == 0 {
        Seq::empty()
    } else {
        le_table(values.drop_last(), width) + le_bytes(values.last(), width)
    }
}

/// The first `count` of `parts`, one after the other.
pub open spec fn joined(parts: Seq<Seq<u8>>, count: int) -> Seq<u8>
    decreases count,
{
    if count <= 0 || count > parts.len() {
        Seq::empty()
    } else {
        joined(parts, count - 1) + parts[count - 1]
    }
}

/// Where each of `parts` starts when they stand one after the other.
pub open spec fn starts(parts: Seq<Seq<u8>>) -> Seq<int> {
    Seq::new(parts.len(), |i: int| joined(parts, i).len() as int)
}

/// An integer: the narrowest of the four widths that holds it.
pub open spec fn int_bytes(value: i64) -> Seq<u8> {
    if -0x80 <= value <= 0x7F {
        seq![primitive_header_byte(INT1)] + le_bytes(value as int, 1)
    } else if -0x8000 <= value <= 0x7FFF {
        seq![primitive_header_byte(INT2)] + le_bytes(value as int, 2)
    } else if -0x8000_0000 <= value <= 0x7FFF_FFFF {
        seq![primitive_header_byte(INT4)] + le_bytes(value as int, 4)
    } else {
        seq![primitive_header_byte(INT8)] + le_bytes(value as int, 8)
    }
}

/// A decimal: the scale, then the unscaled value in the narrowest of the
/// three widths that holds its digits and goes with its scale.
pub open spec fn decimal_bytes(unscaled: i128, scale: u8) -> Seq<u8> {
    if -MAX_UNSCALED_DECIMAL_4 <= unscaled <= MAX_UNSCALED_DECIMAL_4 && scale <= MAX_PRECISION_DECIMAL_4 {
        seq![primitive_header_byte(DECIMAL4), scale] + le_bytes(unscaled as int, 4)
    } else if -MAX_UNSCALED_DECIMAL_8 <= unscaled <= MAX_UNSCALED_DECIMAL_8 && scale
        <= MAX_PRECISION_DECIMAL_8 {
        seq![primitive_header_byte(DECIMAL8), scale] + le_bytes(unscaled as int, 8)
    } else {
        seq![primitive_header_byte(DECIMAL16), scale] + le_bytes(unscaled as int, 16)
    }
}

/// A double: its bits.
pub open spec fn double_bytes(bits: u64) -> Seq<u8> {
    seq![primitive_header_byte(DOUBLE)] + le_bytes(bits as int, 8)
}

/// A number, by its physical type.
pub open spec fn number_bytes(number: Number) -> Seq<u8> {
    match number {
        Number::Int(value) => int_bytes(value),
        Number::Decimal(unscaled, scale) => decimal_bytes(unscaled, scale),
        Number::Double(bits) => double_bytes(bits),
    }
}

/// The room that is asked for before a number is written: that of the
/// widest number of its physical type.
pub open spec fn number_room(number: Number) -> int {
    match number {
        Number::Int(_) => 9,
        Number::Decimal(_, _) => 18,
        Number::Double(_) => 9,
    }
}

/// A string of the UTF-8 bytes `text`: short with the length in the header
/// byte where it has at most 63 bytes, else long with the length in four
/// bytes.
pub open spec fn string_bytes(text: Seq<u8>) -> Seq<u8> {
    if text.len() <= MAX_SHORT_STR_SIZE {
        seq![short_string_header_byte(text.len() as u8)] + text
    } else {
        seq![primitive_header_byte(LONG_STR)] + le_bytes(text.len() as int, 4) + text
    }
}

/// The header of an array whose elements start at `offsets` and take
/// `data_size` bytes in all: the header byte, the count, where each element
/// starts, and where the last one ends.
pub open spec fn array_header(offsets: Seq<int>, data_size: int) -> Seq<u8> {
    let count = offsets.len() as int;
    let offset_size = min_width(data_size);
    seq![array_header_byte(count > 0xFF, offset_size)] + le_bytes(count, count_width(count) as nat)
        + le_table(offsets, offset_size as nat) + le_bytes(data_size, offset_size as nat)
}

/// An array whose elements are `parts`: the header, then the elements.
pub open spec fn array_bytes(parts: Seq<Seq<u8>>) -> Seq<u8> {
    let data = joined(parts, parts.len() as int);
    array_header(starts(parts), data.len() as int) + data
}

/// The fields of an object in the order in which they were written: the
/// names `keys` with their ids in `names`, and where the value of each
/// starts among `parts`.
pub open spec fn object_fields(keys: Seq<Seq<char>>, names: Seq<Seq<char>>, parts: Seq<Seq<u8>>) -> Seq<
    FieldModel,
> {
    Seq::new(
        keys.len(),
        |i: int| FieldModel { key: keys[i], id: field_id(names, keys[i]), offset: joined(parts, i).len() as int },
    )
}

/// The header of an object whose fields, in the order of their names, are
/// `sorted` and whose values take `data_size` bytes: the header byte, the
/// count, the id of each field, where the value of each starts, and where
/// the data ends.
pub open spec fn object_header(sorted: Seq<FieldModel>, data_size: int) -> Seq<u8> {
    let count = sorted.len() as int;
    let id_size = min_width(max_id(sorted));
    let offset_size = min_width(data_size);
    seq![object_header_byte(count > 0xFF, id_size, offset_size)] + le_bytes(count, count_width(count) as nat)
        + le_table(entry_ids(sorted), id_size as nat) + le_table(entry_offsets(sorted), offset_size as nat)
        + le_bytes(data_size, offset_size as nat)
}

/// An object with the member names `keys` and the member values `parts`:
/// the header, which lists the fields by name, then the values in the order
/// in which they were written.
pub open spec fn object_bytes(keys: Seq<Seq<char>>, names: Seq<Seq<char>>, parts: Seq<Seq<u8>>) -> Seq<u8> {
    let data_size = joined(parts, parts.len() as int).len() as int;
    object_header(sort_entries(object_fields(keys, names, parts)), data_size) + joined(
        parts,
        parts.len() as int,
    )
}

/// The value bytes of `tree`, where `names` gives the field names their
/// ids. A number that cannot be read has no bytes.
pub open spec fn value_bytes(tree: JsonModel, names: Seq<Seq<char>>) -> Seq<u8>
    decreases tree, tree.child_count() + 1,
{
    match tree {
        JsonModel::Null => seq![primitive_header_byte(NULL)],
        JsonModel::Bool(b) => seq![primitive_header_byte(if b { TRUE } else { FALSE })],
        JsonModel::Number(text) => match classified(text) {
            Some(number) => number_bytes(number),
            None => Seq::empty(),
        },
        JsonModel::String(text) => string_bytes(encode_utf8(text)),
        JsonModel::Array(_) => array_bytes(child_parts(tree, names, tree.child_count())),
        JsonModel::Object(_) => object_bytes(tree.keys(), names, child_parts(tree, names, tree.child_count())),
    }
}

/// The value bytes of each of the first `count` children of `tree`.
pub open spec fn child_parts(tree: JsonModel, names: Seq<Seq<char>>, count: nat) -> Seq<Seq<u8>>
    decreases tree, count,
{
    if count == 0 || count > tree.child_count() {
        Seq::empty()
    } else {
        child_parts(tree, names, (count - 1) as nat).push(value_bytes(tree.child(count - 1), names))
    }
}

/// The dictionary after `key`, if it is one, was met.
pub open spec fn with_key(names: Seq<Seq<char>>, key: Option<Seq<char>>) -> Seq<Seq<char>> {
    match key {
        Some(name) => dictionary_add(names, name),
        None => names,
    }
}

/// The dictionary after `tree` was encoded, where it was `names` before:
/// the field names of `tree` that were not in `names` have been added in the
/// order in which the document has them.
pub open spec fn names_after(tree: JsonModel, names: Seq<Seq<char>>) -> Seq<Seq<char>>
    decreases tree, tree.child_count() + 1,
{
    names_after_children(tree, names, tree.child_count())
}

/// The dictionary after the first `count` children of `tree` were encoded.
/// The name of a member is met before its value.
pub open spec fn names_after_children(tree: JsonModel, names: Seq<Seq<char>>, count: nat) -> Seq<Seq<char>>
    decreases tree, count,
{
    if count == 0 || count > tree.child_count() {
        names
    } else {
        names_after(
            tree.child(count - 1),
            with_key(names_after_children(tree, names, (count - 1) as nat), tree.child_key(count - 1)),
        )
    }
}

/// The dictionary of a document: its field names, each once, in the order
/// in which the document first has them.
pub open spec fn dictionary_of(tree: JsonModel) -> Seq<Seq<char>> {
    names_after(tree, Seq::empty())
}

/// Why the encode of `tree` stops, if it does, when it starts at the write
/// cursor `at` and no buffer may grow beyond `limit`: the first number that
/// cannot be read, or the first request for room that the limit refuses,
/// whichever the encoder meets first. A container asks for the room of its
/// header when its children are written.
pub open spec fn first_error(tree: JsonModel, names: Seq<Seq<char>>, at: int, limit: int) -> Option<
    VariantError,
>
    decreases tree, tree.child_count() + 1,
{
    match tree {
        JsonModel::Null => room_error(at, 1, limit),
        JsonModel::Bool(_) => room_error(at, 1, limit),
        JsonModel::Number(text) => match classified(text) {
            Some(number) => room_error(at, number_room(number), limit),
            None => Some(VariantError::NumberUnparseable),
        },
        JsonModel::String(text) => room_error(at, string_bytes(encode_utf8(text)).len() as int, limit),
        _ => match first_child_error(tree, names, at, limit, tree.child_count()) {
            Some(error) => Some(error),
            None => room_error(at, value_bytes(tree, names).len() as int, limit),
        },
    }
}

/// Why the encode stops among the first `count` children of `tree`, if it
/// does.
pub open spec fn first_child_error(
    tree: JsonModel,
    names: Seq<Seq<char>>,
    at: int,
    limit: int,
    count: nat,
) -> Option<VariantError>
    decreases tree, count,
{
    if count == 0 || count > tree.child_count() {
        None
    } else {
        match first_child_error(tree, names, at, limit, (count - 1) as nat) {
            Some(error) => Some(error),
            None => first_error(
                tree.child(count - 1),
                names,
                at + joined(child_parts(tree, names, (count - 1) as nat), count - 1).len(),
                limit,
            ),
        }
    }
}

/// Where the write cursor stands when the encode of `tree`, which started
/// at `at`, has stopped for the reason that `first_error` gives: at the
/// node that stopped it, behind what was written before that node, or,
/// where it is the header of a container that finds no room, behind the
/// children of that container.
pub open spec fn error_cursor(tree: JsonModel, names: Seq<Seq<char>>, at: int, limit: int) -> int
    decreases tree, tree.child_count() + 1,
{
    child_error_cursor(tree, names, at, limit, tree.child_count())
}

/// Where the write cursor stands when the encode has stopped among the
/// first `count` children of `tree`; behind them where none of them stops
/// it.
pub open spec fn child_error_cursor(
    tree: JsonModel,
    names: Seq<Seq<char>>,
    at: int,
    limit: int,
    count: nat,
) -> int
    decreases tree, count,
{
    if count == 0 || count > tree.child_count() {
        at
    } else if first_child_error(tree, names, at, limit, (count - 1) as nat) is Some {
        child_error_cursor(tree, names, at, limit, (count - 1) as nat)
    } else {
        let start = at + joined(child_parts(tree, names, (count - 1) as nat), count - 1).len();
        if first_error(tree.child(count - 1), names, start, limit) is Some {
            error_cursor(tree.child(count - 1), names, start, limit)
        } else {
            start + value_bytes(tree.child(count - 1), names).len()
        }
    }
}

/// The size limit refuses `room` more bytes at the write cursor `at`.
pub open spec fn room_error(at: int, room: int, limit: int) -> Option<VariantError> {
    if at + room > limit {
        Some(VariantError::SizeLimitExceeded)
    } else {
        None
    }
}

/// The UTF-8 bytes of each of `names`.
pub open spec fn name_parts(names: Seq<Seq<char>>) -> Seq<Seq<u8>> {
    Seq::new(names.len(), |i: int| encode_utf8(names[i]))
}

/// The width of the offsets of the metadata of the dictionary `names`: that
/// of the larger of the count of names and the size of the string heap.
pub open spec fn metadata_offset_size(names: Seq<Seq<char>>) -> int {
    let heap_size = joined(name_parts(names), names.len() as int).len() as int;
    min_width(if names.len() >= heap_size { names.len() as int } else { heap_size })
}

/// The metadata bytes of the dictionary `names`: the header byte, the count
/// of names, where each name starts in the string heap and where the last
/// one ends, then the heap: the names in the order of their ids.
pub open spec fn metadata_bytes(names: Seq<Seq<char>>) -> Seq<u8> {
    let parts = name_parts(names);
    let count = names.len() as int;
    let heap_size = joined(parts, count).len() as int;
    let offset_size = metadata_offset_size(names);
    seq![metadata_header_byte(offset_size)] + le_bytes(count, offset_size as nat) + le_table(
        starts(parts),
        offset_size as nat,
    ) + le_bytes(heap_size, offset_size as nat) + joined(parts, count)
}

/// Why the metadata of the dictionary `names` is not written, if it is not:
/// the count of names, the size of the string heap or the size of the
/// metadata is beyond `limit`.
pub open spec fn metadata_error(names: Seq<Seq<char>>, limit: int) -> Option<VariantError> {
    let heap_size = joined(name_parts(names), names.len() as int).len() as int;
    if names.len() > limit || heap_size > limit || metadata_bytes(names).len() > limit {
        Some(VariantError::SizeLimitExceeded)
    } else {
        None
    }
}

} // verus!
