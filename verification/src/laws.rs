//! What holds of every encoding.

use vstd::prelude::*;
use vstd::utf8::encode_utf8;
use crate::container::lemma_le_table_len;
use crate::dictionary::{
    dictionary_add, distinct, field_id, has_field, lemma_dictionary_add, lemma_field_id, lemma_field_id_at,
    lemma_field_id_extends,
};
use crate::encoding::{
    array_header, child_parts, dictionary_of, joined, le_table, metadata_bytes, metadata_offset_size,
    name_parts, names_after, names_after_children, number_bytes, number_room, object_fields, object_header,
    starts, value_bytes, with_key,
};
use crate::fields::{
    entry_ids, entry_offsets, insert_position, key_le, law_key_order_total, law_key_order_transitive,
    lemma_insert_position, lemma_max_id, lemma_max_id_sorted, lemma_sort_entries_len, max_id, sort_entries,
    FieldModel,
};
use crate::metadata::{lemma_metadata_size, metadata_header_bytes};
use crate::json::encode_error;
use crate::number::{classified, Number};
use crate::stability::{
    covers, lemma_child_parts_len, lemma_child_parts_prefix, lemma_covers_child, lemma_names_after,
};
use crate::value::JsonModel;
use crate::variant_utils::{
    array_header_byte, count_width, metadata_header_byte, min_width, object_header_byte,
    primitive_header_byte, short_string_header_byte, ARRAY, MAX_SHORT_STR_SIZE, OBJECT, PRIMITIVE, SHORT_STR,
};
use crate::wire::{le_bytes, lemma_le_bytes_len};

verus! {

/// The basic type of the physical value that `tree` is written as. A
/// null, a boolean, a number and a string of more than 63 bytes are
/// primitives.
pub open spec fn basic_type(tree: JsonModel) -> u8 {
    match tree {
        JsonModel::String(text) => if encode_utf8(text).len() <= MAX_SHORT_STR_SIZE {
            SHORT_STR
        } else {
            PRIMITIVE
        },
        JsonModel::Object(_) => OBJECT,
        JsonModel::Array(_) => ARRAY,
        _ => PRIMITIVE,
    }
}

/// The header byte of a primitive has the basic type 0 in its low two bits
/// and the sub-type above.
pub proof fn lemma_primitive_header_byte(typ: u8)
    requires
        typ < 64,
    ensures
        primitive_header_byte(typ) & 0b11 == 0,
        primitive_header_byte(typ) >> 2 == typ,
{
    let byte = primitive_header_byte(typ);
    assert(typ < 64 ==> (typ * 4) as u8 & 0b11 == 0 && ((typ * 4) as u8) >> 2 == typ) by (bit_vector);
}

/// The header byte of a short string has the basic type 1 in its low two
/// bits and the length above.
pub proof fn lemma_short_string_header_byte(size: u8)
    requires
        size < 64,
    ensures
        short_string_header_byte(size) & 0b11 == 1,
        short_string_header_byte(size) >> 2 == size,
{
    assert(size < 64 ==> (size * 4 + 1) as u8 & 0b11 == 1 && ((size * 4 + 1) as u8) >> 2 == size)
        by (bit_vector);
}

/// The header byte of an array has the basic type 3 in its low two bits,
/// the offset width less one in the next two, and the large-size flag
/// above.
pub proof fn lemma_array_header_byte(large_size: bool, offset_size: int)
    requires
        1 <= offset_size <= 4,
    ensures
        array_header_byte(large_size, offset_size) & 0b11 == 3,
        (array_header_byte(large_size, offset_size) >> 2) & 0b11 == offset_size - 1,
        array_header_byte(large_size, offset_size) >> 4 == (if large_size { 1u8 } else { 0u8 }),
{
    let large: u8 = if large_size { 1 } else { 0 };
    let width: u8 = (offset_size - 1) as u8;
    assert(array_header_byte(large_size, offset_size) == (large * 16 + width * 4 + 3) as u8);
    assert(large <= 1 && width <= 3 ==> {
        let byte = (large * 16 + width * 4 + 3) as u8;
        byte & 0b11 == 3 && (byte >> 2) & 0b11 == width && byte >> 4 == large
    }) by (bit_vector);
}

/// The header byte of an object has the basic type 2 in its low two bits,
/// the offset width less one in the next two, the id width less one in the
/// two after them, and the large-size flag above.
pub proof fn lemma_object_header_byte(large_size: bool, id_size: int, offset_size: int)
    requires
        1 <= id_size <= 4,
        1 <= offset_size <= 4,
    ensures
        object_header_byte(large_size, id_size, offset_size) & 0b11 == 2,
        (object_header_byte(large_size, id_size, offset_size) >> 2) & 0b11 == offset_size - 1,
        (object_header_byte(large_size, id_size, offset_size) >> 4) & 0b11 == id_size - 1,
        object_header_byte(large_size, id_size, offset_size) >> 6 == (if large_size { 1u8 } else { 0u8 }),
{
    let large: u8 = if large_size { 1 } else { 0 };
    let ids: u8 = (id_size - 1) as u8;
    let offsets: u8 = (offset_size - 1) as u8;
    assert(object_header_byte(large_size, id_size, offset_size) == (large * 64 + ids * 16 + offsets * 4 + 2) as u8);
    assert(large <= 1 && ids <= 3 && offsets <= 3 ==> {
        let byte = (large * 64 + ids * 16 + offsets * 4 + 2) as u8;
        byte & 0b11 == 2 && (byte >> 2) & 0b11 == offsets && (byte >> 4) & 0b11 == ids && byte >> 6 == large
    }) by (bit_vector);
}

/// The header byte of the metadata has the version 1 in its low bits and
/// the offset width less one in its two high bits.
pub proof fn lemma_metadata_header_byte(offset_size: int)
    requires
        1 <= offset_size <= 4,
    ensures
        metadata_header_byte(offset_size) & 0b1111 == 1,
        metadata_header_byte(offset_size) >> 6 == offset_size - 1,
{
    let width: u8 = (offset_size - 1) as u8;
    assert(metadata_header_byte(offset_size) == (width * 64 + 1) as u8);
    assert(width <= 3 ==> (width * 64 + 1) as u8 & 0b1111 == 1 && ((width * 64 + 1) as u8) >> 6 == width)
        by (bit_vector);
}

/// The low two bits of the first byte of a value are its basic type. So
/// they are 0 if and only if the value is a primitive.
pub proof fn law_basic_type(tree: JsonModel, names: Seq<Seq<char>>)
    requires
        tree matches JsonModel::Number(text) ==> classified(text) is Some,
    ensures
        value_bytes(tree, names).len() > 0,
        value_bytes(tree, names)[0] & 0b11 == basic_type(tree),
        value_bytes(tree, names)[0] & 0b11 == 0 <==> basic_type(tree) == PRIMITIVE,
{
    lemma_primitive_header_byte(0);
    lemma_primitive_header_byte(1);
    lemma_primitive_header_byte(2);
    lemma_primitive_header_byte(3);
    lemma_primitive_header_byte(4);
    lemma_primitive_header_byte(5);
    lemma_primitive_header_byte(6);
    lemma_primitive_header_byte(7);
    lemma_primitive_header_byte(8);
    lemma_primitive_header_byte(9);
    lemma_primitive_header_byte(10);
    lemma_primitive_header_byte(16);
    match tree {
        JsonModel::String(text) => {
            let bytes = encode_utf8(text);
            if bytes.len() <= 0x3F {
                lemma_short_string_header_byte(bytes.len() as u8);
            }
        },
        JsonModel::Array(_) => {
            let parts = child_parts(tree, names, tree.child_count());
            let data_size = joined(parts, parts.len() as int).len() as int;
            lemma_array_header_byte(parts.len() > 0xFF, min_width(data_size));
            assert(value_bytes(tree, names)[0] == array_header(starts(parts), data_size)[0]);
        },
        JsonModel::Object(_) => {
            let parts = child_parts(tree, names, tree.child_count());
            let data_size = joined(parts, parts.len() as int).len() as int;
            let sorted = sort_entries(object_fields(tree.keys(), names, parts));
            lemma_object_header_byte(sorted.len() > 0xFF, min_width(max_id(sorted)), min_width(data_size));
            assert(value_bytes(tree, names)[0] == object_header(sorted, data_size)[0]);
        },
        _ => {},
    }
}

/// The widths in the header of an array are the least that will do: the
/// header byte of an array gives the width of the least of one, two and
/// three bytes that holds the size of the elements, and the large-size flag
/// if and only if there are more than 255 elements.
pub proof fn law_array_widths(tree: JsonModel, names: Seq<Seq<char>>)
    requires
        tree is Array,
    ensures
        ({
            let parts = child_parts(tree, names, tree.child_count());
            let data_size = joined(parts, parts.len() as int).len() as int;
            let byte = value_bytes(tree, names)[0];
            &&& parts.len() == tree.child_count()
            &&& (byte >> 2) & 0b11 == min_width(data_size) - 1
            &&& (byte >> 4 == 1) <==> tree.child_count() > 0xFF
            &&& value_bytes(tree, names).len() == 1 + count_width(tree.child_count() as int) + (
            tree.child_count() + 1) * min_width(data_size) + data_size
        }),
{
    let count = tree.child_count();
    let parts = child_parts(tree, names, count);
    lemma_child_parts_len(tree, names, count);
    let data_size = joined(parts, parts.len() as int).len() as int;
    let width = min_width(data_size);
    lemma_array_header_byte(count > 0xFF, width);
    assert(value_bytes(tree, names)[0] == array_header(starts(parts), data_size)[0]);
    lemma_le_bytes_len(count as int, count_width(count as int) as nat);
    lemma_le_table_len(starts(parts), width as nat);
    lemma_le_bytes_len(data_size, width as nat);
    assert(count * width + width == (count + 1) * width) by (nonlinear_arith);
}

/// The widths in the header of an object are the least that will do: the
/// header byte of an object gives the width of the least of one, two and
/// three bytes that holds the largest id of its fields, that of the least
/// that holds the size of the values, and the large-size flag if and only
/// if there are more than 255 fields. The largest id is that of the fields
/// in whatever order: no field has a larger one, and one has it unless it
/// is 0.
pub proof fn law_object_widths(tree: JsonModel, names: Seq<Seq<char>>)
    requires
        tree is Object,
    ensures
        ({
            let parts = child_parts(tree, names, tree.child_count());
            let data_size = joined(parts, parts.len() as int).len() as int;
            let fields = object_fields(tree.keys(), names, parts);
            let sorted = sort_entries(fields);
            let byte = value_bytes(tree, names)[0];
            &&& sorted.len() == tree.child_count()
            &&& fields.len() == tree.child_count()
            &&& max_id(sorted) == max_id(fields)
            &&& forall|i: int|
                0 <= i < tree.child_count() ==> field_id(names, #[trigger] tree.keys()[i]) <= max_id(fields)
            &&& max_id(fields) == 0 || exists|i: int|
                0 <= i < tree.child_count() && field_id(names, #[trigger] tree.keys()[i]) == max_id(fields)
            &&& (byte >> 2) & 0b11 == min_width(data_size) - 1
            &&& (byte >> 4) & 0b11 == min_width(max_id(sorted)) - 1
            &&& (byte >> 6 == 1) <==> tree.child_count() > 0xFF
            &&& value_bytes(tree, names).len() == 1 + count_width(tree.child_count() as int)
                + tree.child_count() * min_width(max_id(sorted)) + (tree.child_count() + 1) * min_width(
                data_size,
            ) + data_size
        }),
{
    let count = tree.child_count();
    let parts = child_parts(tree, names, count);
    lemma_child_parts_len(tree, names, count);
    let data_size = joined(parts, parts.len() as int).len() as int;
    let fields = object_fields(tree.keys(), names, parts);
    let sorted = sort_entries(fields);
    lemma_sort_entries_len(fields);
    lemma_max_id_sorted(fields);
    lemma_max_id(fields);
    assert forall|i: int| 0 <= i < tree.child_count() implies field_id(names, #[trigger] tree.keys()[i])
        <= max_id(fields) by {
        assert(fields[i].id == field_id(names, tree.keys()[i]));
    }
    if max_id(fields) != 0 {
        let i = choose|i: int| 0 <= i < fields.len() && (#[trigger] fields[i]).id == max_id(fields);
        assert(field_id(names, tree.keys()[i]) == max_id(fields));
    }
    let id_size = min_width(max_id(sorted));
    let offset_size = min_width(data_size);
    lemma_object_header_byte(count > 0xFF, id_size, offset_size);
    assert(value_bytes(tree, names)[0] == object_header(sorted, data_size)[0]);
    lemma_le_bytes_len(count as int, count_width(count as int) as nat);
    lemma_le_table_len(entry_ids(sorted), id_size as nat);
    lemma_le_table_len(entry_offsets(sorted), offset_size as nat);
    lemma_le_bytes_len(data_size, offset_size as nat);
    assert(count * offset_size + offset_size == (count + 1) * offset_size) by (nonlinear_arith);
}

/// The width in the header of the metadata is the least that will do: the
/// header byte gives the width of the least of one, two and three bytes
/// that holds both the count of names and the size of the string heap.
pub proof fn law_metadata_width(names: Seq<Seq<char>>)
    ensures
        ({
            let heap_size = joined(name_parts(names), names.len() as int).len() as int;
            let byte = metadata_bytes(names)[0];
            &&& byte & 0b1111 == 1
            &&& byte >> 6 == min_width(if names.len() >= heap_size { names.len() as int } else { heap_size }) - 1
            &&& metadata_bytes(names).len() == 1 + (names.len() + 2) * metadata_offset_size(names) + heap_size
        }),
{
    lemma_metadata_size(names);
    lemma_metadata_header_byte(metadata_offset_size(names));
    assert(metadata_bytes(names)[0] == metadata_header_bytes(names)[0]);
    assert(metadata_offset_size(names) * (names.len() + 2) == (names.len() + 2) * metadata_offset_size(names))
        by (nonlinear_arith);
}

/// Value `i` of a table stands at `i` times the width.
pub proof fn lemma_le_table_entry(values: Seq<int>, width: nat, i: int)
    requires
        0 <= i < values.len(),
    ensures
        le_table(values, width).len() == values.len() * width,
        0 <= i * width,
        i * width + width <= values.len() * width,
        le_table(values, width).subrange(i * width, i * width + width) == le_bytes(values[i], width),
    decreases values.len(),
{
    lemma_le_table_len(values, width);
    lemma_le_table_len(values.drop_last(), width);
    lemma_le_bytes_len(values.last(), width);
    lemma_le_bytes_len(values[i], width);
    let last = values.len() - 1;
    assert(0 <= i * width && i * width + width <= values.len() * width) by (nonlinear_arith)
        requires
            0 <= i < values.len(),
    ;
    assert(last * width + width == values.len() * width) by (nonlinear_arith)
        requires
            last == values.len() - 1,
    ;
    if i == last {
        assert(le_table(values, width).subrange(i * width, i * width + width) =~= le_bytes(values[i], width));
    } else {
        lemma_le_table_entry(values.drop_last(), width, i);
        assert(values.drop_last()[i] == values[i]);
        assert(i * width + width <= last * width) by (nonlinear_arith)
            requires
                0 <= i < last,
        ;
        assert(le_table(values, width).subrange(i * width, i * width + width) =~= le_table(
            values.drop_last(),
            width,
        ).subrange(i * width, i * width + width));
    }
}

/// Part `i` stands in the joined parts where it starts.
pub proof fn lemma_joined_part(parts: Seq<Seq<u8>>, count: int, i: int)
    requires
        0 <= i < count <= parts.len(),
    ensures
        joined(parts, i + 1) == joined(parts, i) + parts[i],
        joined(parts, i).len() + parts[i].len() <= joined(parts, count).len(),
        joined(parts, count).subrange(joined(parts, i).len() as int, (joined(parts, i).len() + parts[i].len()) as int)
            == parts[i],
    decreases count - i,
{
    if count == i + 1 {
        assert(joined(parts, count).subrange(
            joined(parts, i).len() as int,
            (joined(parts, i).len() + parts[i].len()) as int,
        ) =~= parts[i]);
    } else {
        lemma_joined_part(parts, count - 1, i);
        assert(joined(parts, count).subrange(
            joined(parts, i).len() as int,
            (joined(parts, i).len() + parts[i].len()) as int,
        ) =~= joined(parts, count - 1).subrange(
            joined(parts, i).len() as int,
            (joined(parts, i).len() + parts[i].len()) as int,
        ));
    }
}

/// The offsets of an array do not decrease, each element stands where its
/// offset says, and the terminal offset is the sum of the sizes of the
/// elements: every offset is the one before it plus the size of the element
/// before it. The header holds the offsets behind the count, and the
/// terminal offset behind them.
pub proof fn law_array_offsets(tree: JsonModel, names: Seq<Seq<char>>, i: int)
    requires
        tree is Array,
        0 <= i < tree.child_count(),
    ensures
        ({
            let count = tree.child_count() as int;
            let parts = child_parts(tree, names, tree.child_count());
            let data = joined(parts, count);
            let offsets = starts(parts);
            let width = min_width(data.len() as int);
            let table = 1 + count_width(count);
            let bytes = value_bytes(tree, names);
            let next = if i + 1 < count { offsets[i + 1] } else { data.len() as int };
            &&& offsets.len() == count
            &&& offsets[0] == 0
            &&& next == offsets[i] + value_bytes(tree.child(i), names).len()
            &&& offsets[i] <= next <= data.len()
            &&& data.subrange(offsets[i], next) == value_bytes(tree.child(i), names)
            &&& bytes.len() == table + (count + 1) * width + data.len()
            &&& 0 <= table + i * width
            &&& table + i * width + width <= table + count * width
            &&& bytes.subrange(table + i * width, table + i * width + width) == le_bytes(
                offsets[i],
                width as nat,
            )
            &&& bytes.subrange(table + count * width, table + count * width + width) == le_bytes(
                data.len() as int,
                width as nat,
            )
            &&& bytes.subrange(table + (count + 1) * width, bytes.len() as int) == data
        }),
{
    let count = tree.child_count() as int;
    let parts = child_parts(tree, names, tree.child_count());
    let data = joined(parts, count);
    let offsets = starts(parts);
    let width = min_width(data.len() as int);
    let table = 1 + count_width(count);
    let bytes = value_bytes(tree, names);
    law_array_widths(tree, names);
    lemma_child_parts_prefix(tree, names, tree.child_count(), tree.child_count());
    lemma_joined_part(parts, count, i);
    lemma_le_table_entry(offsets, width as nat, i);
    lemma_le_bytes_len(count, count_width(count) as nat);
    lemma_le_bytes_len(data.len() as int, width as nat);
    let head = seq![array_header_byte(count > 0xFF, width)] + le_bytes(count, count_width(count) as nat);
    let entries = le_table(offsets, width as nat);
    let terminal = le_bytes(data.len() as int, width as nat);
    assert(bytes == head + entries + terminal + data);
    assert(count * width + width == (count + 1) * width) by (nonlinear_arith);
    assert(bytes.subrange(table + i * width, table + i * width + width) =~= entries.subrange(
        i * width,
        i * width + width,
    ));
    assert(bytes.subrange(table + count * width, table + count * width + width) =~= terminal);
    assert(bytes.subrange(table + (count + 1) * width, bytes.len() as int) =~= data);
}

/// The keys of `entries` do not decrease.
pub open spec fn keys_ordered(entries: Seq<FieldModel>) -> bool {
    forall|i: int, j: int| 0 <= i < j < entries.len() ==> key_le(entries[i].key, entries[j].key)
}

/// Sorting the fields of an object puts them in the order of their names
/// and neither loses nor adds one.
pub proof fn law_sorted_fields(entries: Seq<FieldModel>)
    ensures
        sort_entries(entries).len() == entries.len(),
        keys_ordered(sort_entries(entries)),
        sort_entries(entries).to_multiset() == entries.to_multiset(),
    decreases entries.len(),
{
    lemma_sort_entries_len(entries);
    if entries.len() == 0 {
        assert(entries =~= Seq::empty());
    } else {
        let before = sort_entries(entries.drop_last());
        let entry = entries.last();
        let p = insert_position(before, entry.key);
        let after = sort_entries(entries);
        law_sorted_fields(entries.drop_last());
        lemma_insert_position(before, entry.key);
        assert(after == before.insert(p, entry));
        assert forall|i: int, j: int| 0 <= i < j < after.len() implies key_le(after[i].key, after[j].key) by {
            if j < p {
                assert(after[i] == before[i] && after[j] == before[j]);
            } else if j == p {
                assert(after[i] == before[i]);
                if i < p - 1 {
                    law_key_order_transitive(before[i].key, before[p - 1].key, entry.key);
                }
            } else if i == p {
                assert(after[j] == before[j - 1]);
                assert(!key_le(before[j - 1].key, entry.key));
                law_key_order_total(before[j - 1].key, entry.key);
            } else if i < p {
                assert(after[i] == before[i] && after[j] == before[j - 1]);
            } else {
                assert(after[i] == before[i - 1] && after[j] == before[j - 1]);
            }
        }
        vstd::seq_lib::to_multiset_insert(before, p, entry);
        vstd::seq_lib::to_multiset_build(entries.drop_last(), entry);
        assert(entries =~= entries.drop_last().push(entry));
    }
}

/// The header of an object lists its fields in the order of their names,
/// each field once, and each with the id of its name and with the offset at
/// which its value stands among the values.
pub proof fn law_object_fields(tree: JsonModel, names: Seq<Seq<char>>, i: int)
    requires
        tree is Object,
        0 <= i < tree.child_count(),
    ensures
        ({
            let count = tree.child_count() as int;
            let parts = child_parts(tree, names, tree.child_count());
            let data = joined(parts, count);
            let fields = object_fields(tree.keys(), names, parts);
            let sorted = sort_entries(fields);
            &&& sorted.len() == count
            &&& keys_ordered(sorted)
            &&& sorted.to_multiset() == fields.to_multiset()
            &&& fields.contains(sorted[i])
            &&& fields[i].key == tree.keys()[i]
            &&& fields[i].id == field_id(names, tree.keys()[i])
            &&& 0 <= fields[i].offset
            &&& fields[i].offset + value_bytes(tree.child(i), names).len() <= data.len()
            &&& data.subrange(fields[i].offset, fields[i].offset + value_bytes(tree.child(i), names).len())
                == value_bytes(tree.child(i), names)
        }),
{
    let count = tree.child_count() as int;
    let parts = child_parts(tree, names, tree.child_count());
    let fields = object_fields(tree.keys(), names, parts);
    let sorted = sort_entries(fields);
    law_sorted_fields(fields);
    lemma_child_parts_prefix(tree, names, tree.child_count(), tree.child_count());
    lemma_joined_part(parts, count, i);
    broadcast use vstd::seq_lib::group_to_multiset_ensures;

    assert(sorted.contains(sorted[i]));
    assert(sorted.to_multiset().count(sorted[i]) > 0);
    assert(fields.to_multiset().count(sorted[i]) > 0);
}

/// The header of an object holds the ids of its fields, in the order of
/// their names, behind the count, their offsets behind the ids, and the
/// size of the values behind the offsets; the values follow.
pub proof fn law_object_layout(tree: JsonModel, names: Seq<Seq<char>>, i: int)
    requires
        tree is Object,
        0 <= i < tree.child_count(),
    ensures
        ({
            let count = tree.child_count() as int;
            let parts = child_parts(tree, names, tree.child_count());
            let data = joined(parts, count);
            let sorted = sort_entries(object_fields(tree.keys(), names, parts));
            let id_size = min_width(max_id(sorted));
            let offset_size = min_width(data.len() as int);
            let ids = 1 + count_width(count);
            let offsets = ids + count * id_size;
            let bytes = value_bytes(tree, names);
            &&& bytes.len() == offsets + (count + 1) * offset_size + data.len()
            &&& 0 <= ids + i * id_size
            &&& ids + i * id_size + id_size <= offsets
            &&& bytes.subrange(ids + i * id_size, ids + i * id_size + id_size) == le_bytes(
                sorted[i].id,
                id_size as nat,
            )
            &&& 0 <= offsets + i * offset_size
            &&& offsets + i * offset_size + offset_size <= offsets + count * offset_size
            &&& bytes.subrange(offsets + i * offset_size, offsets + i * offset_size + offset_size) == le_bytes(
                sorted[i].offset,
                offset_size as nat,
            )
            &&& bytes.subrange(offsets + count * offset_size, offsets + count * offset_size + offset_size)
                == le_bytes(data.len() as int, offset_size as nat)
            &&& bytes.subrange(offsets + (count + 1) * offset_size, bytes.len() as int) == data
        }),
{
    let count = tree.child_count() as int;
    let parts = child_parts(tree, names, tree.child_count());
    let data = joined(parts, count);
    let sorted = sort_entries(object_fields(tree.keys(), names, parts));
    let id_size = min_width(max_id(sorted));
    let offset_size = min_width(data.len() as int);
    let ids = 1 + count_width(count);
    let offsets = ids + count * id_size;
    let bytes = value_bytes(tree, names);
    law_object_widths(tree, names);
    lemma_child_parts_len(tree, names, tree.child_count());
    lemma_le_table_entry(entry_ids(sorted), id_size as nat, i);
    lemma_le_table_entry(entry_offsets(sorted), offset_size as nat, i);
    lemma_le_bytes_len(count, count_width(count) as nat);
    lemma_le_bytes_len(data.len() as int, offset_size as nat);
    let head = seq![object_header_byte(count > 0xFF, id_size, offset_size)] + le_bytes(
        count,
        count_width(count) as nat,
    );
    let id_table = le_table(entry_ids(sorted), id_size as nat);
    let offset_table = le_table(entry_offsets(sorted), offset_size as nat);
    let terminal = le_bytes(data.len() as int, offset_size as nat);
    assert(bytes =~= head + id_table + offset_table + terminal + data);
    assert(count * offset_size + offset_size == (count + 1) * offset_size) by (nonlinear_arith);
    lemma_five_parts(head, id_table, offset_table, terminal, data);
    lemma_subrange_within(bytes, ids, id_table, i * id_size, i * id_size + id_size);
    lemma_subrange_within(bytes, offsets, offset_table, i * offset_size, i * offset_size + offset_size);
}

/// Where each of five parts stands when they stand one after the other.
pub proof fn lemma_five_parts(a: Seq<u8>, b: Seq<u8>, c: Seq<u8>, d: Seq<u8>, e: Seq<u8>)
    ensures
        ({
            let bytes = a + b + c + d + e;
            &&& bytes.len() == a.len() + b.len() + c.len() + d.len() + e.len()
            &&& bytes.subrange(0, a.len() as int) == a
            &&& bytes.subrange(a.len() as int, (a.len() + b.len()) as int) == b
            &&& bytes.subrange((a.len() + b.len()) as int, (a.len() + b.len() + c.len()) as int) == c
            &&& bytes.subrange(
                (a.len() + b.len() + c.len()) as int,
                (a.len() + b.len() + c.len() + d.len()) as int,
            ) == d
            &&& bytes.subrange((a.len() + b.len() + c.len() + d.len()) as int, bytes.len() as int) == e
        }),
{
    let bytes = a + b + c + d + e;
    assert(bytes.subrange(0, a.len() as int) =~= a);
    assert(bytes.subrange(a.len() as int, (a.len() + b.len()) as int) =~= b);
    assert(bytes.subrange((a.len() + b.len()) as int, (a.len() + b.len() + c.len()) as int) =~= c);
    assert(bytes.subrange((a.len() + b.len() + c.len()) as int, (a.len() + b.len() + c.len() + d.len()) as int)
        =~= d);
    assert(bytes.subrange((a.len() + b.len() + c.len() + d.len()) as int, bytes.len() as int) =~= e);
}

/// A range of a part of a sequence is a range of the sequence.
pub proof fn lemma_subrange_within(bytes: Seq<u8>, at: int, part: Seq<u8>, from: int, to: int)
    requires
        0 <= at,
        at + part.len() <= bytes.len(),
        bytes.subrange(at, at + part.len()) == part,
        0 <= from <= to <= part.len(),
    ensures
        bytes.subrange(at + from, at + to) == part.subrange(from, to),
{
    assert(bytes.subrange(at + from, at + to) =~= bytes.subrange(at, at + part.len()).subrange(from, to));
}

/// The metadata holds the names by id: behind the header byte and the
/// count stands where each name starts in the string heap, then the size of
/// the heap, then the heap, in which the name with the id `id` stands from
/// its offset to the next one. So an id in the header of an object leads to
/// the UTF-8 bytes of the name of the field.
pub proof fn law_metadata_names(names: Seq<Seq<char>>, id: int)
    requires
        0 <= id < names.len(),
    ensures
        ({
            let count = names.len() as int;
            let parts = name_parts(names);
            let heap = joined(parts, count);
            let offsets = starts(parts);
            let width = metadata_offset_size(names);
            let bytes = metadata_bytes(names);
            let next = if id + 1 < count { offsets[id + 1] } else { heap.len() as int };
            &&& offsets[id] <= next <= heap.len()
            &&& heap.subrange(offsets[id], next) == encode_utf8(names[id])
            &&& bytes.len() == 1 + (count + 2) * width + heap.len()
            &&& bytes.subrange(1, 1 + width) == le_bytes(count, width as nat)
            &&& 0 <= 1 + width + id * width
            &&& 1 + width + id * width + width <= 1 + width + count * width
            &&& bytes.subrange(1 + width + id * width, 1 + width + id * width + width) == le_bytes(
                offsets[id],
                width as nat,
            )
            &&& bytes.subrange(1 + width + count * width, 1 + width + count * width + width) == le_bytes(
                heap.len() as int,
                width as nat,
            )
            &&& bytes.subrange(1 + (count + 2) * width, bytes.len() as int) == heap
        }),
{
    let count = names.len() as int;
    let parts = name_parts(names);
    let heap = joined(parts, count);
    let offsets = starts(parts);
    let width = metadata_offset_size(names);
    let bytes = metadata_bytes(names);
    law_metadata_width(names);
    lemma_joined_part(parts, count, id);
    lemma_le_table_entry(offsets, width as nat, id);
    lemma_le_bytes_len(count, width as nat);
    lemma_le_bytes_len(heap.len() as int, width as nat);
    let head = seq![metadata_header_byte(width)];
    let counted = le_bytes(count, width as nat);
    let table = le_table(offsets, width as nat);
    let terminal = le_bytes(heap.len() as int, width as nat);
    assert(bytes == head + counted + table + terminal + heap);
    assert(width + count * width + width == (count + 2) * width) by (nonlinear_arith);
    assert(bytes.subrange(1, 1 + width) =~= counted);
    assert(bytes.subrange(1 + width + id * width, 1 + width + id * width + width) =~= table.subrange(
        id * width,
        id * width + width,
    ));
    assert(bytes.subrange(1 + width + count * width, 1 + width + count * width + width) =~= terminal);
    assert(bytes.subrange(1 + (count + 2) * width, bytes.len() as int) =~= heap);
}

/// The id of the name of a member of an object is an index into the
/// dictionary of the document, below the count in the metadata, and the
/// name at that index is the name of the member.
pub proof fn law_object_ids(tree: JsonModel, names: Seq<Seq<char>>, i: int)
    requires
        tree is Object,
        0 <= i < tree.child_count(),
        covers(tree, names),
    ensures
        0 <= field_id(names, tree.keys()[i]) < names.len(),
        names[field_id(names, tree.keys()[i])] == tree.keys()[i],
{
    lemma_covers_child(tree, names, tree.child_count(), i);
    lemma_field_id(names, tree.keys()[i]);
}

/// The name of a member as a sequence of one name; no name for an element
/// of an array.
pub open spec fn key_names(key: Option<Seq<char>>) -> Seq<Seq<char>> {
    match key {
        Some(name) => seq![name],
        None => Seq::empty(),
    }
}

/// The field names of `tree` in the order in which the document has them,
/// the name of a member before the names in its value; a name stands as
/// often as the document has it.
pub open spec fn field_names(tree: JsonModel) -> Seq<Seq<char>>
    decreases tree, tree.child_count() + 1,
{
    child_field_names(tree, tree.child_count())
}

/// The field names of the first `count` children of `tree`.
pub open spec fn child_field_names(tree: JsonModel, count: nat) -> Seq<Seq<char>>
    decreases tree, count,
{
    if count == 0 || count > tree.child_count() {
        Seq::empty()
    } else {
        child_field_names(tree, (count - 1) as nat) + key_names(tree.child_key(count - 1)) + field_names(
            tree.child(count - 1),
        )
    }
}

/// The dictionary `names` after each of `keys` was met, in their order.
pub open spec fn met_all(names: Seq<Seq<char>>, keys: Seq<Seq<char>>) -> Seq<Seq<char>>
    decreases keys.len(),
{
    if keys.len() == 0 {
        names
    } else {
        dictionary_add(met_all(names, keys.drop_last()), keys.last())
    }
}

/// Meeting some names and then others is meeting them all in that order.
pub proof fn lemma_met_all_concat(names: Seq<Seq<char>>, first: Seq<Seq<char>>, second: Seq<Seq<char>>)
    ensures
        met_all(names, first + second) == met_all(met_all(names, first), second),
    decreases second.len(),
{
    if second.len() == 0 {
        assert(first + second =~= first);
    } else {
        lemma_met_all_concat(names, first, second.drop_last());
        assert((first + second).drop_last() =~= first + second.drop_last());
        assert((first + second).last() == second.last());
    }
}

/// Encoding a document meets its field names in the order in which the
/// document has them.
pub proof fn lemma_names_after_met_all(tree: JsonModel, names: Seq<Seq<char>>)
    ensures
        names_after(tree, names) == met_all(names, field_names(tree)),
    decreases tree, tree.child_count() + 1,
{
    lemma_children_names_after_met_all(tree, names, tree.child_count());
}

/// Encoding the first `count` children of a document meets their field
/// names in the order in which the document has them.
pub proof fn lemma_children_names_after_met_all(tree: JsonModel, names: Seq<Seq<char>>, count: nat)
    ensures
        names_after_children(tree, names, count) == met_all(names, child_field_names(tree, count)),
    decreases tree, count,
{
    if !(count == 0 || count > tree.child_count()) {
        let before = names_after_children(tree, names, (count - 1) as nat);
        let seen = child_field_names(tree, (count - 1) as nat);
        let key = tree.child_key(count - 1);
        let keyed = with_key(before, key);
        lemma_children_names_after_met_all(tree, names, (count - 1) as nat);
        lemma_names_after_met_all(tree.child(count - 1), keyed);
        match key {
            Some(name) => {
                assert((seen + key_names(key)).drop_last() =~= seen);
                assert((seen + key_names(key)).last() == name);
            },
            None => {
                assert(seen + key_names(key) =~= seen);
            },
        }
        assert(keyed == met_all(names, seen + key_names(key)));
        lemma_met_all_concat(names, seen + key_names(key), field_names(tree.child(count - 1)));
    }
}

/// The dictionary of the names `keys`, met in their order, holds each of
/// them once; the id of a name is its place in the dictionary; and the
/// names stand in the dictionary in the order in which they were first met.
pub proof fn law_dictionary_order(keys: Seq<Seq<char>>)
    ensures
        ({
            let names = met_all(Seq::empty(), keys);
            &&& distinct(names)
            &&& forall|i: int| 0 <= i < keys.len() ==> has_field(names, #[trigger] keys[i])
            &&& forall|id: int|
                0 <= id < names.len() ==> field_id(names, #[trigger] names[id]) == id && has_field(
                    keys,
                    names[id],
                )
            &&& forall|a: int, b: int|
                0 <= a < b < names.len() ==> field_id(keys, #[trigger] names[a]) < field_id(
                    keys,
                    #[trigger] names[b],
                )
        }),
    decreases keys.len(),
{
    let names = met_all(Seq::empty(), keys);
    if keys.len() == 0 {
    } else {
        let fewer = keys.drop_last();
        let before = met_all(Seq::empty(), fewer);
        let last = keys.last();
        law_dictionary_order(fewer);
        lemma_dictionary_add(before, last);
        lemma_field_id(before, last);
        assert forall|i: int| 0 <= i < keys.len() implies has_field(names, #[trigger] keys[i]) by {
            if i < keys.len() - 1 {
                assert(fewer[i] == keys[i]);
                lemma_field_id_extends(names, before, keys[i]);
            }
        }
        assert forall|id: int| 0 <= id < names.len() implies field_id(names, #[trigger] names[id]) == id
            && has_field(keys, names[id]) by {
            lemma_field_id_at(names, id);
            lemma_field_id(keys, names[id]);
            lemma_field_id(fewer, names[id]);
            if id < before.len() {
                assert(names[id] == before[id]);
            }
        }
        assert forall|a: int, b: int| 0 <= a < b < names.len() implies field_id(keys, #[trigger] names[a])
            < field_id(keys, #[trigger] names[b]) by {
            lemma_field_id(keys, names[a]);
            lemma_field_id(keys, names[b]);
            lemma_field_id(fewer, names[a]);
            lemma_field_id(fewer, names[b]);
            assert(names[a] == before[a]);
            if b < before.len() {
                assert(names[b] == before[b]);
            } else {
                assert(names[b] == last);
                if has_field(fewer, last) {
                    let i = field_id(fewer, last);
                    assert(fewer[i] == last);
                }
            }
        }
    }
}

/// Within one encode, the field names of the document get the numbers 0, 1,
/// 2 and so on in the order in which the document first has them: the
/// dictionary holds each name once, the id of a name is its place among the
/// names first met, and two names that differ have ids that differ.
pub proof fn law_dictionary(tree: JsonModel)
    ensures
        dictionary_of(tree) == met_all(Seq::empty(), field_names(tree)),
        distinct(dictionary_of(tree)),
        covers(tree, dictionary_of(tree)),
        forall|id: int|
            0 <= id < dictionary_of(tree).len() ==> field_id(dictionary_of(tree), #[trigger] dictionary_of(tree)[id])
                == id,
        forall|a: int, b: int|
            0 <= a < b < dictionary_of(tree).len() ==> field_id(field_names(tree), #[trigger] dictionary_of(tree)[a])
                < field_id(field_names(tree), #[trigger] dictionary_of(tree)[b]),
        forall|a: Seq<char>, b: Seq<char>|
            has_field(dictionary_of(tree), a) && has_field(dictionary_of(tree), b) && a != b ==> field_id(
                dictionary_of(tree),
                a,
            ) != field_id(dictionary_of(tree), b),
{
    let names = dictionary_of(tree);
    lemma_names_after_met_all(tree, Seq::empty());
    lemma_names_after(tree, Seq::empty());
    law_dictionary_order(field_names(tree));
    assert forall|a: Seq<char>, b: Seq<char>| has_field(names, a) && has_field(names, b) && a != b implies field_id(
        names,
        a,
    ) != field_id(names, b) by {
        lemma_field_id(names, a);
        lemma_field_id(names, b);
    }
}

/// The header byte of a short string gives, above the basic type, the count
/// of the UTF-8 bytes that follow it, and nothing follows them.
pub proof fn law_short_string(text: Seq<char>, names: Seq<Seq<char>>)
    requires
        encode_utf8(text).len() <= MAX_SHORT_STR_SIZE,
    ensures
        ({
            let bytes = value_bytes(JsonModel::String(text), names);
            &&& bytes.len() == 1 + encode_utf8(text).len()
            &&& bytes[0] & 0b11 == SHORT_STR
            &&& bytes[0] >> 2 == encode_utf8(text).len()
            &&& bytes.subrange(1, bytes.len() as int) == encode_utf8(text)
        }),
{
    let utf8 = encode_utf8(text);
    let bytes = value_bytes(JsonModel::String(text), names);
    lemma_short_string_header_byte(utf8.len() as u8);
    assert(bytes.subrange(1, bytes.len() as int) =~= utf8);
}

/// A number takes no more bytes than the room that is asked for it.
pub proof fn lemma_number_room(number: Number)
    ensures
        2 <= number_bytes(number).len() <= number_room(number),
{
    match number {
        Number::Int(value) => {
            lemma_le_bytes_len(value as int, 1);
            lemma_le_bytes_len(value as int, 2);
            lemma_le_bytes_len(value as int, 4);
            lemma_le_bytes_len(value as int, 8);
        },
        Number::Decimal(unscaled, scale) => {
            lemma_le_bytes_len(unscaled as int, 4);
            lemma_le_bytes_len(unscaled as int, 8);
            lemma_le_bytes_len(unscaled as int, 16);
        },
        Number::Double(bits) => {
            lemma_le_bytes_len(bits as int, 8);
        },
    }
}

/// What is written is within the size limit: where nothing stops the encode
/// of a document, neither its value nor its metadata has more bytes than
/// the limit allows.
pub proof fn law_size_limit(tree: JsonModel, limit: int)
    requires
        encode_error(tree, limit) is None,
    ensures
        value_bytes(tree, dictionary_of(tree)).len() <= limit,
        metadata_bytes(dictionary_of(tree)).len() <= limit,
{
    match tree {
        JsonModel::Number(text) => {
            lemma_number_room(classified(text)->Some_0);
        },
        _ => {},
    }
}

/// What closing an array writes, whatever its elements are: the header
/// byte gives the least width that holds the size of the elements and the
/// large-size flag if and only if there are more than 255 of them; the
/// count follows in one byte or four; and behind the offsets stands the
/// terminal offset, the size of the elements, in the width of the offsets.
pub proof fn law_array_header(offsets: Seq<int>, data_size: int)
    ensures
        ({
            let header = array_header(offsets, data_size);
            let count = offsets.len() as int;
            let width = min_width(data_size);
            let table = 1 + count_width(count);
            &&& header.len() == table + (count + 1) * width
            &&& header[0] & 0b11 == ARRAY
            &&& (header[0] >> 2) & 0b11 == width - 1
            &&& (header[0] >> 4 == 1) <==> count > 0xFF
            &&& header.subrange(1, table) == le_bytes(count, count_width(count) as nat)
            &&& 0 <= table + count * width
            &&& header.subrange(table + count * width, table + count * width + width) == le_bytes(
                data_size,
                width as nat,
            )
        }),
{
    let count = offsets.len() as int;
    let width = min_width(data_size);
    let first = seq![array_header_byte(count > 0xFF, width)];
    let counted = le_bytes(count, count_width(count) as nat);
    let table = le_table(offsets, width as nat);
    let terminal = le_bytes(data_size, width as nat);
    lemma_array_header_byte(count > 0xFF, width);
    lemma_le_bytes_len(count, count_width(count) as nat);
    lemma_le_table_len(offsets, width as nat);
    lemma_le_bytes_len(data_size, width as nat);
    assert(count * width + width == (count + 1) * width) by (nonlinear_arith);
    assert(0 <= count * width) by (nonlinear_arith)
        requires
            0 <= count,
            0 <= width,
    ;
    assert(array_header(offsets, data_size) =~= first + counted + table + terminal + Seq::<u8>::empty());
    lemma_five_parts(first, counted, table, terminal, Seq::empty());
}

/// What closing an array writes for element `i`: its offset, in the width
/// of the offsets, at its place behind the count.
pub proof fn law_array_header_offset(offsets: Seq<int>, data_size: int, i: int)
    requires
        0 <= i < offsets.len(),
    ensures
        ({
            let header = array_header(offsets, data_size);
            let count = offsets.len() as int;
            let width = min_width(data_size);
            let table = 1 + count_width(count);
            &&& 0 <= table + i * width
            &&& table + i * width + width <= header.len()
            &&& header.subrange(table + i * width, table + i * width + width) == le_bytes(offsets[i], width as nat)
        }),
{
    let header = array_header(offsets, data_size);
    let count = offsets.len() as int;
    let width = min_width(data_size);
    let first = seq![array_header_byte(count > 0xFF, width)];
    let counted = le_bytes(count, count_width(count) as nat);
    let table = le_table(offsets, width as nat);
    let terminal = le_bytes(data_size, width as nat);
    lemma_le_bytes_len(count, count_width(count) as nat);
    lemma_le_bytes_len(data_size, width as nat);
    lemma_le_table_entry(offsets, width as nat, i);
    assert(header =~= first + counted + table + terminal + Seq::<u8>::empty());
    lemma_five_parts(first, counted, table, terminal, Seq::empty());
    lemma_subrange_within(header, 1 + count_width(count), table, i * width, i * width + width);
}

/// What closing an object writes, whatever its values are: the header byte
/// gives the least width that holds the largest id, the least width that
/// holds the size of the values, and the large-size flag if and only if
/// there are more than 255 fields; the count follows in one byte or four;
/// and behind the ids and the offsets stands the terminal offset, the size
/// of the values, in the width of the offsets, whatever the width of the
/// ids.
pub proof fn law_object_header(sorted: Seq<FieldModel>, data_size: int)
    ensures
        ({
            let header = object_header(sorted, data_size);
            let count = sorted.len() as int;
            let id_size = min_width(max_id(sorted));
            let offset_size = min_width(data_size);
            let ids = 1 + count_width(count);
            let offsets = ids + count * id_size;
            &&& header.len() == offsets + (count + 1) * offset_size
            &&& header[0] & 0b11 == OBJECT
            &&& (header[0] >> 2) & 0b11 == offset_size - 1
            &&& (header[0] >> 4) & 0b11 == id_size - 1
            &&& (header[0] >> 6 == 1) <==> count > 0xFF
            &&& header.subrange(1, ids) == le_bytes(count, count_width(count) as nat)
            &&& 0 <= offsets + count * offset_size
            &&& header.subrange(offsets + count * offset_size, offsets + count * offset_size + offset_size)
                == le_bytes(data_size, offset_size as nat)
        }),
{
    let count = sorted.len() as int;
    let id_size = min_width(max_id(sorted));
    let offset_size = min_width(data_size);
    let first = seq![object_header_byte(count > 0xFF, id_size, offset_size)] + le_bytes(
        count,
        count_width(count) as nat,
    );
    let id_table = le_table(entry_ids(sorted), id_size as nat);
    let offset_table = le_table(entry_offsets(sorted), offset_size as nat);
    let terminal = le_bytes(data_size, offset_size as nat);
    lemma_object_header_byte(count > 0xFF, id_size, offset_size);
    lemma_le_bytes_len(count, count_width(count) as nat);
    lemma_le_table_len(entry_ids(sorted), id_size as nat);
    lemma_le_table_len(entry_offsets(sorted), offset_size as nat);
    lemma_le_bytes_len(data_size, offset_size as nat);
    assert(count * offset_size + offset_size == (count + 1) * offset_size) by (nonlinear_arith);
    assert(0 <= count * offset_size && 0 <= count * id_size) by (nonlinear_arith)
        requires
            0 <= count,
            0 <= offset_size,
            0 <= id_size,
    ;
    let header = object_header(sorted, data_size);
    assert(header =~= first + id_table + offset_table + terminal + Seq::<u8>::empty());
    lemma_five_parts(first, id_table, offset_table, terminal, Seq::empty());
    assert(header.subrange(1, 1 + count_width(count)) =~= le_bytes(count, count_width(count) as nat));
}

/// What closing an object writes for the field that is `i`-th in the order
/// of the names: its id in the width of the ids, and its offset in the
/// width of the offsets, each at its place.
pub proof fn law_object_header_field(sorted: Seq<FieldModel>, data_size: int, i: int)
    requires
        0 <= i < sorted.len(),
    ensures
        ({
            let header = object_header(sorted, data_size);
            let count = sorted.len() as int;
            let id_size = min_width(max_id(sorted));
            let offset_size = min_width(data_size);
            let ids = 1 + count_width(count);
            let offsets = ids + count * id_size;
            &&& 0 <= ids + i * id_size
            &&& ids + i * id_size + id_size <= offsets
            &&& header.subrange(ids + i * id_size, ids + i * id_size + id_size) == le_bytes(
                sorted[i].id,
                id_size as nat,
            )
            &&& 0 <= offsets + i * offset_size
            &&& offsets + i * offset_size + offset_size <= header.len()
            &&& header.subrange(offsets + i * offset_size, offsets + i * offset_size + offset_size) == le_bytes(
                sorted[i].offset,
                offset_size as nat,
            )
        }),
{
    let header = object_header(sorted, data_size);
    let count = sorted.len() as int;
    let id_size = min_width(max_id(sorted));
    let offset_size = min_width(data_size);
    let first = seq![object_header_byte(count > 0xFF, id_size, offset_size)] + le_bytes(
        count,
        count_width(count) as nat,
    );
    let id_table = le_table(entry_ids(sorted), id_size as nat);
    let offset_table = le_table(entry_offsets(sorted), offset_size as nat);
    let terminal = le_bytes(data_size, offset_size as nat);
    lemma_le_bytes_len(count, count_width(count) as nat);
    lemma_le_bytes_len(data_size, offset_size as nat);
    lemma_le_table_entry(entry_ids(sorted), id_size as nat, i);
    lemma_le_table_entry(entry_offsets(sorted), offset_size as nat, i);
    assert(header =~= first + id_table + offset_table + terminal + Seq::<u8>::empty());
    lemma_five_parts(first, id_table, offset_table, terminal, Seq::empty());
    lemma_subrange_within(header, 1 + count_width(count), id_table, i * id_size, i * id_size + id_size);
    lemma_subrange_within(
        header,
        1 + count_width(count) + count * id_size,
        offset_table,
        i * offset_size,
        i * offset_size + offset_size,
    );
}

} // verus!
