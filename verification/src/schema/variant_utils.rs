//! The Variant type in a schema.

use vstd::prelude::*;
use crate::schema::{ArrayType, DataType, MapType, PrimitiveType, StructField, StructType};
use crate::wire::same_text;

verus! {

/// `field` is a nullable binary column named `name`, without annotations.
pub open spec fn is_nullable_binary(field: StructField, name: Seq<char>) -> bool {
    &&& field.name@ == name
    &&& field.data_type == DataType::Primitive(PrimitiveType::Binary)
    &&& field.nullable
    &&& field.metadata@.len() == 0
}

/// `schema` is the struct that an unshredded Variant is stored as: the
/// nullable binary columns `value` and `metadata`, in this order.
pub open spec fn is_unshredded_struct(schema: StructType) -> bool {
    &&& schema.fields@.len() == 2
    &&& is_nullable_binary(schema.fields@[0], "value"@)
    &&& is_nullable_binary(schema.fields@[1], "metadata"@)
}

/// `data_type` is the unshredded Variant type.
pub open spec fn is_unshredded(data_type: DataType) -> bool {
    data_type matches DataType::Primitive(PrimitiveType::Variant(schema)) && is_unshredded_struct(*schema)
}

/// The unshredded Variant type.
pub fn unshredded_variant_schema() -> (ptype: PrimitiveType)
    ensures
        is_unshredded(DataType::Primitive(ptype)),
{
    let mut fields: Vec<StructField> = Vec::new();
    fields.push(StructField::nullable("value", DataType::Primitive(PrimitiveType::Binary)));
    fields.push(StructField::nullable("metadata", DataType::Primitive(PrimitiveType::Binary)));
    DataType::variant_type(fields)
}

/// Whether the column `field` is a nullable binary column named `name`,
/// without annotations.
fn check_nullable_binary(field: &StructField, name: &str) -> (matches: bool)
    ensures
        matches == is_nullable_binary(*field, name@),
{
    let binary = match &field.data_type {
        DataType::Primitive(PrimitiveType::Binary) => true,
        _ => false,
    };
    same_text(field.name.as_str(), name) && binary && field.nullable && field.metadata.len() == 0
}

/// Tests whether `s` is the unshredded Variant type.
pub fn is_unshredded_variant(s: &DataType) -> (unshredded: bool)
    ensures
        unshredded == is_unshredded(*s),
{
    match s {
        DataType::Primitive(PrimitiveType::Variant(schema)) => {
            schema.fields.len() == 2 && check_nullable_binary(&schema.fields[0], "value")
                && check_nullable_binary(&schema.fields[1], "metadata")
        },
        _ => false,
    }
}

/// `field` is the `metadata` column of the struct that a Variant is read
/// and written as: a nullable binary column with the one annotation that
/// tells the struct from any other, `__VARIANT__` with the value `true`.
pub open spec fn is_tagged_metadata(field: StructField) -> bool {
    &&& field.name@ == "metadata"@
    &&& field.data_type == DataType::Primitive(PrimitiveType::Binary)
    &&& field.nullable
    &&& field.metadata@.len() == 1
    &&& field.metadata@[0].0@ == "__VARIANT__"@
    &&& field.metadata@[0].1@ == "true"@
}

/// `schema` is the struct that a Variant is read and written as by an
/// engine that knows no Variant: the nullable binary columns `value` and
/// `metadata`, in this order, the second one tagged.
pub open spec fn is_physical_variant(schema: StructType) -> bool {
    &&& schema.fields@.len() == 2
    &&& is_nullable_binary(schema.fields@[0], "value"@)
    &&& is_tagged_metadata(schema.fields@[1])
}

/// `copy` has the annotations of `annotations`, in their order.
pub open spec fn same_annotations(copy: Seq<(String, String)>, annotations: Seq<(String, String)>) -> bool {
    &&& copy.len() == annotations.len()
    &&& forall|i: int|
        0 <= i < copy.len() ==> (#[trigger] copy[i]).0@ == annotations[i].0@ && copy[i].1@ == annotations[i].1@
}

/// `physical` is `logical` with every Variant, at any depth, replaced by
/// the struct that a Variant is read and written as; everything else is as
/// it was.
pub open spec fn is_physical_of(physical: DataType, logical: DataType) -> bool
    decreases logical,
{
    match logical {
        DataType::Primitive(PrimitiveType::Variant(_)) => physical matches DataType::Struct(schema)
            && is_physical_variant(*schema),
        DataType::Primitive(PrimitiveType::Decimal(precision, scale)) => physical
            == DataType::Primitive(PrimitiveType::Decimal(precision, scale)),
        DataType::Primitive(ptype) => physical == logical,
        DataType::Array(array) => physical matches DataType::Array(copy) && copy.contains_null
            == array.contains_null && is_physical_of(copy.element_type, array.element_type),
        DataType::Struct(schema) => physical matches DataType::Struct(copy) && are_physical_of(
            copy.fields@,
            schema.fields@,
            schema.fields@.len(),
        ),
        DataType::Mapping(map) => physical matches DataType::Mapping(copy) && copy.value_contains_null
            == map.value_contains_null && is_physical_of(copy.key_type, map.key_type) && is_physical_of(
            copy.value_type,
            map.value_type,
        ),
    }
}

/// The first `count` columns of `physical` are those of `logical`, each
/// with its name, its nullability and its annotations, and with the
/// physical type of its type.
pub open spec fn are_physical_of(physical: Seq<StructField>, logical: Seq<StructField>, count: nat) -> bool
    decreases logical, count,
{
    if count == 0 {
        true
    } else if count > logical.len() || count > physical.len() {
        false
    } else {
        &&& are_physical_of(physical, logical, (count - 1) as nat)
        &&& physical[count - 1].name@ == logical[count - 1].name@
        &&& physical[count - 1].nullable == logical[count - 1].nullable
        &&& same_annotations(physical[count - 1].metadata@, logical[count - 1].metadata@)
        &&& is_physical_of(physical[count - 1].data_type, logical[count - 1].data_type)
    }
}

/// `physical` is the schema `logical` with every Variant column, at any
/// depth, replaced by the struct that a Variant is read and written as.
pub open spec fn is_physical_schema_of(physical: StructType, logical: StructType) -> bool {
    &&& physical.fields@.len() == logical.fields@.len()
    &&& are_physical_of(physical.fields@, logical.fields@, logical.fields@.len())
}

/// The struct that a Variant is read and written as by an engine that
/// knows no Variant.
pub fn variant_physical_struct() -> (schema: StructType)
    ensures
        is_physical_variant(schema),
{
    let mut tag: Vec<(String, String)> = Vec::new();
    tag.push(("__VARIANT__".to_owned(), "true".to_owned()));
    let mut fields: Vec<StructField> = Vec::new();
    fields.push(StructField::nullable("value", DataType::Primitive(PrimitiveType::Binary)));
    fields.push(
        StructField {
            name: "metadata".to_owned(),
            data_type: DataType::Primitive(PrimitiveType::Binary),
            nullable: true,
            metadata: tag,
        },
    );
    StructType::new(fields)
}

/// Tests whether `schema` is the struct that a Variant is read and written
/// as by an engine that knows no Variant.
pub fn is_variant_physical_struct(schema: &StructType) -> (physical: bool)
    ensures
        physical == is_physical_variant(*schema),
{
    if schema.fields.len() != 2 {
        return false;
    }
    let metadata = &schema.fields[1];
    let binary = match &metadata.data_type {
        DataType::Primitive(PrimitiveType::Binary) => true,
        _ => false,
    };
    check_nullable_binary(&schema.fields[0], "value") && same_text(metadata.name.as_str(), "metadata")
        && binary && metadata.nullable && metadata.metadata.len() == 1 && same_text(
        metadata.metadata[0].0.as_str(),
        "__VARIANT__",
    ) && same_text(metadata.metadata[0].1.as_str(), "true")
}

/// A copy of the annotations `annotations`.
fn copy_annotations(annotations: &Vec<(String, String)>) -> (copy: Vec<(String, String)>)
    ensures
        same_annotations(copy@, annotations@),
{
    let mut copy: Vec<(String, String)> = Vec::new();
    let mut i: usize = 0;
    while i < annotations.len()
        invariant
            i <= annotations@.len(),
            copy@.len() == i,
            forall|j: int|
                0 <= j < i ==> (#[trigger] copy@[j]).0@ == annotations@[j].0@ && copy@[j].1@
                    == annotations@[j].1@,
        decreases annotations@.len() - i,
    {
        copy.push((annotations[i].0.clone(), annotations[i].1.clone()));
        i += 1;
    }
    copy
}

/// The type `data_type` as an engine that knows no Variant reads and
/// writes it: every Variant, at any depth, is replaced by the struct that
/// it is stored as.
pub fn physical_type(data_type: &DataType) -> (physical: DataType)
    ensures
        is_physical_of(physical, *data_type),
    decreases data_type,
{
    match data_type {
        DataType::Primitive(ptype) => match ptype {
            PrimitiveType::String => DataType::Primitive(PrimitiveType::String),
            PrimitiveType::Long => DataType::Primitive(PrimitiveType::Long),
            PrimitiveType::Integer => DataType::Primitive(PrimitiveType::Integer),
            PrimitiveType::Short => DataType::Primitive(PrimitiveType::Short),
            PrimitiveType::Byte => DataType::Primitive(PrimitiveType::Byte),
            PrimitiveType::Float => DataType::Primitive(PrimitiveType::Float),
            PrimitiveType::Double => DataType::Primitive(PrimitiveType::Double),
            PrimitiveType::Boolean => DataType::Primitive(PrimitiveType::Boolean),
            PrimitiveType::Binary => DataType::Primitive(PrimitiveType::Binary),
            PrimitiveType::Date => DataType::Primitive(PrimitiveType::Date),
            PrimitiveType::Timestamp => DataType::Primitive(PrimitiveType::Timestamp),
            PrimitiveType::TimestampNtz => DataType::Primitive(PrimitiveType::TimestampNtz),
            PrimitiveType::Decimal(precision, scale) => DataType::Primitive(
                PrimitiveType::Decimal(*precision, *scale),
            ),
            PrimitiveType::Variant(_) => DataType::Struct(Box::new(variant_physical_struct())),
        },
        DataType::Array(array) => DataType::Array(
            Box::new(
                ArrayType {
                    element_type: physical_type(&array.element_type),
                    contains_null: array.contains_null,
                },
            ),
        ),
        DataType::Struct(schema) => DataType::Struct(Box::new(physical_schema(schema))),
        DataType::Mapping(map) => DataType::Mapping(
            Box::new(
                MapType {
                    key_type: physical_type(&map.key_type),
                    value_type: physical_type(&map.value_type),
                    value_contains_null: map.value_contains_null,
                },
            ),
        ),
    }
}

/// The schema `schema` as an engine that knows no Variant reads and writes
/// it: every Variant column, at any depth, is replaced by the struct that
/// it is stored as.
pub fn physical_schema(schema: &StructType) -> (physical: StructType)
    ensures
        is_physical_schema_of(physical, *schema),
    decreases schema,
{
    let mut fields: Vec<StructField> = Vec::new();
    let mut i: usize = 0;
    while i < schema.fields.len()
        invariant
            i <= schema.fields@.len(),
            fields@.len() == i,
            are_physical_of(fields@, schema.fields@, i as nat),
        decreases schema.fields@.len() - i,
    {
        let field = &schema.fields[i];
        let ghost before = fields@;
        fields.push(
            StructField {
                name: field.name.clone(),
                data_type: physical_type(&field.data_type),
                nullable: field.nullable,
                metadata: copy_annotations(&field.metadata),
            },
        );
        proof {
            lemma_are_physical_of_push(before, fields@[i as int], schema.fields@, i as nat);
        }
        i += 1;
    }
    StructType::new(fields)
}

/// What holds of the first `count` columns still holds when a column is
/// added behind them.
proof fn lemma_are_physical_of_push(
    physical: Seq<StructField>,
    field: StructField,
    logical: Seq<StructField>,
    count: nat,
)
    requires
        count <= physical.len(),
        are_physical_of(physical, logical, count),
    ensures
        are_physical_of(physical.push(field), logical, count),
    decreases count,
{
    if count > 0 {
        lemma_are_physical_of_push(physical, field, logical, (count - 1) as nat);
        assert(physical.push(field)[count - 1] == physical[count - 1]);
    }
}

} // verus!
