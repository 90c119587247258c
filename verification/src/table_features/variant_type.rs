//! Whether a table with Variant columns can be read and written.

use vstd::prelude::*;
use crate::actions::Protocol;
use crate::error::TableError;
use crate::schema::{DataType, PrimitiveType, StructField, StructType};
use crate::table_features::{ReaderFeature, WriterFeature};

verus! {

/// `data_type` is a Variant, or holds one in an element, a key, a value or
/// a column.
pub open spec fn data_type_uses_variant(data_type: DataType) -> bool
    decreases data_type,
{
    match data_type {
        DataType::Primitive(ptype) => ptype is Variant,
        DataType::Array(array) => data_type_uses_variant(array.element_type),
        DataType::Struct(schema) => fields_use_variant(schema.fields@, schema.fields@.len()),
        DataType::Mapping(map) => data_type_uses_variant(map.key_type) || data_type_uses_variant(map.value_type),
    }
}

/// One of the first `count` of `fields` uses a Variant.
pub open spec fn fields_use_variant(fields: Seq<StructField>, count: nat) -> bool
    decreases fields, count,
{
    if count == 0 || count > fields.len() {
        false
    } else {
        fields_use_variant(fields, (count - 1) as nat) || data_type_uses_variant(fields[count - 1].data_type)
    }
}

/// A column of `schema`, at any depth, is a Variant.
pub open spec fn schema_uses_variant(schema: StructType) -> bool {
    fields_use_variant(schema.fields@, schema.fields@.len())
}

/// `protocol` lists a Variant feature, stable or preview, among the reader
/// features and one among the writer features.
pub open spec fn supports_variant(protocol: Protocol) -> bool {
    &&& protocol.reader_features().contains(ReaderFeature::VariantType)
        || protocol.reader_features().contains(ReaderFeature::VariantTypePreview)
    &&& protocol.writer_features().contains(WriterFeature::VariantType)
        || protocol.writer_features().contains(WriterFeature::VariantTypePreview)
}

/// A visitor of a schema that finds out whether any column is a Variant:
/// the flag is set as soon as one has been met.
pub struct UsesVariant(pub bool);

impl UsesVariant {
    /// Visits a primitive type.
    pub fn transform_primitive(&mut self, ptype: &PrimitiveType)
        ensures
            final(self).0 == (old(self).0 || *ptype is Variant),
    {
        if let PrimitiveType::Variant(_) = ptype {
            self.0 = true;
        }
    }

    /// Visits a type, and what it holds.
    pub fn transform(&mut self, data_type: &DataType)
        ensures
            final(self).0 == (old(self).0 || data_type_uses_variant(*data_type)),
        decreases data_type,
    {
        match data_type {
            DataType::Primitive(ptype) => self.transform_primitive(ptype),
            DataType::Array(array) => self.transform(&array.element_type),
            DataType::Struct(schema) => self.transform_struct(schema),
            DataType::Mapping(map) => {
                self.transform(&map.key_type);
                self.transform(&map.value_type);
            },
        }
    }

    /// Visits the columns of a struct.
    pub fn transform_struct(&mut self, schema: &StructType)
        ensures
            final(self).0 == (old(self).0 || schema_uses_variant(*schema)),
        decreases schema,
    {
        let mut i: usize = 0;
        while i < schema.fields.len()
            invariant
                i <= schema.fields@.len(),
                self.0 == (old(self).0 || fields_use_variant(schema.fields@, i as nat)),
            decreases schema.fields@.len() - i,
        {
            self.transform(&schema.fields[i].data_type);
            i += 1;
        }
    }
}

/// Checks that a table with the schema `schema` can be read and written
/// under `protocol`: a table with a Variant column needs a Variant feature,
/// stable or preview, among the reader features and among the writer
/// features.
pub fn validate_variant_type_feature_support(schema: &StructType, protocol: &Protocol) -> (result: Result<
    (),
    TableError,
>)
    ensures
        result is Ok == (supports_variant(*protocol) || !schema_uses_variant(*schema)),
        result matches Err(error) ==> error matches TableError::Unsupported(text) && text@
            == "Table contains VARIANT columns but does not have the required 'variantType' feature in reader and writer features"@,
{
    if (!protocol.has_reader_feature(&ReaderFeature::VariantType) && !protocol.has_reader_feature(
        &ReaderFeature::VariantTypePreview,
    )) || (!protocol.has_writer_feature(&WriterFeature::VariantType) && !protocol.has_writer_feature(
        &WriterFeature::VariantTypePreview,
    )) {
        let mut uses_variant = UsesVariant(false);
        uses_variant.transform_struct(schema);
        if uses_variant.0 {
            return Err(
                TableError::Unsupported(
                    "Table contains VARIANT columns but does not have the required 'variantType' feature in reader and writer features".to_owned(),
                ),
            );
        }
    }
    Ok(())
}

} // verus!
