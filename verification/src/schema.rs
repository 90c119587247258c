//! The schema of a table: the types of its columns.

use vstd::prelude::*;
use vstd::std_specs::convert::FromSpecImpl;

pub mod variant_utils;

verus! {

/// The type of a column that holds no other column.
#[derive(Debug)]
pub enum PrimitiveType {
    String,
    Long,
    Integer,
    Short,
    Byte,
    Float,
    Double,
    Boolean,
    Binary,
    Date,
    Timestamp,
    TimestampNtz,
    /// A decimal with a precision and a scale.
    Decimal(u8, u8),
    /// A Variant, with the struct that it is stored as.
    Variant(Box<StructType>),
}

/// The type of a column.
#[derive(Debug)]
pub enum DataType {
    Primitive(PrimitiveType),
    Array(Box<ArrayType>),
    Struct(Box<StructType>),
    Mapping(Box<MapType>),
}

/// An array of elements of one type.
#[derive(Debug)]
pub struct ArrayType {
    pub element_type: DataType,
    pub contains_null: bool,
}

/// A map from keys of one type to values of one type.
#[derive(Debug)]
pub struct MapType {
    pub key_type: DataType,
    pub value_type: DataType,
    pub value_contains_null: bool,
}

/// A named column of a struct.
#[derive(Debug)]
pub struct StructField {
    pub name: String,
    pub data_type: DataType,
    pub nullable: bool,
    /// The annotations of the field: keys with their values.
    pub metadata: Vec<(String, String)>,
}

/// A struct: columns in their order.
#[derive(Debug)]
pub struct StructType {
    pub fields: Vec<StructField>,
}

impl From<PrimitiveType> for DataType {
    fn from(ptype: PrimitiveType) -> (data_type: DataType) {
        DataType::Primitive(ptype)
    }
}

impl FromSpecImpl<PrimitiveType> for DataType {
    open spec fn obeys_from_spec() -> bool {
        true
    }

    open spec fn from_spec(ptype: PrimitiveType) -> DataType {
        DataType::Primitive(ptype)
    }
}

impl DataType {
    /// The Variant type that is stored as a struct of `fields`.
    pub fn variant_type(fields: Vec<StructField>) -> (ptype: PrimitiveType)
        ensures
            ptype == PrimitiveType::Variant(Box::new(StructType { fields })),
    {
        PrimitiveType::Variant(Box::new(StructType::new(fields)))
    }
}

impl StructField {
    /// A column without annotations.
    pub fn new(name: &str, data_type: DataType, nullable: bool) -> (field: StructField)
        ensures
            field.name@ == name@,
            field.data_type == data_type,
            field.nullable == nullable,
            field.metadata@.len() == 0,
    {
        StructField { name: name.to_owned(), data_type, nullable, metadata: Vec::new() }
    }

    /// A column that may hold nulls.
    pub fn nullable(name: &str, data_type: DataType) -> (field: StructField)
        ensures
            field.name@ == name@,
            field.data_type == data_type,
            field.nullable,
            field.metadata@.len() == 0,
    {
        StructField::new(name, data_type, true)
    }
}

impl StructType {
    /// The struct of the columns `fields`.
    pub fn new(fields: Vec<StructField>) -> (schema: StructType)
        ensures
            schema.fields == fields,
    {
        StructType { fields }
    }
}

} // verus!
