use variant::actions::Protocol;
use variant::schema::variant_utils::unshredded_variant_schema;
use variant::schema::{DataType, PrimitiveType, StructField, StructType};
use variant::table_features::variant_type::{validate_variant_type_feature_support, UsesVariant};
use variant::table_features::{ReaderFeature, WriterFeature};

fn integer() -> DataType {
    DataType::Primitive(PrimitiveType::Integer)
}

fn string() -> DataType {
    DataType::Primitive(PrimitiveType::String)
}

fn variant() -> DataType {
    DataType::Primitive(unshredded_variant_schema())
}

#[test]
fn variant_type_test_variant_feature_validation() {
    let features = vec![
        (ReaderFeature::VariantType, WriterFeature::VariantType),
        (
            ReaderFeature::VariantTypePreview,
            WriterFeature::VariantTypePreview,
        ),
    ];
    let schema_with_variant = StructType::new(vec![
        StructField::new("id", integer(), false),
        StructField::new("v", variant(), true),
    ]);

    let schema_without_variant = StructType::new(vec![
        StructField::new("id", integer(), false),
        StructField::new("name", string(), true),
    ]);

    // Nested schema with VARIANT
    let nested_schema_with_variant = StructType::new(vec![
        StructField::new("id", integer(), false),
        StructField::new(
            "nested",
            DataType::Struct(Box::new(StructType::new(vec![StructField::new(
                "inner_v",
                variant(),
                true,
            )]))),
            true,
        ),
    ]);
    for (variant_reader, variant_writer) in features.iter() {
        // Protocol with variantType features
        let protocol_with_features =
            Protocol::try_new(3, 7, Some(vec![*variant_reader]), Some(vec![*variant_writer]))
                .unwrap();

        // Protocol without variantType features
        let protocol_without_features =
            Protocol::try_new(3, 7, Some(vec![]), Some(vec![])).unwrap();

        // Schema with VARIANT + Protocol with features = OK
        validate_variant_type_feature_support(&schema_with_variant, &protocol_with_features)
            .expect("Should succeed when features are present");

        // Schema without VARIANT + Protocol without features = OK
        validate_variant_type_feature_support(&schema_without_variant, &protocol_without_features)
            .expect("Should succeed when no VARIANT columns are present");

        // Schema without VARIANT + Protocol with features = OK
        validate_variant_type_feature_support(&schema_without_variant, &protocol_with_features)
            .expect("Should succeed when no VARIANT columns are present, even with features");

        // Schema with VARIANT + Protocol without features = ERROR
        let result =
            validate_variant_type_feature_support(&schema_with_variant, &protocol_without_features);
        assert!(
            result.is_err(),
            "Should fail when VARIANT columns are present but features are missing"
        );
        assert!(result.unwrap_err().to_string().contains("variantType"));

        let result = validate_variant_type_feature_support(
            &nested_schema_with_variant,
            &protocol_without_features,
        );
        assert!(
            result.is_err(),
            "Should fail for nested VARIANT columns when features are missing"
        );
    }
}

#[test]
fn uses_variant_visits_arrays_and_maps() {
    let mut visitor = UsesVariant(false);
    visitor.transform(&integer());
    assert!(!visitor.0);
    visitor.transform(&DataType::Array(Box::new(variant::schema::ArrayType {
        element_type: variant(),
        contains_null: true,
    })));
    assert!(visitor.0);

    let mut visitor = UsesVariant(false);
    visitor.transform(&DataType::Mapping(Box::new(variant::schema::MapType {
        key_type: string(),
        value_type: variant(),
        value_contains_null: false,
    })));
    assert!(visitor.0);

    let mut visitor = UsesVariant(false);
    visitor.transform_primitive(&PrimitiveType::Binary);
    assert!(!visitor.0);
    visitor.transform_primitive(&unshredded_variant_schema());
    assert!(visitor.0);
}

#[test]
fn protocol_features_go_with_versions() {
    assert!(Protocol::try_new(3, 7, None, Some(vec![])).is_err());
    assert!(Protocol::try_new(3, 7, Some(vec![]), None).is_err());
    assert!(Protocol::try_new(1, 2, Some(vec![ReaderFeature::VariantType]), None).is_err());
    assert!(Protocol::try_new(1, 2, None, Some(vec![WriterFeature::VariantType])).is_err());
    let protocol = Protocol::try_new(1, 2, None, None).unwrap();
    assert_eq!(protocol.min_reader_version(), 1);
    assert_eq!(protocol.min_writer_version(), 2);
    assert!(!protocol.has_reader_feature(&ReaderFeature::VariantType));
    assert!(!protocol.has_writer_feature(&WriterFeature::VariantType));
    let error = Protocol::try_new(3, 7, None, None).unwrap_err();
    assert!(error.to_string().contains("Reader features"));
}

#[test]
fn mixed_variant_features_are_accepted() {
    let schema = StructType::new(vec![StructField::new("v", variant(), true)]);
    let protocol = Protocol::try_new(
        3,
        7,
        Some(vec![ReaderFeature::VariantType]),
        Some(vec![WriterFeature::VariantTypePreview]),
    )
    .unwrap();
    assert!(validate_variant_type_feature_support(&schema, &protocol).is_ok());
}
