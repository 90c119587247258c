use variant::actions::Protocol;
use variant::schema::variant_utils::{
    is_unshredded_variant, is_variant_physical_struct, physical_schema, unshredded_variant_schema,
    variant_physical_struct,
};
use variant::schema::{ArrayType, DataType, MapType, PrimitiveType, StructField, StructType};
use variant::table_features::variant_type::validate_variant_type_feature_support;
use variant::table_features::{ReaderFeature, WriterFeature};

fn binary() -> DataType {
    DataType::Primitive(PrimitiveType::Binary)
}

fn integer() -> DataType {
    DataType::Primitive(PrimitiveType::Integer)
}

fn string() -> DataType {
    DataType::Primitive(PrimitiveType::String)
}

#[test]
fn test_is_unshredded_variant() {
    assert!(!is_unshredded_variant(
        &DataType::variant_type(vec![
            StructField::nullable("value", binary()),
            StructField::nullable("metadata", binary()),
            StructField::nullable("another_field", binary()),
        ])
        .into()
    ));
    assert!(is_unshredded_variant(
        &DataType::variant_type(vec![
            StructField::nullable("value", binary()),
            StructField::nullable("metadata", binary()),
        ])
        .into()
    ));
}

#[test]
fn variant_utils_test_variant_feature_validation() {
    let features = vec![
        (ReaderFeature::VariantType, WriterFeature::VariantType),
        (
            ReaderFeature::VariantTypePreview,
            WriterFeature::VariantTypePreview,
        ),
    ];
    let schema_with_variant = StructType::new(vec![
        StructField::new("id", integer(), false),
        StructField::new("v", unshredded_variant_schema().into(), true),
    ]);

    let schema_without_variant = StructType::new(vec![
        StructField::new("id", integer(), false),
        StructField::new("name", string(), true),
    ]);

    // Nested schema with VARIANT
    let nested_schema_with_variant = StructType::new(vec![
        StructField::new("id", integer(), false),
        StructField::new(
            "nested",
            DataType::Struct(Box::new(StructType::new(vec![StructField::new(
                "inner_v",
                unshredded_variant_schema().into(),
                true,
            )]))),
            true,
        ),
    ]);
    for (variant_reader, variant_writer) in features.iter() {
        // Protocol with variantType features
        let protocol_with_features =
            Protocol::try_new(3, 7, Some(vec![*variant_reader]), Some(vec![*variant_writer]))
                .unwrap();

        // Protocol without variantType features
        let protocol_without_features =
            Protocol::try_new(3, 7, Some(vec![]), Some(vec![])).unwrap();

        // Protocol without variantType writer feature
        let protocol_without_writer_feature =
            Protocol::try_new(3, 7, Some(vec![*variant_reader]), Some(vec![])).unwrap();

        // Protocol without variantType reader feature
        let protocol_without_reader_feature =
            Protocol::try_new(3, 7, Some(vec![]), Some(vec![*variant_writer])).unwrap();

        // Schema with VARIANT + Protocol with features = OK
        validate_variant_type_feature_support(&schema_with_variant, &protocol_with_features)
            .expect("Should succeed when features are present");

        // Schema without VARIANT + Protocol without features = OK
        validate_variant_type_feature_support(&schema_without_variant, &protocol_without_features)
            .expect("Should succeed when no VARIANT columns are present");

        // Schema without VARIANT + Protocol with features = OK
        validate_variant_type_feature_support(&schema_without_variant, &protocol_with_features)
            .expect("Should succeed when no VARIANT columns are present, even with features");

        // Schema with VARIANT + Protocol without features = ERROR
        let result =
            validate_variant_type_feature_support(&schema_with_variant, &protocol_without_features);
        assert!(
            result.is_err(),
            "Should fail when VARIANT columns are present but features are missing"
        );
        assert!(result.unwrap_err().to_string().contains("variantType"));

        let result = validate_variant_type_feature_support(
            &nested_schema_with_variant,
            &protocol_without_features,
        );
        assert!(
            result.is_err(),
            "Should fail for nested VARIANT columns when features are missing"
        );

        // Schema with VARIANT + Protocol without writer feature = ERROR
        let result = validate_variant_type_feature_support(
            &schema_with_variant,
            &protocol_without_writer_feature,
        );
        assert!(
            result.is_err(),
            "Should fail when VARIANT columns are present but writer feature is missing"
        );
        assert!(result.unwrap_err().to_string().contains("variantType"));

        // Schema with VARIANT + Protocol without reader feature = ERROR
        let result = validate_variant_type_feature_support(
            &schema_with_variant,
            &protocol_without_reader_feature,
        );
        assert!(
            result.is_err(),
            "Should fail when VARIANT columns are present but reader feature is missing"
        );
        assert!(result.unwrap_err().to_string().contains("variantType"));
    }
}

#[test]
fn the_physical_struct_of_a_variant_is_tagged() {
    let physical = variant_physical_struct();
    assert!(is_variant_physical_struct(&physical));
    assert_eq!(physical.fields.len(), 2);
    assert_eq!(physical.fields[0].name, "value");
    assert!(physical.fields[0].nullable);
    assert!(physical.fields[0].metadata.is_empty());
    assert_eq!(physical.fields[1].name, "metadata");
    assert!(physical.fields[1].nullable);
    assert_eq!(
        physical.fields[1].metadata,
        vec![("__VARIANT__".to_string(), "true".to_string())]
    );
    // the logical type is not tagged, and the physical struct is no logical Variant
    let logical = match unshredded_variant_schema() {
        PrimitiveType::Variant(schema) => schema,
        other => panic!("not a Variant: {:?}", other),
    };
    assert!(!is_variant_physical_struct(&logical));
    assert!(!is_unshredded_variant(&DataType::Struct(Box::new(physical))));
}

#[test]
fn the_physical_schema_replaces_every_variant() {
    let mut annotated = StructField::new("id", integer(), false);
    annotated.metadata.push(("comment".to_string(), "the key".to_string()));
    let schema = StructType::new(vec![
        annotated,
        StructField::new("v", unshredded_variant_schema().into(), true),
        StructField::new(
            "list",
            DataType::Array(Box::new(ArrayType {
                element_type: unshredded_variant_schema().into(),
                contains_null: true,
            })),
            false,
        ),
        StructField::new(
            "map",
            DataType::Mapping(Box::new(MapType {
                key_type: string(),
                value_type: DataType::Struct(Box::new(StructType::new(vec![StructField::new(
                    "inner",
                    unshredded_variant_schema().into(),
                    true,
                )]))),
                value_contains_null: false,
            })),
            true,
        ),
        StructField::new("amount", DataType::Primitive(PrimitiveType::Decimal(10, 2)), true),
    ]);
    let physical = physical_schema(&schema);
    assert_eq!(physical.fields.len(), 5);

    assert_eq!(physical.fields[0].name, "id");
    assert!(!physical.fields[0].nullable);
    assert_eq!(
        physical.fields[0].metadata,
        vec![("comment".to_string(), "the key".to_string())]
    );
    assert!(matches!(
        physical.fields[0].data_type,
        DataType::Primitive(PrimitiveType::Integer)
    ));

    assert_eq!(physical.fields[1].name, "v");
    assert!(physical.fields[1].nullable);
    match &physical.fields[1].data_type {
        DataType::Struct(inner) => assert!(is_variant_physical_struct(inner)),
        other => panic!("not a struct: {:?}", other),
    }

    match &physical.fields[2].data_type {
        DataType::Array(array) => {
            assert!(array.contains_null);
            match &array.element_type {
                DataType::Struct(inner) => assert!(is_variant_physical_struct(inner)),
                other => panic!("not a struct: {:?}", other),
            }
        }
        other => panic!("not an array: {:?}", other),
    }

    match &physical.fields[3].data_type {
        DataType::Mapping(map) => {
            assert!(!map.value_contains_null);
            assert!(matches!(
                map.key_type,
                DataType::Primitive(PrimitiveType::String)
            ));
            match &map.value_type {
                DataType::Struct(outer) => {
                    assert_eq!(outer.fields.len(), 1);
                    assert_eq!(outer.fields[0].name, "inner");
                    match &outer.fields[0].data_type {
                        DataType::Struct(inner) => assert!(is_variant_physical_struct(inner)),
                        other => panic!("not a struct: {:?}", other),
                    }
                }
                other => panic!("not a struct: {:?}", other),
            }
        }
        other => panic!("not a map: {:?}", other),
    }

    assert!(matches!(
        physical.fields[4].data_type,
        DataType::Primitive(PrimitiveType::Decimal(10, 2))
    ));

    // no Variant is left, so no feature is needed
    let protocol = Protocol::try_new(1, 2, None, None).unwrap();
    assert!(validate_variant_type_feature_support(&schema, &protocol).is_err());
    assert!(validate_variant_type_feature_support(&physical, &protocol).is_ok());
}

#[test]
fn a_variant_with_other_columns_is_not_unshredded() {
    for fields in [
        vec![],
        vec![StructField::nullable("value", binary())],
        vec![
            StructField::nullable("metadata", binary()),
            StructField::nullable("value", binary()),
        ],
        vec![
            StructField::new("value", binary(), false),
            StructField::nullable("metadata", binary()),
        ],
        vec![
            StructField::nullable("value", string()),
            StructField::nullable("metadata", binary()),
        ],
        vec![
            StructField::nullable("value", binary()),
            StructField::nullable("Metadata", binary()),
        ],
    ] {
        assert!(!is_unshredded_variant(&DataType::variant_type(fields).into()));
    }
    assert!(!is_unshredded_variant(&binary()));
    assert!(!is_unshredded_variant(&DataType::Struct(Box::new(
        StructType::new(vec![
            StructField::nullable("value", binary()),
            StructField::nullable("metadata", binary()),
        ])
    ))));
    assert!(is_unshredded_variant(&unshredded_variant_schema().into()));
}
