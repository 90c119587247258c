use variant::error::VariantError;
use variant::json::{encode, json_to_variant, json_to_variant_with_limit, DEFAULT_SIZE_LIMIT};
use variant::memory_allocator::SampleMemoryAllocator;
use variant::value::JsonValue;

fn sample() -> SampleMemoryAllocator {
    SampleMemoryAllocator {
        value_buffer: vec![0u8; 1].into_boxed_slice(),
        metadata_buffer: vec![0u8; 1].into_boxed_slice(),
    }
}

fn variant_of(json: &str) -> (Vec<u8>, Vec<u8>) {
    let mut allocator = sample();
    let mut value_size = 0usize;
    let mut metadata_size = 0usize;
    json_to_variant(json, &mut allocator, &mut value_size, &mut metadata_size).unwrap();
    (
        allocator.value_buffer[..value_size].to_vec(),
        allocator.metadata_buffer[..metadata_size].to_vec(),
    )
}

fn value_of(json: &str) -> Vec<u8> {
    variant_of(json).0
}

fn error_of(json: &str, limit: usize) -> VariantError {
    let mut allocator = sample();
    let mut value_size = 11usize;
    let mut metadata_size = 13usize;
    let error = json_to_variant_with_limit(
        json,
        &mut allocator,
        limit,
        &mut value_size,
        &mut metadata_size,
    )
    .unwrap_err();
    assert_eq!((value_size, metadata_size), (11, 13));
    error
}

#[test]
fn null_is_one_zero_byte() {
    assert_eq!(value_of("null"), vec![0x00]);
}

#[test]
fn booleans() {
    assert_eq!(value_of("true"), vec![0x04]);
    assert_eq!(value_of("false"), vec![0x08]);
}

#[test]
fn integers_take_the_narrowest_width() {
    assert_eq!(value_of("127"), vec![0x0C, 0x7F]);
    assert_eq!(value_of("-128"), vec![0x0C, 0x80]);
    assert_eq!(value_of("27134"), vec![0x10, 0xFE, 0x69]);
    assert_eq!(value_of("-32767431"), vec![0x14, 0x39, 0x02, 0x0C, 0xFE]);
    assert_eq!(
        value_of("92842754201389"),
        vec![0x18, 0x2D, 0x57, 0x62, 0xA3, 0x70, 0x54, 0x00, 0x00]
    );
}

#[test]
fn integers_at_the_edges_of_the_widths() {
    assert_eq!(value_of("0"), vec![0x0C, 0x00]);
    assert_eq!(value_of("-0"), vec![0x0C, 0x00]);
    assert_eq!(value_of("128"), vec![0x10, 0x80, 0x00]);
    assert_eq!(value_of("-129"), vec![0x10, 0x7F, 0xFF]);
    assert_eq!(value_of("32767"), vec![0x10, 0xFF, 0x7F]);
    assert_eq!(value_of("-32768"), vec![0x10, 0x00, 0x80]);
    assert_eq!(value_of("32768"), vec![0x14, 0x00, 0x80, 0x00, 0x00]);
    assert_eq!(value_of("-32769"), vec![0x14, 0xFF, 0x7F, 0xFF, 0xFF]);
    assert_eq!(value_of("2147483647"), vec![0x14, 0xFF, 0xFF, 0xFF, 0x7F]);
    assert_eq!(value_of("-2147483648"), vec![0x14, 0x00, 0x00, 0x00, 0x80]);
    assert_eq!(
        value_of("2147483648"),
        vec![0x18, 0x00, 0x00, 0x00, 0x80, 0x00, 0x00, 0x00, 0x00]
    );
    assert_eq!(
        value_of("9223372036854775807"),
        vec![0x18, 0xFF, 0xFF, 0xFF, 0xFF, 0xFF, 0xFF, 0xFF, 0x7F]
    );
    assert_eq!(
        value_of("-9223372036854775808"),
        vec![0x18, 0x00, 0x00, 0x00, 0x00, 0x00, 0x00, 0x00, 0x80]
    );
}

#[test]
fn decimals_and_doubles() {
    assert_eq!(value_of("1.23"), vec![0x20, 0x02, 0x7B, 0x00, 0x00, 0x00]);
    assert_eq!(
        value_of("999999999.0"),
        vec![0x24, 0x01, 0xF6, 0xE3, 0x0B, 0x54, 0x02, 0x00, 0x00, 0x00]
    );
    let mut expected = vec![0x28, 0x00];
    expected.extend_from_slice(&[0xFF; 12]);
    expected.extend_from_slice(&[0x00; 4]);
    assert_eq!(value_of("79228162514264337593543950335"), expected);
    assert_eq!(
        value_of("15e-1"),
        vec![0x1C, 0, 0, 0, 0, 0, 0, 0xF8, 0x3F]
    );
}

#[test]
fn a_negative_decimal_of_sixteen_bytes_is_in_twos_complement() {
    let unscaled: i128 = -79228162514264337593543950335;
    let mut expected = vec![0x28, 0x00];
    expected.extend_from_slice(&unscaled.to_le_bytes());
    assert_eq!(value_of("-79228162514264337593543950335"), expected);
}

#[test]
fn a_decimal_with_a_large_scale_is_wide_whatever_its_digits() {
    // scale 10 does not go with four bytes, scale 19 not with eight
    assert_eq!(
        value_of("0.0000000001"),
        vec![0x24, 10, 1, 0, 0, 0, 0, 0, 0, 0]
    );
    let mut expected = vec![0x28, 19, 1];
    expected.extend_from_slice(&[0x00; 15]);
    assert_eq!(value_of("0.0000000000000000001"), expected);
}

#[test]
fn strings_short_and_long() {
    assert_eq!(
        value_of("\"harsh\""),
        vec![0x15, b'h', b'a', b'r', b's', b'h']
    );
    assert_eq!(value_of("\"\""), vec![0x01]);
    let mut expected = vec![0xFD];
    expected.extend_from_slice(&[b'a'; 63]);
    assert_eq!(value_of(&format!("\"{}\"", "a".repeat(63))), expected);
    let mut expected = vec![0x40, 0x40, 0x00, 0x00, 0x00];
    expected.extend_from_slice(&[b'a'; 64]);
    assert_eq!(value_of(&format!("\"{}\"", "a".repeat(64))), expected);
}

#[test]
fn the_length_of_a_string_counts_bytes() {
    // 32 letters of two bytes each: 64 bytes, a long string
    let text = "é".repeat(32);
    let mut expected = vec![0x40, 0x40, 0x00, 0x00, 0x00];
    expected.extend_from_slice(text.as_bytes());
    assert_eq!(value_of(&format!("\"{}\"", text)), expected);
    // 21 signs of three bytes each: 63 bytes, a short string
    let text = "€".repeat(21);
    let mut expected = vec![0xFD];
    expected.extend_from_slice(text.as_bytes());
    assert_eq!(value_of(&format!("\"{}\"", text)), expected);
}

#[test]
fn array_of_three_integers() {
    assert_eq!(
        value_of("[127, 128, -32767431]"),
        vec![
            0x03, 0x03, 0x00, 0x02, 0x05, 0x0A, 0x0C, 0x7F, 0x10, 0x80, 0x00, 0x14, 0x39, 0x02,
            0x0C, 0xFE
        ]
    );
}

#[test]
fn empty_containers() {
    assert_eq!(variant_of("[]"), (vec![0x03, 0x00, 0x00], vec![0x01, 0x00, 0x00]));
    assert_eq!(variant_of("{}"), (vec![0x02, 0x00, 0x00], vec![0x01, 0x00, 0x00]));
}

#[test]
fn object_with_a_name_that_comes_twice_in_the_text() {
    assert_eq!(
        value_of("{\"b\":2,\"a\":1,\"a\":3}"),
        vec![0x02, 0x02, 0x01, 0x00, 0x02, 0x00, 0x04, 0x0C, 0x02, 0x0C, 0x03]
    );
}

#[test]
fn object_with_a_name_that_comes_twice_in_the_tree() {
    let json = JsonValue::Object(vec![
        ("b".to_string(), JsonValue::Number("2".to_string())),
        ("a".to_string(), JsonValue::Number("1".to_string())),
        ("a".to_string(), JsonValue::Number("3".to_string())),
    ]);
    let mut allocator = sample();
    let (value_size, metadata_size) = encode(&json, &mut allocator, DEFAULT_SIZE_LIMIT).unwrap();
    // one id for the name, two fields in the header, in the order in which they came
    assert_eq!(
        &allocator.value_buffer[..value_size],
        &[0x02, 0x03, 0x01, 0x01, 0x00, 0x02, 0x04, 0x00, 0x06, 0x0C, 0x02, 0x0C, 0x01, 0x0C, 0x03]
    );
    assert_eq!(
        &allocator.metadata_buffer[..metadata_size],
        &[0x01, 0x02, 0x00, 0x01, 0x02, b'b', b'a']
    );
}

#[test]
fn metadata_lists_the_names_in_the_order_in_which_they_were_met() {
    let (value, metadata) = variant_of("{\"b\":0,\"a\":0}");
    assert_eq!(
        value,
        vec![0x02, 0x02, 0x01, 0x00, 0x02, 0x00, 0x04, 0x0C, 0x00, 0x0C, 0x00]
    );
    assert_eq!(metadata, vec![0x01, 0x02, 0x00, 0x01, 0x02, b'b', b'a']);
}

#[test]
fn metadata_of_a_document_without_objects() {
    assert_eq!(variant_of("[1, 2]").1, vec![0x01, 0x00, 0x00]);
}

#[test]
fn names_in_nested_objects_share_one_dictionary() {
    let (value, metadata) = variant_of("{\"x\": {\"y\": null, \"x\": true}, \"y\": false}");
    assert_eq!(
        metadata,
        vec![0x01, 0x02, 0x00, 0x01, 0x02, b'x', b'y']
    );
    // inner object: fields x (id 0, offset 1), y (id 1, offset 0)
    let inner = vec![0x02, 0x02, 0x00, 0x01, 0x01, 0x00, 0x02, 0x00, 0x04];
    let mut expected = vec![0x02, 0x02, 0x00, 0x01, 0x00, 0x09, 0x0A];
    expected.extend_from_slice(&inner);
    expected.push(0x08);
    assert_eq!(value, expected);
}

#[test]
fn text_that_is_no_json_is_refused() {
    assert_eq!(error_of("{", DEFAULT_SIZE_LIMIT), VariantError::InvalidJson);
    assert_eq!(error_of("", DEFAULT_SIZE_LIMIT), VariantError::InvalidJson);
    assert_eq!(error_of("01", DEFAULT_SIZE_LIMIT), VariantError::InvalidJson);
    assert_eq!(error_of("[1,]", DEFAULT_SIZE_LIMIT), VariantError::InvalidJson);
}

#[test]
fn a_number_that_is_no_finite_double_is_refused() {
    assert_eq!(
        error_of("1e999", DEFAULT_SIZE_LIMIT),
        VariantError::NumberUnparseable
    );
    assert_eq!(
        error_of("[1, {\"a\": -1e999}]", DEFAULT_SIZE_LIMIT),
        VariantError::NumberUnparseable
    );
    for text in ["twelve", "007", "+1.5", ".5"] {
        let mut allocator = sample();
        assert_eq!(
            encode(
                &JsonValue::Number(text.to_string()),
                &mut allocator,
                DEFAULT_SIZE_LIMIT
            ),
            Err(VariantError::NumberUnparseable)
        );
        assert_eq!(&*allocator.value_buffer, &[0u8]);
    }
}

#[test]
fn a_whole_number_of_more_than_96_bits_is_a_double() {
    let mut expected = vec![0x1C];
    expected.extend_from_slice(&79228162514264337593543950336f64.to_le_bytes());
    assert_eq!(value_of("79228162514264337593543950336"), expected);
}

#[test]
fn the_size_limit_is_kept() {
    // a null needs one byte
    assert_eq!(error_of("null", 0), VariantError::SizeLimitExceeded);
    // room for the widest integer is asked for: nine bytes
    assert_eq!(error_of("1", 8), VariantError::SizeLimitExceeded);
    // room for the widest decimal is asked for: eighteen bytes
    assert_eq!(error_of("1.5", 17), VariantError::SizeLimitExceeded);
    // a string needs its header and its bytes
    assert_eq!(error_of("\"harsh\"", 5), VariantError::SizeLimitExceeded);
    // the header of an array needs room behind the elements
    assert_eq!(error_of("[null, null]", 6), VariantError::SizeLimitExceeded);
    // the metadata needs room of its own
    assert_eq!(
        error_of("{\"a-long-field-name\": null}", 16),
        VariantError::SizeLimitExceeded
    );
}

#[test]
fn what_fits_the_size_limit_exactly_is_written() {
    let mut allocator = sample();
    let mut value_size = 0usize;
    let mut metadata_size = 0usize;
    json_to_variant_with_limit("1", &mut allocator, 9, &mut value_size, &mut metadata_size)
        .unwrap();
    assert_eq!((value_size, metadata_size), (2, 3));
    json_to_variant_with_limit(
        "[null, null]",
        &mut allocator,
        7,
        &mut value_size,
        &mut metadata_size,
    )
    .unwrap();
    assert_eq!((value_size, metadata_size), (7, 3));
    assert_eq!(
        &allocator.value_buffer[..7],
        &[0x03, 0x02, 0x00, 0x01, 0x02, 0x00, 0x00]
    );
}

#[test]
fn the_first_failure_in_the_document_is_reported() {
    // the number is met before the limit is
    assert_eq!(
        error_of("[1e999, \"a string that is too long for the limit\"]", 20),
        VariantError::NumberUnparseable
    );
    // the limit is met before the number is
    assert_eq!(
        error_of("[\"a string that is too long for the limit\", 1e999]", 20),
        VariantError::SizeLimitExceeded
    );
}

#[test]
fn the_default_size_limit_is_sixteen_mebibytes() {
    assert_eq!(DEFAULT_SIZE_LIMIT, 16 * 1024 * 1024);
    let text = format!("\"{}\"", "x".repeat(DEFAULT_SIZE_LIMIT));
    assert_eq!(
        error_of(&text, DEFAULT_SIZE_LIMIT),
        VariantError::SizeLimitExceeded
    );
    let text = format!("\"{}\"", "x".repeat(DEFAULT_SIZE_LIMIT - 5));
    let (value, _) = variant_of(&text);
    assert_eq!(value.len(), DEFAULT_SIZE_LIMIT);
    assert_eq!(&value[..5], &[0x40, 0xFB, 0xFF, 0xFF, 0x00]);
}

#[test]
fn error_messages() {
    assert_eq!(VariantError::InvalidJson.message(), "Invalid JSON.");
    assert_eq!(
        VariantError::SizeLimitExceeded.message(),
        "Variant size limit exceeded."
    );
    assert_eq!(
        VariantError::NumberUnparseable.message(),
        "Failed to parse number."
    );
    assert!(VariantError::AllocationFailed.message().contains("allocator"));
    assert!(VariantError::InternalInvariant.message().contains("Buffer size insufficient"));
}

#[test]
fn a_text_that_is_no_json_leaves_the_buffers_untouched() {
    let mut allocator = SampleMemoryAllocator {
        value_buffer: vec![0xAAu8; 3].into_boxed_slice(),
        metadata_buffer: vec![0xBBu8; 2].into_boxed_slice(),
    };
    let mut value_size = 7usize;
    let mut metadata_size = 9usize;
    assert_eq!(
        json_to_variant("[1,", &mut allocator, &mut value_size, &mut metadata_size),
        Err(VariantError::InvalidJson)
    );
    assert_eq!((value_size, metadata_size), (7, 9));
    assert_eq!(&*allocator.value_buffer, &[0xAA; 3]);
    assert_eq!(&*allocator.metadata_buffer, &[0xBB; 2]);
}

#[test]
fn an_encode_that_the_limit_stops_writes_no_metadata() {
    let mut allocator = SampleMemoryAllocator {
        value_buffer: vec![0u8; 1].into_boxed_slice(),
        metadata_buffer: vec![0xBBu8; 2].into_boxed_slice(),
    };
    let mut value_size = 7usize;
    let mut metadata_size = 9usize;
    assert_eq!(
        json_to_variant_with_limit(
            "{\"a-long-field-name\": null}",
            &mut allocator,
            16,
            &mut value_size,
            &mut metadata_size
        ),
        Err(VariantError::SizeLimitExceeded)
    );
    assert_eq!((value_size, metadata_size), (7, 9));
    assert_eq!(&*allocator.metadata_buffer, &[0xBB; 2]);
}
