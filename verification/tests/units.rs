use variant::builder::{next_power_of_two, VariantBuilder};
use variant::container::{array_header_bytes, largest_id, object_header_bytes, push_le_table};
use variant::dictionary::FieldDictionary;
use variant::error::VariantError;
use variant::fields::{compare_bytes, compare_keys, sort_fields, FieldEntry};
use variant::memory_allocator::{MemoryAllocator, SampleMemoryAllocator};
use variant::metadata::heap_offsets;
use variant::number::{classify, select_number, Number};
use variant::value::JsonValue;
use variant::variant_utils::{
    array_header, get_integer_size, metadata_header, object_header, primitive_header,
    short_string_header,
};
use variant::wire::{copy_into, same_bytes, same_text, shift_right, to_le_bytes, twos_complement};

fn buffers(value: usize, metadata: usize) -> SampleMemoryAllocator {
    SampleMemoryAllocator {
        value_buffer: vec![0u8; value].into_boxed_slice(),
        metadata_buffer: vec![0u8; metadata].into_boxed_slice(),
    }
}

#[test]
fn least_widths() {
    assert_eq!(get_integer_size(0), 1);
    assert_eq!(get_integer_size(255), 1);
    assert_eq!(get_integer_size(256), 2);
    assert_eq!(get_integer_size(65535), 2);
    assert_eq!(get_integer_size(65536), 3);
    assert_eq!(get_integer_size(usize::MAX), 3);
}

#[test]
fn header_bytes() {
    assert_eq!(primitive_header(0), 0x00);
    assert_eq!(primitive_header(1), 0x04);
    assert_eq!(primitive_header(10), 0x28);
    assert_eq!(primitive_header(16), 0x40);
    assert_eq!(primitive_header(63), 0xFC);
    assert_eq!(short_string_header(0), 0x01);
    assert_eq!(short_string_header(5), 0x15);
    assert_eq!(short_string_header(63), 0xFD);
    assert_eq!(array_header(false, 1), 0b0000_0011);
    assert_eq!(array_header(false, 2), 0b0000_0111);
    assert_eq!(array_header(true, 3), 0b0001_1011);
    assert_eq!(array_header(true, 4), 0b0001_1111);
    assert_eq!(object_header(false, 1, 1), 0b0000_0010);
    assert_eq!(object_header(false, 2, 1), 0b0001_0010);
    assert_eq!(object_header(false, 1, 3), 0b0000_1010);
    assert_eq!(object_header(true, 3, 2), 0b0110_0110);
    assert_eq!(object_header(true, 4, 4), 0b0111_1110);
    assert_eq!(metadata_header(1), 0b0000_0001);
    assert_eq!(metadata_header(2), 0b0100_0001);
    assert_eq!(metadata_header(3), 0b1000_0001);
}

#[test]
fn little_endian_bytes() {
    assert_eq!(to_le_bytes(0x01_02_03, 3), vec![0x03, 0x02, 0x01]);
    assert_eq!(to_le_bytes(0x01_02_03, 1), vec![0x03]);
    assert_eq!(to_le_bytes(0x01_02_03, 0), Vec::<u8>::new());
    assert_eq!(to_le_bytes(0x01, 4), vec![0x01, 0x00, 0x00, 0x00]);
    assert_eq!(to_le_bytes(u128::MAX, 16), vec![0xFF; 16]);
    assert_eq!(to_le_bytes(1, 17).len(), 17);
    assert_eq!(to_le_bytes(1 << 120, 17)[15..], [0x01, 0x00]);
}

#[test]
fn twos_complement_of_negative_values() {
    assert_eq!(twos_complement(0), 0);
    assert_eq!(twos_complement(5), 5);
    assert_eq!(twos_complement(-1), u128::MAX);
    assert_eq!(twos_complement(-128), u128::MAX - 127);
    assert_eq!(twos_complement(i128::MAX), i128::MAX as u128);
    assert_eq!(twos_complement(i128::MIN), 1u128 << 127);
    assert_eq!(to_le_bytes(twos_complement(-2), 2), vec![0xFE, 0xFF]);
}

#[test]
fn bytes_are_copied_and_shifted_in_place() {
    let mut buffer = [0u8, 1, 2, 3, 4, 5, 6, 7];
    copy_into(&mut buffer, 2, &[9, 9, 9]);
    assert_eq!(buffer, [0, 1, 9, 9, 9, 5, 6, 7]);
    copy_into(&mut buffer, 8, &[]);
    assert_eq!(buffer, [0, 1, 9, 9, 9, 5, 6, 7]);

    let mut buffer = [0u8, 1, 2, 3, 4, 5, 6, 7];
    // the block overlaps itself
    shift_right(&mut buffer, 1, 5, 3);
    assert_eq!(buffer, [0, 1, 2, 1, 2, 3, 4, 7]);
    let mut buffer = [0u8, 1, 2, 3];
    shift_right(&mut buffer, 2, 2, 4);
    assert_eq!(buffer, [0, 1, 2, 3]);
    shift_right(&mut buffer, 0, 4, 0);
    assert_eq!(buffer, [0, 1, 2, 3]);
}

#[test]
fn equal_bytes_and_texts() {
    assert!(same_bytes(&[], &[]));
    assert!(same_bytes(&[1, 2], &[1, 2]));
    assert!(!same_bytes(&[1, 2], &[1, 3]));
    assert!(!same_bytes(&[1, 2], &[1]));
    assert!(same_text("value", "value"));
    assert!(!same_text("value", "values"));
    assert!(!same_text("value", "valuE"));
}

#[test]
fn a_power_of_two_is_asked_for() {
    assert_eq!(next_power_of_two(0), 1);
    assert_eq!(next_power_of_two(1), 1);
    assert_eq!(next_power_of_two(2), 2);
    assert_eq!(next_power_of_two(3), 4);
    assert_eq!(next_power_of_two(5), 8);
    assert_eq!(next_power_of_two(1024), 1024);
    assert_eq!(next_power_of_two(1025), 2048);
    assert_eq!(next_power_of_two(usize::MAX / 2 + 1), usize::MAX / 2 + 1);
    // no power of two is that large
    assert_eq!(next_power_of_two(usize::MAX), usize::MAX);
    assert_eq!(next_power_of_two(usize::MAX / 2 + 2), usize::MAX / 2 + 2);
}

#[test]
fn numbers_are_read_as_integers_first() {
    assert_eq!(classify("127"), Some(Number::Int(127)));
    assert_eq!(classify("-9223372036854775808"), Some(Number::Int(i64::MIN)));
    assert_eq!(
        classify("9223372036854775808"),
        Some(Number::Decimal(9223372036854775808, 0))
    );
    assert_eq!(classify("1.23"), Some(Number::Decimal(123, 2)));
    assert_eq!(classify("-1.230"), Some(Number::Decimal(-1230, 3)));
    assert_eq!(classify("1.0"), Some(Number::Decimal(10, 1)));
    assert_eq!(classify("15e-1"), Some(Number::Double(1.5f64.to_bits())));
    assert_eq!(classify("-3e+0"), Some(Number::Double((-3.0f64).to_bits())));
    // 29 fractional digits are more than a decimal holds
    assert_eq!(
        classify("0.79228162514264337593543950335"),
        Some(Number::Double(0.79228162514264337593543950335f64.to_bits()))
    );
    assert_eq!(classify("1e999"), None);
    assert_eq!(classify("twelve"), None);
    assert_eq!(classify(""), None);
}

#[test]
fn the_first_reading_of_a_number_is_taken() {
    assert_eq!(
        select_number(Some(Some(1)), Some((10, 1)), Some(7)),
        Some(Number::Int(1))
    );
    assert_eq!(
        select_number(Some(None), Some((10, 1)), Some(7)),
        Some(Number::Decimal(10, 1))
    );
    assert_eq!(
        select_number(Some(None), None, Some(7)),
        Some(Number::Double(7))
    );
    assert_eq!(select_number(Some(None), None, None), None);
    assert_eq!(
        select_number(Some(None), Some((-5, 255)), None),
        Some(Number::Decimal(-5, 255))
    );
    // what is no number is none, whatever else reads it
    assert_eq!(select_number(None, Some((10, 1)), Some(7)), None);
    assert_eq!(select_number(None, None, None), None);
}

#[test]
fn a_text_that_is_no_json_number_is_no_number() {
    // each of these is read by one of the readers of decimals or doubles
    for text in ["007", "+1.5", "1_000", ".5", "5.", " 1", "1 ", "0x10", "inf", "NaN", "1e", "--1"] {
        assert_eq!(classify(text), None, "{}", text);
    }
    assert_eq!(classify("0.5"), Some(Number::Decimal(5, 1)));
    assert_eq!(classify("-0"), Some(Number::Int(0)));
    assert_eq!(classify("-0.0"), Some(Number::Decimal(0, 1)));
}

#[test]
fn a_number_of_more_than_96_bits_is_a_double() {
    assert_eq!(
        classify("79228162514264337593543950335"),
        Some(Number::Decimal(79228162514264337593543950335, 0))
    );
    assert_eq!(
        classify("79228162514264337593543950336"),
        Some(Number::Double(79228162514264337593543950336f64.to_bits()))
    );
    assert_eq!(
        classify("-79228162514264337593543950336"),
        Some(Number::Double((-79228162514264337593543950336f64).to_bits()))
    );
}

#[test]
fn the_dictionary_numbers_the_names_as_they_come() {
    let mut dictionary = FieldDictionary::new();
    assert_eq!(dictionary.len(), 0);
    assert_eq!(dictionary.add("b"), 0);
    assert_eq!(dictionary.add("a"), 1);
    assert_eq!(dictionary.add("b"), 0);
    assert_eq!(dictionary.add(""), 2);
    assert_eq!(dictionary.add("a"), 1);
    assert_eq!(dictionary.len(), 3);
    assert_eq!(dictionary.name(0), "b");
    assert_eq!(dictionary.name(1), "a");
    assert_eq!(dictionary.name(2), "");
}

#[test]
fn names_are_compared_byte_by_byte() {
    assert!(compare_bytes(&[], &[]));
    assert!(compare_bytes(&[], &[0]));
    assert!(!compare_bytes(&[0], &[]));
    assert!(compare_bytes(&[1, 2], &[1, 2]));
    assert!(compare_bytes(&[1, 2], &[1, 2, 0]));
    assert!(!compare_bytes(&[1, 2, 0], &[1, 2]));
    assert!(compare_bytes(&[1, 2, 9], &[1, 3]));
    assert!(!compare_bytes(&[1, 3], &[1, 2, 9]));
    assert!(compare_bytes(&[0x7F], &[0x80]));
    assert!(compare_keys("a", "b"));
    assert!(compare_keys("a", "a"));
    assert!(!compare_keys("b", "a"));
    assert!(compare_keys("Z", "a"));
    assert!(compare_keys("z", "é"));
}

fn entry(key: &str, id: usize, offset: usize) -> FieldEntry<'_> {
    FieldEntry { key, id, offset }
}

fn triples(entries: &[FieldEntry]) -> Vec<(String, usize, usize)> {
    entries
        .iter()
        .map(|entry| (entry.key.to_string(), entry.id, entry.offset))
        .collect()
}

#[test]
fn fields_with_the_same_name_stay_in_their_order() {
    let fields = vec![
        entry("b", 0, 0),
        entry("a", 1, 2),
        entry("c", 2, 4),
        entry("a", 1, 6),
        entry("b", 0, 8),
        entry("a", 1, 10),
    ];
    let sorted = sort_fields(&fields);
    assert_eq!(
        triples(&sorted),
        vec![
            ("a".to_string(), 1, 2),
            ("a".to_string(), 1, 6),
            ("a".to_string(), 1, 10),
            ("b".to_string(), 0, 0),
            ("b".to_string(), 0, 8),
            ("c".to_string(), 2, 4),
        ]
    );
    assert_eq!(triples(&sort_fields(&Vec::new())), vec![]);
    assert_eq!(largest_id(&fields), 2);
    assert_eq!(largest_id(&Vec::new()), 0);
}

#[test]
fn sorting_agrees_with_the_order_of_strings() {
    let keys: Vec<String> = (0..200).map(|i| format!("key{}", (i * 7919) % 1000)).collect();
    let fields: Vec<FieldEntry> = keys
        .iter()
        .enumerate()
        .map(|(i, key)| entry(key, i, 2 * i))
        .collect();
    let mut expected = triples(&fields);
    expected.sort_by(|a, b| a.0.cmp(&b.0));
    assert_eq!(triples(&sort_fields(&fields)), expected);
}

#[test]
fn container_headers() {
    assert_eq!(array_header_bytes(&vec![], 0), vec![0x03, 0x00, 0x00]);
    assert_eq!(
        array_header_bytes(&vec![0, 2, 5], 10),
        vec![0x03, 0x03, 0x00, 0x02, 0x05, 0x0A]
    );
    assert_eq!(
        array_header_bytes(&vec![0, 256], 257),
        vec![0x07, 0x02, 0x00, 0x00, 0x00, 0x01, 0x01, 0x01]
    );
    // an offset that is wider than the width is cut to it
    assert_eq!(
        array_header_bytes(&vec![0x0102_0304], 0x0506_0708),
        vec![0x0B, 0x01, 0x04, 0x03, 0x02, 0x08, 0x07, 0x06]
    );
    assert_eq!(object_header_bytes(&vec![], 0), vec![0x02, 0x00, 0x00]);
    assert_eq!(
        object_header_bytes(&vec![entry("a", 1, 2), entry("b", 0, 0)], 4),
        vec![0x02, 0x02, 0x01, 0x00, 0x02, 0x00, 0x04]
    );
    assert_eq!(
        object_header_bytes(&vec![entry("a", 300, 0)], 70000),
        vec![0b0001_1010, 0x01, 0x2C, 0x01, 0x00, 0x00, 0x00, 0x70, 0x11, 0x01]
    );
    let mut table = vec![0xEE];
    push_le_table(&mut table, &vec![1, 0x0203], 2);
    assert_eq!(table, vec![0xEE, 0x01, 0x00, 0x03, 0x02]);
}

#[test]
fn heap_offsets_add_up_the_sizes_of_the_names() {
    let mut dictionary = FieldDictionary::new();
    assert_eq!(heap_offsets(&dictionary, 0), Some((vec![], 0)));
    dictionary.add("one");
    dictionary.add("é");
    dictionary.add("");
    dictionary.add("three");
    assert_eq!(heap_offsets(&dictionary, 10), Some((vec![0, 3, 5, 5], 10)));
    assert_eq!(heap_offsets(&dictionary, 100), Some((vec![0, 3, 5, 5], 10)));
    assert_eq!(heap_offsets(&dictionary, 9), None);
    assert_eq!(heap_offsets(&dictionary, 4), None);
}

#[test]
fn the_sample_allocator_grows_with_zeros_and_keeps_what_it_held() {
    let mut allocator = SampleMemoryAllocator {
        value_buffer: vec![1u8, 2, 3].into_boxed_slice(),
        metadata_buffer: vec![4u8, 5].into_boxed_slice(),
    };
    assert_eq!(allocator.ensure_value_buffer_size(2), Ok(()));
    assert_eq!(&*allocator.value_buffer, &[1, 2, 3]);
    assert_eq!(allocator.ensure_value_buffer_size(5), Ok(()));
    assert_eq!(&*allocator.value_buffer, &[1, 2, 3, 0, 0]);
    assert_eq!(&*allocator.metadata_buffer, &[4, 5]);
    assert_eq!(allocator.ensure_metadata_buffer_size(3), Ok(()));
    assert_eq!(&*allocator.metadata_buffer, &[4, 5, 0]);
    allocator.borrow_value_buffer()[4] = 9;
    allocator.borrow_metadata_buffer()[0] = 8;
    assert_eq!(&*allocator.value_buffer, &[1, 2, 3, 0, 9]);
    assert_eq!(&*allocator.metadata_buffer, &[8, 5, 0]);
    assert_eq!(allocator.ensure_value_buffer_size(0), Ok(()));
    assert_eq!(allocator.borrow_value_buffer().len(), 5);
}

#[test]
fn the_builder_appends_at_the_write_cursor() {
    let mut allocator = buffers(1, 1);
    let mut builder = VariantBuilder::new(64);
    assert_eq!(builder.size, 0);
    assert_eq!(builder.size_limit, 64);
    builder.append_null(&mut allocator).unwrap();
    builder.append_boolean(&mut allocator, true).unwrap();
    builder.append_boolean(&mut allocator, false).unwrap();
    builder.append_int(&mut allocator, -2).unwrap();
    builder.append_int(&mut allocator, 300).unwrap();
    builder.append_decimal(&mut allocator, -1, 3).unwrap();
    builder
        .append_double(&mut allocator, 1.5f64.to_bits())
        .unwrap();
    builder.append_string(&mut allocator, "ab").unwrap();
    assert_eq!(builder.size, 3 + 2 + 3 + 6 + 9 + 3);
    assert_eq!(
        &allocator.value_buffer[..builder.size],
        &[
            0x00, 0x04, 0x08, 0x0C, 0xFE, 0x10, 0x2C, 0x01, 0x20, 0x03, 0xFF, 0xFF, 0xFF, 0xFF,
            0x1C, 0, 0, 0, 0, 0, 0, 0xF8, 0x3F, 0x09, b'a', b'b'
        ]
    );
    // the buffer has grown to a power of two
    assert_eq!(allocator.value_buffer.len(), 32);
}

#[test]
fn the_builder_asks_for_the_room_of_the_widest_number() {
    let mut allocator = buffers(64, 1);
    let mut builder = VariantBuilder::new(8);
    assert_eq!(
        builder.append_int(&mut allocator, 1),
        Err(VariantError::SizeLimitExceeded)
    );
    assert_eq!(
        builder.append_double(&mut allocator, 0),
        Err(VariantError::SizeLimitExceeded)
    );
    assert_eq!(
        builder.append_decimal(&mut allocator, 1, 1),
        Err(VariantError::SizeLimitExceeded)
    );
    assert_eq!(
        builder.append_string(&mut allocator, "12345678"),
        Err(VariantError::SizeLimitExceeded)
    );
    assert_eq!(builder.append_string(&mut allocator, "1234567"), Ok(()));
    assert_eq!(builder.size, 8);
    assert_eq!(
        builder.append_null(&mut allocator),
        Err(VariantError::SizeLimitExceeded)
    );
    assert_eq!(builder.check_capacity(&mut allocator, 0), Ok(()));
    assert_eq!(
        builder.check_capacity(&mut allocator, 1),
        Err(VariantError::SizeLimitExceeded)
    );
}

#[test]
fn writes_without_room_are_refused() {
    let mut allocator = buffers(2, 1);
    let mut builder = VariantBuilder::new(64);
    assert_eq!(
        builder.write_bytes(&mut allocator, &[1, 2, 3]),
        Err(VariantError::InternalInvariant)
    );
    assert_eq!(builder.size, 0);
    assert_eq!(builder.write_bytes(&mut allocator, &[1, 2]), Ok(()));
    assert_eq!(
        builder.write_primitive_header(&mut allocator, 0),
        Err(VariantError::InternalInvariant)
    );
    assert_eq!(
        builder.write_short_string_header(&mut allocator, 1),
        Err(VariantError::InternalInvariant)
    );
    assert_eq!(
        builder.shift_bytes(&mut allocator, 1, 0, 2),
        Err(VariantError::InternalInvariant)
    );
    assert_eq!(builder.size, 2);
    assert_eq!(&*allocator.value_buffer, &[1, 2]);
}

#[test]
fn a_header_goes_in_before_what_was_written() {
    let mut allocator = buffers(4, 1);
    let mut builder = VariantBuilder::new(64);
    builder.write_bytes(&mut allocator, &[1, 2, 3, 4]).unwrap();
    builder.insert_header(&mut allocator, 1, &[9, 8]).unwrap();
    assert_eq!(builder.size, 6);
    assert_eq!(&allocator.value_buffer[..6], &[1, 9, 8, 2, 3, 4]);
    builder.finish_writing_array(&mut allocator, 3, &vec![0, 1, 2]).unwrap();
    assert_eq!(
        &allocator.value_buffer[..builder.size],
        &[1, 9, 8, 0x03, 0x03, 0x00, 0x01, 0x02, 0x03, 2, 3, 4]
    );
    let start = builder.size;
    assert_eq!(builder.add_key("k"), 0);
    builder.append_null(&mut allocator).unwrap();
    let mut fields = vec![entry("k", 0, 0)];
    builder
        .finish_writing_object(&mut allocator, start, &mut fields)
        .unwrap();
    assert_eq!(triples(&fields), vec![("k".to_string(), 0, 0)]);
    assert_eq!(
        &allocator.value_buffer[start..builder.size],
        &[0x02, 0x01, 0x00, 0x00, 0x01, 0x00]
    );
    assert_eq!(builder.write_metadata(&mut allocator), Ok(5));
    assert_eq!(&allocator.metadata_buffer[..5], &[0x01, 0x01, 0x00, 0x01, b'k']);
}

#[test]
fn many_fields_are_sorted_quickly() {
    let keys: Vec<String> = (0..200_000u64)
        .map(|i| format!("{:x}", i.wrapping_mul(0x9E37_79B9_7F4A_7C15) >> 40))
        .collect();
    let fields: Vec<FieldEntry> = keys
        .iter()
        .enumerate()
        .map(|(i, key)| entry(key, i, i))
        .collect();
    let mut expected = triples(&fields);
    expected.sort_by(|a, b| a.0.cmp(&b.0));
    assert_eq!(triples(&sort_fields(&fields)), expected);
}

#[test]
fn the_dictionary_hands_out_its_entries_in_the_order_of_the_ids() {
    let mut dictionary = FieldDictionary::new();
    assert_eq!(dictionary.entries(), vec![]);
    dictionary.add("second");
    dictionary.add("first");
    dictionary.add("second");
    dictionary.add("third");
    assert_eq!(
        dictionary.entries(),
        vec![
            ("second".to_string(), 0),
            ("first".to_string(), 1),
            ("third".to_string(), 2)
        ]
    );
}

#[test]
fn closing_an_object_leaves_its_fields_sorted() {
    let mut allocator = buffers(8, 1);
    let mut builder = VariantBuilder::new(64);
    builder.write_bytes(&mut allocator, &[0, 0, 0]).unwrap();
    let mut fields = vec![entry("b", 0, 0), entry("a", 1, 1), entry("a", 1, 2)];
    builder
        .finish_writing_object(&mut allocator, 0, &mut fields)
        .unwrap();
    assert_eq!(
        triples(&fields),
        vec![
            ("a".to_string(), 1, 1),
            ("a".to_string(), 1, 2),
            ("b".to_string(), 0, 0)
        ]
    );
    assert_eq!(
        &allocator.value_buffer[..builder.size],
        &[0x02, 0x03, 0x01, 0x01, 0x00, 0x01, 0x02, 0x00, 0x03, 0, 0, 0]
    );
    // also where the header finds no room
    let mut builder = VariantBuilder::new(4);
    builder.write_bytes(&mut allocator, &[0, 0]).unwrap();
    let mut fields = vec![entry("z", 0, 0), entry("y", 1, 1)];
    assert_eq!(
        builder.finish_writing_object(&mut allocator, 0, &mut fields),
        Err(VariantError::SizeLimitExceeded)
    );
    assert_eq!(
        triples(&fields),
        vec![("y".to_string(), 1, 1), ("z".to_string(), 0, 0)]
    );
    assert_eq!(builder.size, 2);
}

#[test]
fn an_encode_that_stops_leaves_the_cursor_where_it_stopped() {
    let mut allocator = buffers(1, 1);
    let mut builder = VariantBuilder::new(64);
    builder.append_null(&mut allocator).unwrap();
    // a scalar that cannot be written leaves the cursor where it was
    assert_eq!(
        builder.build(&mut allocator, &JsonValue::Number("twelve".to_string())),
        Err(VariantError::NumberUnparseable)
    );
    assert_eq!(builder.size, 1);
    assert_eq!(&allocator.value_buffer[..1], &[0x00]);
    // in a container the cursor stands behind the children that were written
    let json = JsonValue::Array(vec![
        JsonValue::Number("1".to_string()),
        JsonValue::Object(vec![(
            "k".to_string(),
            JsonValue::String("x".to_string()),
        )]),
        JsonValue::Number("nope".to_string()),
        JsonValue::Null,
    ]);
    assert_eq!(
        builder.build(&mut allocator, &json),
        Err(VariantError::NumberUnparseable)
    );
    assert_eq!(builder.size, 1 + 2 + 7);
    assert_eq!(
        &allocator.value_buffer[..builder.size],
        &[0x00, 0x0C, 0x01, 0x02, 0x01, 0x00, 0x00, 0x02, 0x05, b'x']
    );
    assert_eq!(builder.dictionary.entries(), vec![("k".to_string(), 0)]);
    // the header of a container that finds no room leaves the children written
    let mut builder = VariantBuilder::new(4);
    let json = JsonValue::Array(vec![
        JsonValue::Null,
        JsonValue::Null,
    ]);
    assert_eq!(
        builder.build(&mut allocator, &json),
        Err(VariantError::SizeLimitExceeded)
    );
    assert_eq!(builder.size, 2);
    assert_eq!(&allocator.value_buffer[..2], &[0x00, 0x00]);
}
