use variant::json::json_to_variant;
use variant::memory_allocator::SampleMemoryAllocator;

fn encoded(json: &str) -> (Vec<u8>, Vec<u8>) {
    let mut allocator = SampleMemoryAllocator {
        value_buffer: vec![0u8; 1].into_boxed_slice(),
        metadata_buffer: vec![0u8; 1].into_boxed_slice(),
    };
    let mut value_size = 0usize;
    let mut metadata_size = 0usize;
    json_to_variant(json, &mut allocator, &mut value_size, &mut metadata_size).unwrap();
    (
        allocator.value_buffer[..value_size].to_vec(),
        allocator.metadata_buffer[..metadata_size].to_vec(),
    )
}

fn read_le(bytes: &[u8]) -> usize {
    let mut value = 0usize;
    for (i, byte) in bytes.iter().enumerate() {
        value |= (*byte as usize) << (8 * i);
    }
    value
}

fn least_width(value: usize) -> usize {
    if value <= 255 {
        1
    } else if value <= 65535 {
        2
    } else {
        3
    }
}

/// The names of the metadata, by id, checked against its header on the way.
fn names_of(metadata: &[u8]) -> Vec<Vec<u8>> {
    let header = metadata[0];
    assert_eq!(header & 0b1111, 1);
    assert_eq!(header & 0b0011_0000, 0);
    let width = ((header >> 6) + 1) as usize;
    let count = read_le(&metadata[1..1 + width]);
    let offsets: Vec<usize> = (0..=count)
        .map(|i| read_le(&metadata[1 + width + i * width..1 + width + (i + 1) * width]))
        .collect();
    let heap = &metadata[1 + width * (count + 2)..];
    assert_eq!(offsets[0], 0);
    assert_eq!(offsets[count], heap.len());
    assert_eq!(width, least_width(count.max(heap.len())));
    let names: Vec<Vec<u8>> = (0..count)
        .map(|i| {
            assert!(offsets[i] <= offsets[i + 1]);
            heap[offsets[i]..offsets[i + 1]].to_vec()
        })
        .collect();
    for i in 0..count {
        for j in 0..i {
            assert_ne!(names[i], names[j]);
        }
    }
    names
}

/// A value read back from its bytes.
#[derive(Debug, PartialEq)]
enum Read {
    Primitive(u8, Vec<u8>),
    ShortString(Vec<u8>),
    Array(Vec<Read>),
    Object(Vec<(Vec<u8>, Read)>),
}

/// Reads the value that starts at the beginning of `bytes`, checks the
/// widths and the offsets in its header, and returns it with its size.
fn read_value(bytes: &[u8], names: &[Vec<u8>]) -> (Read, usize) {
    let header = bytes[0];
    match header & 0b11 {
        0 => {
            let typ = header >> 2;
            let size = match typ {
                0 | 1 | 2 => 0,
                3 => 1,
                4 => 2,
                5 => 4,
                6 | 7 => 8,
                8 => 5,
                9 => 9,
                10 => 17,
                16 => 4 + read_le(&bytes[1..5]),
                other => panic!("no such primitive: {}", other),
            };
            (Read::Primitive(typ, bytes[1..1 + size].to_vec()), 1 + size)
        }
        1 => {
            let size = (header >> 2) as usize;
            (Read::ShortString(bytes[1..1 + size].to_vec()), 1 + size)
        }
        3 => {
            let width = (((header >> 2) & 0b11) + 1) as usize;
            let large = header >> 4 == 1;
            assert!(header >> 4 <= 1);
            let count_size = if large { 4 } else { 1 };
            let count = read_le(&bytes[1..1 + count_size]);
            assert_eq!(large, count > 255);
            let table = 1 + count_size;
            let offsets: Vec<usize> = (0..=count)
                .map(|i| read_le(&bytes[table + i * width..table + (i + 1) * width]))
                .collect();
            let data = table + (count + 1) * width;
            assert_eq!(width, least_width(offsets[count]));
            let mut items = Vec::new();
            for i in 0..count {
                assert!(offsets[i] <= offsets[i + 1]);
                let (item, size) = read_value(&bytes[data + offsets[i]..], names);
                assert_eq!(offsets[i] + size, offsets[i + 1]);
                items.push(item);
            }
            if count == 0 {
                assert_eq!(offsets[0], 0);
            }
            (Read::Array(items), data + offsets[count])
        }
        _ => {
            let offset_width = (((header >> 2) & 0b11) + 1) as usize;
            let id_width = (((header >> 4) & 0b11) + 1) as usize;
            let large = header >> 6 == 1;
            let count_size = if large { 4 } else { 1 };
            let count = read_le(&bytes[1..1 + count_size]);
            assert_eq!(large, count > 255);
            let id_table = 1 + count_size;
            let ids: Vec<usize> = (0..count)
                .map(|i| read_le(&bytes[id_table + i * id_width..id_table + (i + 1) * id_width]))
                .collect();
            let offset_table = id_table + count * id_width;
            let offsets: Vec<usize> = (0..=count)
                .map(|i| {
                    read_le(
                        &bytes[offset_table + i * offset_width..offset_table + (i + 1) * offset_width],
                    )
                })
                .collect();
            let data = offset_table + (count + 1) * offset_width;
            let data_size = offsets[count];
            assert_eq!(offset_width, least_width(data_size));
            assert_eq!(id_width, least_width(ids.iter().copied().max().unwrap_or(0)));
            let mut members = Vec::new();
            let mut sizes = 0;
            for i in 0..count {
                assert!(ids[i] < names.len());
                if i > 0 {
                    assert!(names[ids[i - 1]] <= names[ids[i]]);
                }
                let (value, size) = read_value(&bytes[data + offsets[i]..], names);
                assert!(offsets[i] + size <= data_size);
                sizes += size;
                members.push((names[ids[i]].clone(), value));
            }
            assert_eq!(sizes, data_size);
            (Read::Object(members), data + data_size)
        }
    }
}

fn read_back(json: &str) -> Read {
    let (value, metadata) = encoded(json);
    let names = names_of(&metadata);
    let (read, size) = read_value(&value, &names);
    // the size that is handed out is the size of the root value
    assert_eq!(size, value.len());
    read
}

fn int1(value: u8) -> Read {
    Read::Primitive(3, vec![value])
}

#[test]
fn the_value_size_is_the_size_of_the_root_value() {
    read_back("null");
    read_back("[[], [[]], {\"a\": []}]");
    read_back("{\"a\": {\"b\": {\"c\": [1, 2.5, \"three\", null]}}}");
}

#[test]
fn the_low_two_bits_say_what_a_value_is() {
    for (json, basic) in [
        ("null", 0u8),
        ("true", 0),
        ("false", 0),
        ("7", 0),
        ("7.5", 0),
        ("7e5", 0),
        ("\"\"", 1),
        ("\"short\"", 1),
        ("{}", 2),
        ("{\"a\": 1}", 2),
        ("[]", 3),
        ("[1]", 3),
    ] {
        assert_eq!(encoded(json).0[0] & 0b11, basic, "{}", json);
    }
    let long = format!("\"{}\"", "s".repeat(64));
    assert_eq!(encoded(&long).0[0] & 0b11, 0);
    let short = format!("\"{}\"", "s".repeat(63));
    assert_eq!(encoded(&short).0[0] & 0b11, 1);
}

#[test]
fn array_offsets_grow_by_the_size_of_each_element() {
    let read = read_back("[1, \"two\", [3, 4], {\"five\": 6}, 70000]");
    assert_eq!(
        read,
        Read::Array(vec![
            int1(1),
            Read::ShortString(b"two".to_vec()),
            Read::Array(vec![int1(3), int1(4)]),
            Read::Object(vec![(b"five".to_vec(), int1(6))]),
            Read::Primitive(5, 70000i32.to_le_bytes().to_vec()),
        ])
    );
}

#[test]
fn object_fields_are_listed_in_the_order_of_their_names() {
    let read = read_back("{\"pear\": 1, \"apple\": 2, \"fig\": 3, \"apples\": 4, \"Fig\": 5}");
    assert_eq!(
        read,
        Read::Object(vec![
            (b"Fig".to_vec(), int1(5)),
            (b"apple".to_vec(), int1(2)),
            (b"apples".to_vec(), int1(4)),
            (b"fig".to_vec(), int1(3)),
            (b"pear".to_vec(), int1(1)),
        ])
    );
}

#[test]
fn names_are_ordered_by_their_bytes() {
    // in UTF-8 "z" is one byte below 0x80, "é" starts with 0xC3, "€" with 0xE2
    let read = read_back("{\"€\": 1, \"é\": 2, \"z\": 3, \"\": 4}");
    assert_eq!(
        read,
        Read::Object(vec![
            (b"".to_vec(), int1(4)),
            (b"z".to_vec(), int1(3)),
            ("é".as_bytes().to_vec(), int1(2)),
            ("€".as_bytes().to_vec(), int1(1)),
        ])
    );
}

#[test]
fn ids_lead_to_the_names_in_the_metadata() {
    let (value, metadata) = encoded("{\"second\": {\"first\": 0, \"third\": 0}, \"first\": 0}");
    let names = names_of(&metadata);
    assert_eq!(
        names,
        vec![b"second".to_vec(), b"first".to_vec(), b"third".to_vec()]
    );
    // the outer object lists "first" (id 1) before "second" (id 0)
    assert_eq!(&value[..4], &[0x02, 0x02, 0x01, 0x00]);
    read_back("{\"second\": {\"first\": 0, \"third\": 0}, \"first\": 0}");
}

#[test]
fn names_get_their_ids_in_the_order_in_which_they_are_first_met() {
    let (_, metadata) = encoded(
        "[{\"c\": 1, \"a\": {\"b\": 2, \"c\": 3}}, {\"b\": 4, \"d\": [{\"a\": 5, \"e\": 6}]}]",
    );
    assert_eq!(
        names_of(&metadata),
        vec![
            b"c".to_vec(),
            b"a".to_vec(),
            b"b".to_vec(),
            b"d".to_vec(),
            b"e".to_vec()
        ]
    );
}

#[test]
fn widths_of_a_large_object() {
    // 300 fields: a count of four bytes, ids of two bytes, offsets of two bytes
    let members: Vec<String> = (0..300).map(|i| format!("\"k{}\": null", i)).collect();
    let json = format!("{{{}}}", members.join(", "));
    let (value, metadata) = encoded(&json);
    assert_eq!(value[0], 0b0101_0110);
    assert_eq!(&value[1..5], &[0x2C, 0x01, 0x00, 0x00]);
    assert_eq!(value.len(), 1 + 4 + 300 * 2 + 301 * 2 + 300);
    let names = names_of(&metadata);
    assert_eq!(names.len(), 300);
    let mut sorted: Vec<Vec<u8>> = names.clone();
    sorted.sort();
    match read_back(&json) {
        Read::Object(members) => {
            let keys: Vec<Vec<u8>> = members.into_iter().map(|member| member.0).collect();
            assert_eq!(keys, sorted);
        }
        other => panic!("not an object: {:?}", other),
    }
    // the first field in the order of the names is "k0", the second "k1", the third "k10"
    assert_eq!(&value[5..11], &[0, 0, 1, 0, 10, 0]);
}

#[test]
fn widths_of_an_object_with_large_ids_and_few_fields() {
    // 70000 names are met before the last object, which has one field
    let members: Vec<String> = (0..70000).map(|i| format!("{{\"n{}\": 0}}", i)).collect();
    let json = format!("[{}]", members.join(", "));
    let (value, metadata) = encoded(&json);
    let names = names_of(&metadata);
    assert_eq!(names.len(), 70000);
    assert_eq!(metadata[0] >> 6, 2);
    let last = &value[value.len() - 9..];
    // ids of three bytes, offsets of one byte, one field with the id 69999
    assert_eq!(last, &[0b0010_0010, 0x01, 0x6F, 0x11, 0x01, 0x00, 0x02, 0x0C, 0x00]);
    let object_with_id_256 = [0b0001_0010u8, 0x01, 0x00, 0x01, 0x00, 0x02, 0x0C, 0x00];
    assert!(value
        .windows(object_with_id_256.len())
        .any(|window| window == object_with_id_256));
    read_back(&json);
}

#[test]
fn widths_of_the_metadata() {
    // the heap decides: one name of 256 bytes
    let json = format!("{{\"{}\": 0}}", "n".repeat(256));
    let metadata = encoded(&json).1;
    assert_eq!(metadata[0], 0b0100_0001);
    assert_eq!(&metadata[1..7], &[0x01, 0x00, 0x00, 0x00, 0x00, 0x01]);
    assert_eq!(metadata.len(), 1 + 2 * 3 + 256);
    // the count is larger than the heap only where the one name is empty
    assert_eq!(encoded("{\"\": 0}").1, vec![0x01, 0x01, 0x00, 0x00]);
    // a heap of 65536 bytes needs three
    let json = format!("{{\"{}\": 0}}", "n".repeat(65536));
    let metadata = encoded(&json).1;
    assert_eq!(metadata[0], 0b1000_0001);
    assert_eq!(&metadata[1..10], &[0x01, 0x00, 0x00, 0x00, 0x00, 0x00, 0x00, 0x00, 0x01]);
    // a heap of 65535 bytes needs two
    let json = format!("{{\"{}\": 0}}", "n".repeat(65535));
    assert_eq!(encoded(&json).1[0], 0b0100_0001);
}

#[test]
fn widths_of_arrays() {
    // 255 bytes of data: offsets of one byte
    let json = format!("[{}]", vec!["null"; 255].join(", "));
    let value = encoded(&json).0;
    assert_eq!(value[0], 0b0000_0011);
    assert_eq!(value.len(), 1 + 1 + 256 + 255);
    // 256 elements: a count of four bytes, offsets of two
    let json = format!("[{}]", vec!["null"; 256].join(", "));
    let value = encoded(&json).0;
    assert_eq!(value[0], 0b0001_0111);
    assert_eq!(&value[1..5], &[0x00, 0x01, 0x00, 0x00]);
    assert_eq!(value.len(), 1 + 4 + 257 * 2 + 256);
    // 65536 bytes of data in two elements: offsets of three bytes, a count of one
    let text = "s".repeat(32768 - 5);
    let json = format!("[\"{}\", \"{}\"]", text, text);
    let value = encoded(&json).0;
    assert_eq!(value[0], 0b0000_1011);
    assert_eq!(&value[1..11], &[0x02, 0, 0, 0, 0x00, 0x80, 0x00, 0x00, 0x00, 0x01]);
    read_back(&json);
}
