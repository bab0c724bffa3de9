//! Tests of the binary container codec: interning tables, block framing,
//! attribute records, and the text round trip.
use tsg::{Attribute, BTSGCompressor, BTSGDecompressor, BTSGError, Block, StringDictionary};

fn v(s: &str) -> Vec<u8> {
    s.as_bytes().to_vec()
}

#[test]
fn test_string_dictionary() {
    let mut dict = StringDictionary::new();
    let id1 = dict.add(&v("hello"));
    let id2 = dict.add(&v("world"));
    let id3 = dict.add(&v("hello"));
    assert_eq!(id1, 0);
    assert_eq!(id2, 1);
    assert_eq!(id3, 0);
    assert_eq!(dict.str_of(id1).unwrap(), &v("hello"));
    assert_eq!(dict.str_of(id2).unwrap(), &v("world"));
    assert_eq!(dict.id_of(&v("hello")).unwrap(), id1);
    assert_eq!(dict.id_of(&v("world")).unwrap(), id2);
    assert_eq!(dict.id_of(&v("unknown")), None);

    let mut buffer: Vec<u8> = Vec::new();
    dict.write_to(&mut buffer).unwrap();
    let (loaded, used) = StringDictionary::read_from(&buffer, 0).unwrap();
    assert_eq!(used, buffer.len());
    assert_eq!(loaded.str_of(id1).unwrap(), &v("hello"));
    assert_eq!(loaded.str_of(id2).unwrap(), &v("world"));
    assert_eq!(loaded.id_of(&v("hello")).unwrap(), id1);
    assert_eq!(loaded.id_of(&v("world")).unwrap(), id2);
}

#[test]
fn lib_test_string_dictionary() {
    // The same interning behaviour exercised through fresh tables.
    let mut dict = StringDictionary::new();
    assert_eq!(dict.add(&v("hello")), 0);
    assert_eq!(dict.add(&v("world")), 1);
    assert_eq!(dict.add(&v("hello")), 0);
    assert_eq!(dict.next_id, 2);
}

#[test]
fn test_block_serialization() {
    let data = b"test data".to_vec();
    let block = Block::new(0x01, data.clone());
    let mut buffer: Vec<u8> = Vec::new();
    block.write_to(&mut buffer).unwrap();
    let (loaded, used) = Block::read_from(&buffer, 0).unwrap();
    assert_eq!(used, buffer.len());
    assert_eq!(loaded.block_type, 0x01);
    assert_eq!(loaded.data, data);
}

#[test]
fn lib_test_block_serialization() {
    let block = Block::new(0x04, vec![1, 2, 3]);
    let mut buffer: Vec<u8> = Vec::new();
    block.write_to(&mut buffer).unwrap();
    assert_eq!(buffer.len(), 5 + 3);
    let (loaded, _) = Block::read_from(&buffer, 0).unwrap();
    assert_eq!(loaded.block_type, 0x04);
    assert_eq!(loaded.data, vec![1, 2, 3]);
}

const ROUND_TRIP_TEXT: &str =
    "H\tTSG\t1.0\nG\tg1\nN\tn1\tchr1:+:1000-2000\tread1:SO\nE\te1\tn1\tn2\tchr1,chr1,2000,3000,splice\n";

#[test]
fn test_round_trip_multiset() {
    // Encoding a well-formed document and decoding it back yields the
    // same multiset of record lines.
    let mut compressor = BTSGCompressor::new(3);
    let encoded = compressor.compress(&v(ROUND_TRIP_TEXT)).unwrap();
    let mut decompressor = BTSGDecompressor::new();
    let decoded = decompressor.decompress_to_string(&encoded).unwrap();
    let decoded_text = String::from_utf8(decoded).unwrap();
    let mut original_lines: Vec<&str> = ROUND_TRIP_TEXT.lines().collect();
    let mut round_lines: Vec<&str> = decoded_text.lines().collect();
    original_lines.sort();
    round_lines.sort();
    assert_eq!(original_lines, round_lines);
}

#[test]
fn test_round_trip_order_preserved() {
    // For a document already in canonical record order the round trip
    // returns the very same line sequence, not merely the same multiset.
    let mut compressor = BTSGCompressor::new(3);
    let encoded = compressor.compress(&v(ROUND_TRIP_TEXT)).unwrap();
    let mut decompressor = BTSGDecompressor::new();
    let decoded = decompressor.decompress_to_string(&encoded).unwrap();
    let decoded_text = String::from_utf8(decoded).unwrap();
    let original_lines: Vec<&str> = ROUND_TRIP_TEXT.lines().collect();
    let round_lines: Vec<&str> = decoded_text.lines().collect();
    assert_eq!(original_lines, round_lines);
}

#[test]
fn test_round_trip_two_sections() {
    let text = "H\tTSG\t1.0\nG\tg1\nN\tn1\tchr1:+:1-2\tr1:SO\nE\te1\tn1\tn2\tchr1,chr1,2,3,splice\nG\tg2\nN\tn3\tchr2:+:5-6\tr2:SO\nA\tN\tn3\tptc:i:1\n";
    let mut compressor = BTSGCompressor::new(3);
    let encoded = compressor.compress(&v(text)).unwrap();
    let mut decompressor = BTSGDecompressor::new();
    let decoded = decompressor.decompress_to_string(&encoded).unwrap();
    let decoded_text = String::from_utf8(decoded).unwrap();
    let mut original_lines: Vec<&str> = text.lines().collect();
    let mut round_lines: Vec<&str> = decoded_text.lines().collect();
    original_lines.sort();
    round_lines.sort();
    assert_eq!(original_lines, round_lines);
}

#[test]
fn test_wrong_magic_rejected() {
    let mut decompressor = BTSGDecompressor::new();
    let data = b"NOPE\x01\x00\x00\x00rest".to_vec();
    let r = decompressor.decompress_to_string(&data);
    assert!(matches!(r, Err(BTSGError::InvalidFormat(_))));
}

#[test]
fn test_wrong_version_rejected() {
    let mut compressor = BTSGCompressor::new(3);
    let mut encoded = compressor.compress(&v(ROUND_TRIP_TEXT)).unwrap();
    // Bump the little-endian version field.
    encoded[4] = 2;
    let mut decompressor = BTSGDecompressor::new();
    let r = decompressor.decompress_to_string(&encoded);
    assert!(matches!(r, Err(BTSGError::InvalidFormat(_))));
}

#[test]
fn test_truncated_stream_rejected() {
    let mut compressor = BTSGCompressor::new(3);
    let mut encoded = compressor.compress(&v(ROUND_TRIP_TEXT)).unwrap();
    encoded.truncate(encoded.len() - 1);
    let mut decompressor = BTSGDecompressor::new();
    let r = decompressor.decompress_to_string(&encoded);
    assert!(matches!(r, Err(BTSGError::Io(_))));
}

#[test]
fn test_block_size_ceiling() {
    // A block declaring a length above the ceiling is rejected as a
    // format error before the decoder tries to use it.
    let mut data = b"BTSG\x01\x00\x00\x00".to_vec();
    data.push(0x01);
    // A little-endian length far above the 100 MB ceiling.
    data.extend_from_slice(&[0xff, 0xff, 0xff, 0x7f]);
    data.extend_from_slice(&[0u8; 16]);
    let mut decompressor = BTSGDecompressor::new();
    let r = decompressor.decompress_to_string(&data);
    assert!(matches!(r, Err(BTSGError::InvalidFormat(_))));
}

#[test]
fn test_unknown_block_skipped() {
    let mut compressor = BTSGCompressor::new(3);
    let mut encoded = compressor.compress(&v(ROUND_TRIP_TEXT)).unwrap();
    // Append a block of an unknown type: four payload bytes.
    encoded.push(0x7f);
    encoded.extend_from_slice(&[4, 0, 0, 0]);
    encoded.extend_from_slice(&[9, 9, 9, 9]);
    let mut decompressor = BTSGDecompressor::new();
    let decoded = decompressor.decompress_to_string(&encoded).unwrap();
    let decoded_text = String::from_utf8(decoded).unwrap();
    let mut original_lines: Vec<&str> = ROUND_TRIP_TEXT.lines().collect();
    let mut round_lines: Vec<&str> = decoded_text.lines().collect();
    original_lines.sort();
    round_lines.sort();
    assert_eq!(original_lines, round_lines);
}

#[test]
fn test_from_btsg_bytes() {
    let mut compressor = BTSGCompressor::new(3);
    let encoded = compressor.compress(&v(ROUND_TRIP_TEXT)).unwrap();
    let graph = tsg::from_btsg(&encoded).unwrap();
    let gid = v("g1");
    assert_eq!(graph.graph(&gid).unwrap().nodes().len(), 2);
    assert_eq!(graph.graph(&gid).unwrap().edges().len(), 1);
}

#[test]
fn test_to_btsg_bytes() {
    // Both edge endpoints are declared, so the serialized text parses
    // back without placeholder records.
    let text = "H\tTSG\t1.0\nG\tg1\nN\tn1\tchr1:+:1000-2000\tread1:SO\nN\tn2\tchr1:+:2500-3000\tread1:SI\nE\te1\tn1\tn2\tchr1,chr1,2000,3000,splice\n";
    let graph = tsg::TSGraph::from_text(&v(text)).unwrap();
    let encoded = tsg::to_btsg(&graph, 3).unwrap();
    let again = tsg::from_btsg(&encoded).unwrap();
    let gid = v("g1");
    assert_eq!(again.graph(&gid).unwrap().nodes().len(), 2);
    assert_eq!(again.graph(&gid).unwrap().edges().len(), 1);
}

#[test]
fn test_attribute_from_str_valid() {
    let attr = Attribute::parse(&v("ptc:i:1")).unwrap();
    assert_eq!(attr.tag, v("ptc"));
    assert_eq!(attr.attribute_type, b'i');
    assert_eq!(attr.value, v("1"));

    let attr = Attribute::parse(&v("ptf:f:0.5")).unwrap();
    assert_eq!(attr.tag, v("ptf"));
    assert_eq!(attr.attribute_type, b'f');
    assert_eq!(attr.value, v("0.5"));

    let attr = Attribute::parse(&v("name:Z:test_value")).unwrap();
    assert_eq!(attr.tag, v("name"));
    assert_eq!(attr.attribute_type, b'Z');
    assert_eq!(attr.value, v("test_value"));

    let attr = Attribute::parse(&v("data:J:{\"key\":\"value\"}")).unwrap();
    assert_eq!(attr.tag, v("data"));
    assert_eq!(attr.attribute_type, b'J');
    assert_eq!(attr.value, v("{\"key\":\"value\"}"));
}

#[test]
fn test_attribute_from_str_invalid_format() {
    assert!(Attribute::parse(&v("ptc:i")).is_err());
    assert!(Attribute::parse(&v("ptc")).is_err());
}

#[test]
fn test_attribute_from_str_invalid_type() {
    assert!(Attribute::parse(&v("ptc:x:1")).is_err());
}

#[test]
fn test_attribute_as_int() {
    let attr = Attribute {
        tag: v("ptc"),
        attribute_type: b'i',
        value: v("42"),
    };
    assert_eq!(attr.as_int().unwrap(), 42);

    let attr = Attribute {
        tag: v("ptc"),
        attribute_type: b'f',
        value: v("42"),
    };
    assert!(attr.as_int().is_err());

    let attr = Attribute {
        tag: v("ptc"),
        attribute_type: b'i',
        value: v("not_a_number"),
    };
    assert!(attr.as_int().is_err());
}

#[test]
fn test_attribute_as_int_negative() {
    let attr = Attribute {
        tag: v("ptc"),
        attribute_type: b'i',
        value: v("-17"),
    };
    assert_eq!(attr.as_int().unwrap(), -17);
}

#[test]
fn test_attribute_as_string() {
    let attr = Attribute {
        tag: v("name"),
        attribute_type: b'Z',
        value: v("test_value"),
    };
    assert_eq!(attr.as_string().unwrap(), &v("test_value"));

    let attr = Attribute {
        tag: v("name"),
        attribute_type: b'i',
        value: v("test_value"),
    };
    assert!(attr.as_string().is_err());
}

#[test]
fn test_attribute_display() {
    let attr = Attribute {
        tag: v("ptc"),
        attribute_type: b'i',
        value: v("1"),
    };
    assert_eq!(attr.to_bytes(), v("ptc:i:1"));

    let attr = Attribute {
        tag: v("ptf"),
        attribute_type: b'f',
        value: v("0.5"),
    };
    assert_eq!(attr.to_bytes(), v("ptf:f:0.5"));
}
