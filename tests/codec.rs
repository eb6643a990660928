use cairn::document::{decode_document, decode_map, encode_document, encode_map, MAGIC};
use cairn::element::{decode_element, encode_element, insert_attribute, is_metadata_key, DecodedElement};
use cairn::error::CodecError;
use cairn::primitive::{
    encode_run_length, read_run_length_encoded, read_string, read_u16_le, read_u32_le, read_u8,
    read_var_length, write_string, write_u16_le, write_u32_le, write_var_length,
};
use cairn::value::{decode_value, encode_value, find_string, Value};

fn varuint(n: u32) -> Vec<u8> {
    let mut out = Vec::new();
    write_var_length(&mut out, n);
    out
}

fn encoded_value(v: &Value, table: &[String]) -> Result<Vec<u8>, CodecError> {
    let mut out = Vec::new();
    encode_value(&mut out, "k", v, table).map(|_| out)
}

fn sample_map() -> DecodedElement {
    let mut root = DecodedElement::new("Map");
    insert_attribute(&mut root.attributes, "package".to_string(), Value::Str("Strawberry1".to_string()));
    insert_attribute(&mut root.attributes, "width".to_string(), Value::Int(320));
    let mut child = DecodedElement::new("Background");
    insert_attribute(&mut child.attributes, "color".to_string(), Value::Str("00000000ffffff".to_string()));
    root.children = Some(vec![child]);
    root
}

#[test]
fn varuint_small_values() {
    assert_eq!(varuint(0), vec![0]);
    assert_eq!(varuint(127), vec![0x7F]);
    assert_eq!(varuint(128), vec![0x80, 0x01]);
    assert_eq!(varuint(300), vec![0xAC, 0x02]);
}

#[test]
fn varuint_round_trip_values() {
    for n in [0u32, 1, 127, 128, 16383, 16384, 2097151, 2097152, 268435455, 268435456, u32::MAX] {
        let bytes = varuint(n);
        assert!(bytes.len() <= 5);
        assert_eq!(read_var_length(&bytes, 0), Ok((n, bytes.len())));
    }
}

#[test]
fn varuint_errors() {
    assert_eq!(read_var_length(&[0x80], 0), Err(CodecError::UnexpectedEnd));
    assert_eq!(read_var_length(&[], 0), Err(CodecError::UnexpectedEnd));
    assert_eq!(read_var_length(&[0x80, 0x80, 0x80, 0x80, 0x80, 0x01], 0), Err(CodecError::VarintOverflow));
    assert_eq!(read_var_length(&[0xFF, 0xFF, 0xFF, 0xFF, 0x1F], 0), Err(CodecError::VarintOverflow));
    assert_eq!(read_var_length(&[0xFF, 0xFF, 0xFF, 0xFF, 0x0F], 0), Ok((u32::MAX, 5)));
}

#[test]
fn fixed_width_integers() {
    let mut out = Vec::new();
    write_u16_le(&mut out, 0x1234);
    write_u32_le(&mut out, 0xDEADBEEF);
    assert_eq!(out, vec![0x34, 0x12, 0xEF, 0xBE, 0xAD, 0xDE]);
    assert_eq!(read_u16_le(&out, 0), Ok((0x1234, 2)));
    assert_eq!(read_u32_le(&out, 2), Ok((0xDEADBEEF, 6)));
    assert_eq!(read_u8(&out, 5), Ok((0xDE, 6)));
    assert_eq!(read_u8(&out, 6), Err(CodecError::UnexpectedEnd));
    assert_eq!(read_u32_le(&out, 3), Err(CodecError::UnexpectedEnd));
}

#[test]
fn string_round_trip() {
    let mut out = Vec::new();
    write_string(&mut out, "héllo wörld").unwrap();
    assert_eq!(out[0], 13);
    let (s, next) = read_string(&out, 0).unwrap();
    assert_eq!(s, "héllo wörld");
    assert_eq!(next, out.len());
}

#[test]
fn string_errors() {
    assert_eq!(read_string(&[3, b'a', b'b'], 0), Err(CodecError::UnexpectedEnd));
    assert_eq!(read_string(&[2, 0xC3, 0x28], 0), Err(CodecError::InvalidUtf8));
}

#[test]
fn run_length_examples() {
    assert_eq!(encode_run_length(""), Some(vec![]));
    assert_eq!(encode_run_length("aaa"), Some(vec![3, b'a']));
    assert_eq!(encode_run_length("aab"), Some(vec![2, b'a', 1, b'b']));
    assert_eq!(encode_run_length("日本"), None);
    assert_eq!(encode_run_length("é"), Some(vec![1, 0xE9]));
    let long = "x".repeat(300);
    assert_eq!(encode_run_length(&long), Some(vec![255, b'x', 45, b'x']));
}

#[test]
fn run_length_round_trip() {
    for s in ["", "a", "aaabbbcccd", "00000000ffffff", "ééééx", &"z".repeat(600)] {
        let payload = encode_run_length(s).unwrap();
        let mut bytes = (payload.len() as u16).to_le_bytes().to_vec();
        bytes.extend_from_slice(&payload);
        let (back, next) = read_run_length_encoded(&bytes, 0).unwrap();
        assert_eq!(back, s);
        assert_eq!(next, bytes.len());
    }
}

#[test]
fn run_length_errors() {
    assert_eq!(read_run_length_encoded(&[3, 0, 1, b'a', 2], 0), Err(CodecError::OddRunLength));
    assert_eq!(read_run_length_encoded(&[4, 0, 1, b'a'], 0), Err(CodecError::UnexpectedEnd));
}

#[test]
fn integer_tag_boundaries() {
    assert_eq!(encoded_value(&Value::Int(255), &[]), Ok(vec![1, 255]));
    assert_eq!(encoded_value(&Value::Int(256), &[]), Ok(vec![2, 0x00, 0x01]));
    assert_eq!(encoded_value(&Value::Int(32767), &[]), Ok(vec![2, 0xFF, 0x7F]));
    assert_eq!(encoded_value(&Value::Int(32768), &[]), Ok(vec![3, 0x00, 0x80, 0x00, 0x00]));
    assert_eq!(encoded_value(&Value::Int(-1), &[]), Ok(vec![2, 0xFF, 0xFF]));
    assert_eq!(encoded_value(&Value::Int(-32769), &[]), Ok(vec![3, 0xFF, 0x7F, 0xFF, 0xFF]));
    assert_eq!(encoded_value(&Value::Int(1 << 40), &[]), Err(CodecError::NumberOutOfRange));
}

#[test]
fn other_value_tags() {
    assert_eq!(encoded_value(&Value::Bool(true), &[]), Ok(vec![0, 1]));
    let bits = 1.5f32.to_bits();
    let mut expected = vec![4];
    expected.extend_from_slice(&bits.to_le_bytes());
    assert_eq!(encoded_value(&Value::Float(bits), &[]), Ok(expected));
    assert_eq!(encoded_value(&Value::Float(f32::INFINITY.to_bits()), &[]), Err(CodecError::NumberOutOfRange));
    assert_eq!(encoded_value(&Value::Null, &[]), Err(CodecError::UnsupportedValue));
    assert_eq!(encoded_value(&Value::Unsupported, &[]), Err(CodecError::UnsupportedValue));
    assert_eq!(encoded_value(&Value::Str("abc".to_string()), &[]), Ok(vec![6, 3, b'a', b'b', b'c']));
    assert_eq!(encoded_value(&Value::Str("aaaa".to_string()), &[]), Ok(vec![7, 2, 0, 4, b'a']));
}

#[test]
fn table_index_has_priority() {
    let table = vec!["x".to_string(), "aaaaaaaaaa".to_string()];
    assert_eq!(encoded_value(&Value::Str("aaaaaaaaaa".to_string()), &table), Ok(vec![5, 1, 0]));
    assert_eq!(find_string(&table, &"x".to_string()), Some(0));
    assert_eq!(find_string(&table, &"y".to_string()), None);
}

#[test]
fn value_decoding() {
    let table = vec!["name".to_string()];
    assert_eq!(decode_value(0, &table, &[2], 0), Ok((Value::Bool(true), 1)));
    assert_eq!(decode_value(1, &table, &[200], 0), Ok((Value::Int(200), 1)));
    assert_eq!(decode_value(2, &table, &[0xFE, 0xFF], 0), Ok((Value::Int(-2), 2)));
    assert_eq!(decode_value(3, &table, &[0, 0, 0, 0x80], 0), Ok((Value::Int(-2147483648), 4)));
    let nan = f32::NAN.to_bits().to_le_bytes();
    assert_eq!(decode_value(4, &table, &nan, 0), Ok((Value::Null, 4)));
    let inf = f32::NEG_INFINITY.to_bits().to_le_bytes();
    assert_eq!(decode_value(4, &table, &inf, 0), Ok((Value::Null, 4)));
    let one = 1.0f32.to_bits();
    assert_eq!(decode_value(4, &table, &one.to_le_bytes(), 0), Ok((Value::Float(one), 4)));
    assert_eq!(decode_value(5, &table, &[0, 0], 0), Ok((Value::Str("name".to_string()), 2)));
    assert_eq!(decode_value(5, &table, &[1, 0], 0), Err(CodecError::InvalidIndex));
    assert_eq!(decode_value(7, &table, &[2, 0, 3, b'q'], 0), Ok((Value::Str("qqq".to_string()), 4)));
    assert_eq!(decode_value(8, &table, &[0], 0), Err(CodecError::UnknownTag));
}

#[test]
fn metadata_keys() {
    assert!(is_metadata_key("__name"));
    assert!(is_metadata_key("__"));
    assert!(!is_metadata_key("_x"));
    assert!(!is_metadata_key("package"));
}

#[test]
fn element_skips_metadata_and_null() {
    let mut e = DecodedElement::new("n");
    insert_attribute(&mut e.attributes, "__meta".to_string(), Value::Unsupported);
    insert_attribute(&mut e.attributes, "gone".to_string(), Value::Null);
    insert_attribute(&mut e.attributes, "k".to_string(), Value::Bool(false));
    let mut table = Vec::new();
    e.collect_keys(&mut table);
    assert_eq!(table, vec!["n".to_string(), "gone".to_string(), "k".to_string()]);
    let mut out = Vec::new();
    encode_element(&mut out, &e, &table).unwrap();
    assert_eq!(out, vec![0, 0, 1, 2, 0, 0, 0, 0, 0]);
    let (back, next) = decode_element(&out, 0, &table).unwrap();
    assert_eq!(next, out.len());
    assert_eq!(back.name, "n");
    assert_eq!(back.attributes, vec![("k".to_string(), Value::Bool(false))]);
    assert_eq!(back.children, None);
}

#[test]
fn element_errors() {
    let e = DecodedElement::new("missing");
    let mut out = Vec::new();
    assert_eq!(encode_element(&mut out, &e, &[]), Err(CodecError::MissingTableEntry));
    let mut wide = DecodedElement::new("w");
    for i in 0..256 {
        insert_attribute(&mut wide.attributes, format!("a{}", i), Value::Int(i));
    }
    let mut table = Vec::new();
    wide.collect_keys(&mut table);
    assert_eq!(encode_element(&mut out, &wide, &table), Err(CodecError::TooManyAttributes));
    assert_eq!(decode_element(&[5, 0, 0, 0, 0], 0, &table[..1]), Err(CodecError::InvalidIndex));
}

#[test]
fn duplicate_keys_overwrite() {
    let table = vec!["e".to_string(), "k".to_string()];
    let bytes = [0, 0, 2, 1, 0, 1, 7, 1, 0, 1, 9, 0, 0];
    let (e, _) = decode_element(&bytes, 0, &table).unwrap();
    assert_eq!(e.attributes, vec![("k".to_string(), Value::Int(9))]);
}

#[test]
fn empty_child_block_reads_as_absent() {
    let table = vec!["e".to_string()];
    let mut with_empty = DecodedElement::new("e");
    with_empty.children = Some(vec![]);
    let mut out = Vec::new();
    encode_element(&mut out, &with_empty, &table).unwrap();
    assert_eq!(out, vec![0, 0, 0, 0, 0]);
    let (back, _) = decode_element(&out, 0, &table).unwrap();
    assert_eq!(back.children, None);
}

#[test]
fn end_to_end_map() {
    let bytes = encode_map(sample_map()).unwrap();
    assert_eq!(&bytes[..12], &[11, b'C', b'E', b'L', b'E', b'S', b'T', b'E', b' ', b'M', b'A', b'P']);
    assert_eq!(&bytes[12..24], &[11, b'S', b't', b'r', b'a', b'w', b'b', b'e', b'r', b'r', b'y', b'1']);
    assert_eq!(&bytes[24..26], &[7, 0]);
    let decoded = decode_map(&bytes).unwrap();
    assert_eq!(decoded.name, "Map");
    assert!(decoded.attributes.contains(&("width".to_string(), Value::Int(320))));
    assert!(decoded.attributes.contains(&("package".to_string(), Value::Str("Strawberry1".to_string()))));
    let kids = decoded.children.as_ref().unwrap();
    assert_eq!(kids.len(), 1);
    assert_eq!(kids[0].name, "Background");
    assert_eq!(kids[0].attributes, vec![("color".to_string(), Value::Str("00000000ffffff".to_string()))]);
    let again = encode_map(decoded).unwrap();
    assert_eq!(again, bytes);
}

#[test]
fn document_without_package_attribute() {
    let (pkg, root) = decode_document(&encode_document("P", &DecodedElement::new("R")).unwrap()).unwrap();
    assert_eq!(pkg, "P");
    assert_eq!(root.name, "R");
    assert_eq!(encode_map(DecodedElement::new("R")), Err(CodecError::MissingPackage));
    let mut bad = DecodedElement::new("R");
    insert_attribute(&mut bad.attributes, "package".to_string(), Value::Int(3));
    assert_eq!(encode_map(bad), Err(CodecError::MissingPackage));
}

#[test]
fn bad_magic() {
    let mut bytes = Vec::new();
    write_string(&mut bytes, "CELESTE MAQ").unwrap();
    assert_eq!(decode_map(&bytes), Err(CodecError::BadMagic));
    assert_eq!(MAGIC, "CELESTE MAP");
}

#[test]
fn truncation_always_fails() {
    let bytes = encode_map(sample_map()).unwrap();
    for cut in 0..bytes.len() {
        assert_eq!(decode_map(&bytes[..cut]).err(), Some(CodecError::UnexpectedEnd), "cut at {}", cut);
    }
    assert!(decode_map(&bytes).is_ok());
}

#[test]
fn error_messages() {
    assert_eq!(CodecError::BadMagic.message(), "invalid Celeste map file");
    assert_eq!(CodecError::MissingPackage.message(), "missing package attribute");
}

#[test]
fn failed_encode_leaves_buffer_unchanged() {
    let mut out = vec![9u8, 9];
    assert_eq!(encode_value(&mut out, "k", &Value::Null, &[]), Err(CodecError::UnsupportedValue));
    assert_eq!(out, vec![9, 9]);
    let table = vec!["n".to_string(), "a".to_string(), "b".to_string()];
    let mut e = DecodedElement::new("n");
    insert_attribute(&mut e.attributes, "a".to_string(), Value::Int(1));
    insert_attribute(&mut e.attributes, "b".to_string(), Value::Int(1 << 40));
    assert_eq!(encode_element(&mut out, &e, &table), Err(CodecError::NumberOutOfRange));
    assert_eq!(out, vec![9, 9]);
    let missing = DecodedElement::new("zzz");
    assert_eq!(encode_element(&mut out, &missing, &table), Err(CodecError::MissingTableEntry));
    assert_eq!(out, vec![9, 9]);
}

#[test]
fn map_table_includes_package_strings() {
    let bytes = encode_map(sample_map()).unwrap();
    let (pkg, root) = decode_document(&bytes).unwrap();
    assert_eq!(pkg, "Strawberry1");
    assert!(!root.attributes.iter().any(|(k, _)| k == "package"));
    let mut expected = Vec::new();
    write_string(&mut expected, "CELESTE MAP").unwrap();
    write_string(&mut expected, "Strawberry1").unwrap();
    write_u16_le(&mut expected, 7);
    for s in ["Map", "package", "Strawberry1", "width", "Background", "color", "00000000ffffff"] {
        write_string(&mut expected, s).unwrap();
    }
    assert_eq!(&bytes[..expected.len()], &expected[..]);
}
