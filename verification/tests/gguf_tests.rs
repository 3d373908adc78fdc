use ferrite::gguf::{
    align_offset, ggml_type_name, parse, read_metadata_value, read_string, GGUFError,
    MetadataValue, GGUF_MAGIC,
};

fn put_str(out: &mut Vec<u8>, s: &str) {
    out.extend_from_slice(&(s.len() as u64).to_le_bytes());
    out.extend_from_slice(s.as_bytes());
}

fn header(version: u32, tensors: u64, entries: u64) -> Vec<u8> {
    let mut out = Vec::new();
    out.extend_from_slice(&GGUF_MAGIC.to_le_bytes());
    out.extend_from_slice(&version.to_le_bytes());
    out.extend_from_slice(&tensors.to_le_bytes());
    out.extend_from_slice(&entries.to_le_bytes());
    out
}

fn put_u32(out: &mut Vec<u8>, key: &str, n: u32) {
    put_str(out, key);
    out.extend_from_slice(&4u32.to_le_bytes());
    out.extend_from_slice(&n.to_le_bytes());
}

fn put_tensor(out: &mut Vec<u8>, name: &str, dims: &[u64], ggml_type: u32, offset: u64) {
    put_str(out, name);
    out.extend_from_slice(&(dims.len() as u32).to_le_bytes());
    for d in dims {
        out.extend_from_slice(&d.to_le_bytes());
    }
    out.extend_from_slice(&ggml_type.to_le_bytes());
    out.extend_from_slice(&offset.to_le_bytes());
}

fn value(tag: u32, payload: &[u8]) -> Result<(MetadataValue, usize), GGUFError> {
    let mut bytes = tag.to_le_bytes().to_vec();
    bytes.extend_from_slice(payload);
    read_metadata_value(&bytes, 0)
}

#[test]
fn an_empty_file_is_parsed() {
    let file = parse(&header(3, 0, 0)).unwrap();
    assert_eq!(file.version, 3);
    assert_eq!(file.tensor_count, 0);
    assert_eq!(file.metadata_kv_count, 0);
    assert_eq!(file.tensors.len(), 0);
    assert_eq!(file.metadata.len(), 0);
    assert_eq!(file.alignment, 32);
    // the header takes 24 bytes
    assert_eq!(file.tensor_data_start, 32);
}

#[test]
fn metadata_and_tensors_are_parsed() {
    let mut b = header(2, 2, 2);
    put_u32(&mut b, "general.alignment", 64);
    put_str(&mut b, "general.name");
    b.extend_from_slice(&8u32.to_le_bytes());
    put_str(&mut b, "na\u{ef}ve");
    put_tensor(&mut b, "first", &[3, 2], 0, 0);
    put_tensor(&mut b, "second", &[256], 12, 64);
    let end = b.len() as u64;
    let file = parse(&b).unwrap();
    assert_eq!(file.version, 2);
    assert_eq!(file.alignment, 64);
    assert_eq!(file.tensor_data_start, (end + 63) / 64 * 64);
    assert_eq!(file.metadata.get("general.name").unwrap().as_str(), Some("na\u{ef}ve"));
    assert_eq!(file.tensors[0].name, "first");
    // the outermost dimension comes first
    assert_eq!(file.tensors[0].shape, vec![2, 3]);
    assert_eq!(file.tensors[1].shape, vec![256]);
    assert_eq!(file.tensors[1].ggml_type, 12);
    assert_eq!(file.tensors[1].data_offset, 64);
    assert_eq!(file.tensors[1].file_offset, file.tensor_data_start + 64);
}

#[test]
fn what_follows_the_index_is_ignored() {
    let mut b = header(3, 1, 0);
    put_tensor(&mut b, "t", &[4], 0, 0);
    let before = parse(&b).unwrap();
    b.extend_from_slice(&[7; 100]);
    let after = parse(&b).unwrap();
    assert_eq!(before.tensor_data_start, after.tensor_data_start);
    assert_eq!(before.tensors[0].file_offset, after.tensors[0].file_offset);
}

#[test]
fn of_two_entries_with_one_key_the_later_counts() {
    let mut b = header(3, 0, 2);
    put_u32(&mut b, "k", 1);
    put_u32(&mut b, "k", 2);
    let file = parse(&b).unwrap();
    assert_eq!(file.metadata.get("k").unwrap().as_u32(), Some(2));
    assert_eq!(file.metadata.len(), 1);
}

#[test]
fn the_first_tensor_of_a_name_is_found() {
    let mut b = header(3, 3, 0);
    put_tensor(&mut b, "a", &[1], 0, 0);
    put_tensor(&mut b, "b", &[2], 1, 32);
    put_tensor(&mut b, "b", &[3], 2, 64);
    let file = parse(&b).unwrap();
    assert_eq!(file.get_tensor("b").unwrap().ggml_type, 1);
    assert!(file.get_tensor("c").is_none());
}

#[test]
fn another_magic_number_is_refused() {
    let mut b = header(3, 0, 0);
    b[0] = 0;
    assert!(matches!(parse(&b), Err(GGUFError::InvalidMagic)));
}

#[test]
fn unknown_versions_are_refused() {
    assert!(matches!(parse(&header(0, 0, 0)), Err(GGUFError::UnsupportedVersion(0))));
    assert!(matches!(parse(&header(4, 0, 0)), Err(GGUFError::UnsupportedVersion(4))));
    assert!(parse(&header(1, 0, 0)).is_ok());
}

#[test]
fn a_file_that_ends_early_is_refused() {
    let mut b = header(3, 1, 1);
    put_u32(&mut b, "k", 7);
    put_tensor(&mut b, "t", &[4], 0, 0);
    assert!(parse(&b).is_ok());
    for n in 0..b.len() {
        assert!(matches!(parse(&b[..n]), Err(GGUFError::Io)), "at {}", n);
    }
}

#[test]
fn unknown_type_tags_are_refused() {
    assert!(matches!(value(13, &[0; 16]), Err(GGUFError::UnknownMetadataType(13))));
    // also in an array
    let mut payload = 99u32.to_le_bytes().to_vec();
    payload.extend_from_slice(&1u64.to_le_bytes());
    payload.push(0);
    assert!(matches!(value(9, &payload), Err(GGUFError::UnknownMetadataType(99))));
}

#[test]
fn a_bool_is_zero_or_one() {
    assert!(matches!(value(7, &[0]), Ok((MetadataValue::Bool(false), 5))));
    assert!(matches!(value(7, &[1]), Ok((MetadataValue::Bool(true), 5))));
    assert!(matches!(value(7, &[2]), Err(GGUFError::InvalidBool(2))));
}

#[test]
fn strings_must_be_utf8_and_not_too_long() {
    let mut b = Vec::new();
    put_str(&mut b, "h\u{e9}llo");
    let (s, end) = read_string(&b, 0).unwrap();
    assert_eq!(s, "h\u{e9}llo");
    assert_eq!(end, b.len());
    let mut bad = 2u64.to_le_bytes().to_vec();
    bad.extend_from_slice(&[0xC3, 0x28]);
    assert!(matches!(read_string(&bad, 0), Err(GGUFError::Utf8)));
    let long = 1_000_001u64.to_le_bytes();
    assert!(matches!(
        read_string(&long, 0),
        Err(GGUFError::TooLarge { what: "string", len: 1_000_001 })
    ));
    let just = 1_000_000u64.to_le_bytes();
    assert!(matches!(read_string(&just, 0), Err(GGUFError::Io)));
}

#[test]
fn arrays_must_not_be_too_long() {
    let mut payload = 0u32.to_le_bytes().to_vec();
    payload.extend_from_slice(&1_000_001u64.to_le_bytes());
    assert!(matches!(
        value(9, &payload),
        Err(GGUFError::TooLarge { what: "array", len: 1_000_001 })
    ));
}

#[test]
fn values_of_every_type() {
    assert!(matches!(value(0, &[200]), Ok((MetadataValue::U8(200), 5))));
    assert!(matches!(value(1, &[200]), Ok((MetadataValue::I8(-56), 5))));
    assert!(matches!(value(2, &[1, 2]), Ok((MetadataValue::U16(513), 6))));
    assert!(matches!(value(3, &[0xFE, 0xFF]), Ok((MetadataValue::I16(-2), 6))));
    assert!(matches!(value(4, &[1, 0, 0, 1]), Ok((MetadataValue::U32(0x0100_0001), 8))));
    assert!(matches!(value(5, &(-7i32).to_le_bytes()), Ok((MetadataValue::I32(-7), 8))));
    match value(6, &1.5f32.to_le_bytes()) {
        Ok((MetadataValue::F32(bits), 8)) => assert_eq!(f32::from_bits(bits), 1.5),
        _ => panic!("no single-precision number"),
    }
    assert!(matches!(value(10, &[0, 0, 0, 0, 1, 0, 0, 0]), Ok((MetadataValue::U64(0x1_0000_0000), 12))));
    assert!(matches!(value(11, &(-9i64).to_le_bytes()), Ok((MetadataValue::I64(-9), 12))));
    match value(12, &(-0.1f64).to_le_bytes()) {
        Ok((MetadataValue::F64(bits), 12)) => assert_eq!(f64::from_bits(bits), -0.1),
        _ => panic!("no double-precision number"),
    }
}

#[test]
fn arrays_of_arrays() {
    // an array of two arrays of one 16-bit number each
    let mut payload = 9u32.to_le_bytes().to_vec();
    payload.extend_from_slice(&2u64.to_le_bytes());
    for n in [5u16, 6] {
        payload.extend_from_slice(&2u32.to_le_bytes());
        payload.extend_from_slice(&1u64.to_le_bytes());
        payload.extend_from_slice(&n.to_le_bytes());
    }
    match value(9, &payload) {
        Ok((MetadataValue::Array(outer), _)) => {
            assert_eq!(outer.len(), 2);
            match &outer[1] {
                MetadataValue::Array(inner) => assert!(matches!(inner[0], MetadataValue::U16(6))),
                _ => panic!("no array"),
            }
        }
        _ => panic!("no array"),
    }
}

#[test]
fn accessors_give_the_value_of_their_type() {
    assert_eq!(MetadataValue::U32(5).as_u32(), Some(5));
    assert_eq!(MetadataValue::U64(5).as_u32(), None);
    assert_eq!(MetadataValue::U32(5).as_u64(), Some(5));
    assert_eq!(MetadataValue::U64(1 << 40).as_u64(), Some(1 << 40));
    assert_eq!(MetadataValue::I32(5).as_u64(), None);
    assert_eq!(MetadataValue::Str("x".to_string()).as_str(), Some("x"));
    assert_eq!(MetadataValue::U8(1).as_str(), None);
    assert_eq!(MetadataValue::F32(0x3F80_0000).as_f32(), Some(0x3F80_0000));
    assert_eq!(MetadataValue::F64(0).as_f32(), None);
}

#[test]
fn an_alignment_of_zero_is_refused() {
    let mut b = header(3, 0, 1);
    put_u32(&mut b, "general.alignment", 0);
    assert!(matches!(parse(&b), Err(GGUFError::InvalidAlignment)));
}

#[test]
fn an_offset_beyond_all_numbers_is_refused() {
    let mut b = header(3, 1, 0);
    put_tensor(&mut b, "t", &[4], 0, u64::MAX);
    assert!(matches!(
        parse(&b),
        Err(GGUFError::TooLarge { what: "offset", len: u64::MAX })
    ));
}

#[test]
fn offsets_are_aligned_upward() {
    assert_eq!(align_offset(0, 32), 0);
    assert_eq!(align_offset(1, 32), 32);
    assert_eq!(align_offset(32, 32), 32);
    assert_eq!(align_offset(33, 32), 64);
    assert_eq!(align_offset(7, 1), 7);
}

#[test]
fn names_of_tensor_types() {
    assert_eq!(ggml_type_name(0), "F32");
    assert_eq!(ggml_type_name(12), "Q4_K");
    assert_eq!(ggml_type_name(23), "IQ4_XS");
    assert_eq!(ggml_type_name(30), "BF16");
    assert_eq!(ggml_type_name(4), "UNKNOWN");
    assert_eq!(ggml_type_name(31), "UNKNOWN");
}

#[test]
fn copies_of_values_and_tensors() {
    let inner = vec![MetadataValue::Str("x".to_string()), MetadataValue::U8(7)];
    let value = MetadataValue::Array(vec![MetadataValue::Array(inner), MetadataValue::Bool(true)]);
    assert_eq!(format!("{:?}", value.clone()), format!("{:?}", value));
    let mut b = header(3, 1, 0);
    put_tensor(&mut b, "t", &[2, 3], 0, 32);
    let file = parse(&b).unwrap();
    let copy = file.tensors[0].clone();
    assert_eq!(copy.name, "t");
    assert_eq!(copy.shape, file.tensors[0].shape);
    assert_eq!(copy.ggml_type, 0);
    assert_eq!(copy.data_offset, 32);
    assert_eq!(copy.file_offset, file.tensors[0].file_offset);
}
