use rollup::codec::{
    push_bytes, push_i32, push_le, push_option_digest, push_string, push_tag, push_u64,
    read_bytes20, read_bytes32, read_i32, read_le, read_option_digest, read_string, read_tag,
    read_u64,
};

#[test]
fn integers_are_little_endian() {
    let mut out = vec![0xaau8];
    push_u64(&mut out, 0x0102030405060708);
    assert_eq!(out, vec![0xaa, 8, 7, 6, 5, 4, 3, 2, 1]);
    let mut out = Vec::new();
    push_u64(&mut out, 0);
    push_u64(&mut out, u64::MAX);
    assert_eq!(out[..8], [0; 8]);
    assert_eq!(out[8..], [0xff; 8]);
    let mut out = Vec::new();
    push_u64(&mut out, 83479);
    assert_eq!(out, 83479u64.to_le_bytes());
}

#[test]
fn narrow_integers_keep_their_low_bytes() {
    let mut out = Vec::new();
    push_le(&mut out, 0x0102030405, 2);
    assert_eq!(out, vec![5, 4]);
    push_le(&mut out, 7, 0);
    assert_eq!(out, vec![5, 4]);
    push_le(&mut out, 1, 9);
    assert_eq!(out, vec![5, 4, 1, 0, 0, 0, 0, 0, 0, 0, 0]);
}

#[test]
fn discriminants_are_four_bytes() {
    let mut out = Vec::new();
    push_tag(&mut out, 1);
    push_tag(&mut out, 0x01020304);
    assert_eq!(out, vec![1, 0, 0, 0, 4, 3, 2, 1]);
}

#[test]
fn signed_integers_are_twos_complement() {
    let mut out = Vec::new();
    push_i32(&mut out, 3);
    push_i32(&mut out, -1);
    push_i32(&mut out, i32::MIN);
    push_i32(&mut out, i32::MAX);
    let mut expected = Vec::new();
    expected.extend_from_slice(&3i32.to_le_bytes());
    expected.extend_from_slice(&(-1i32).to_le_bytes());
    expected.extend_from_slice(&i32::MIN.to_le_bytes());
    expected.extend_from_slice(&i32::MAX.to_le_bytes());
    assert_eq!(out, expected);
    assert_eq!(out[4..8], [0xff; 4]);
}

#[test]
fn strings_are_length_prefixed_utf8() {
    let mut out = Vec::new();
    push_string(&mut out, "");
    assert_eq!(out, vec![0; 8]);
    let mut out = Vec::new();
    push_string(&mut out, "0");
    assert_eq!(out, vec![1, 0, 0, 0, 0, 0, 0, 0, b'0']);
    let mut out = vec![7u8];
    push_string(&mut out, "h\u{e9}");
    assert_eq!(out, vec![7, 3, 0, 0, 0, 0, 0, 0, 0, b'h', 0xc3, 0xa9]);
}

#[test]
fn options_are_tagged() {
    let mut out = Vec::new();
    push_option_digest(&mut out, &None);
    assert_eq!(out, vec![0]);
    push_option_digest(&mut out, &Some([5u8; 32]));
    assert_eq!(out.len(), 34);
    assert_eq!(out[1], 1);
    assert_eq!(out[2..], [5u8; 32]);
}

#[test]
fn raw_bytes_are_appended() {
    let mut out = vec![1u8];
    push_bytes(&mut out, &[2, 3]);
    push_bytes(&mut out, &[]);
    assert_eq!(out, vec![1, 2, 3]);
}

#[test]
fn hex_text_decodes() {
    assert_eq!(rollup::hex::decode(""), Some(vec![]));
    assert_eq!(rollup::hex::decode("00ff"), Some(vec![0, 255]));
    assert_eq!(rollup::hex::decode("0aF1"), Some(vec![0x0a, 0xf1]));
    assert_eq!(rollup::hex::decode("deadBEEF"), Some(vec![0xde, 0xad, 0xbe, 0xef]));
    assert_eq!(rollup::hex::decode("0"), None);
    assert_eq!(rollup::hex::decode("0g"), None);
    assert_eq!(rollup::hex::decode("g0"), None);
    assert_eq!(rollup::hex::decode(" 0"), None);
    assert_eq!(rollup::hex::decode("0x00"), None);
    assert_eq!(rollup::hex::decode("\u{e9}"), None);
    assert_eq!(rollup::hex::decode("@@"), None);
    assert_eq!(rollup::hex::decode("``"), None);
    assert_eq!(rollup::hex::decode("//"), None);
    assert_eq!(rollup::hex::decode("::"), None);
    assert_eq!(rollup::hex::decode("GG"), None);
}

#[test]
fn hex_text_encodes_in_lower_case() {
    assert_eq!(rollup::hex::encode(&[]), "");
    assert_eq!(rollup::hex::encode(&[0x00, 0xff, 0x0a, 0xf1]), "00ff0af1");
    assert_eq!(rollup::hex::encode(&[0xde, 0xad, 0xbe, 0xef]), "deadbeef");
    let all: Vec<u8> = (0..=255).collect();
    assert_eq!(rollup::hex::encode(&all), hex::encode(&all));
    assert_eq!(rollup::hex::decode(&rollup::hex::encode(&all)), Some(all));
}

#[test]
fn readers_undo_the_writers() {
    let mut out = vec![0xeeu8];
    push_u64(&mut out, 0x0102030405060708);
    push_tag(&mut out, 0xa1b2c3d4);
    push_i32(&mut out, -5);
    push_i32(&mut out, i32::MAX);
    push_i32(&mut out, i32::MIN);
    push_string(&mut out, "h\u{e9}llo");
    push_option_digest(&mut out, &None);
    push_option_digest(&mut out, &Some([6u8; 32]));
    assert_eq!(read_u64(&out, 1), Some(0x0102030405060708));
    assert_eq!(read_tag(&out, 9), Some(0xa1b2c3d4));
    assert_eq!(read_i32(&out, 13), Some(-5));
    assert_eq!(read_i32(&out, 17), Some(i32::MAX));
    assert_eq!(read_i32(&out, 21), Some(i32::MIN));
    assert_eq!(read_string(&out, 25), Some(("h\u{e9}llo".to_string(), 25 + 8 + 6)));
    assert_eq!(read_option_digest(&out, 39), Some((None, 40)));
    assert_eq!(read_option_digest(&out, 40), Some((Some([6u8; 32]), 73)));
    assert_eq!(out.len(), 73);
    assert_eq!(read_le(&out, 1, 2), Some(0x0708));
    assert_eq!(read_le(&out, 1, 0), Some(0));
    assert_eq!(read_le(&out, 1, 9), None);
    assert_eq!(read_le(&out, 72, 2), None);
    assert_eq!(read_bytes32(&out, 41), Some([6u8; 32]));
    assert_eq!(read_bytes32(&out, 42), None);
    assert_eq!(read_bytes20(&out, 53), Some([6u8; 20]));
    assert_eq!(read_bytes20(&out, 54), None);
}

#[test]
fn readers_reject_what_no_writer_wrote() {
    let bytes = [1u8, 2, 3, 4, 5, 6, 7];
    assert_eq!(read_u64(&bytes, 0), None);
    assert_eq!(read_u64(&bytes, usize::MAX), None);
    assert_eq!(read_tag(&bytes, 4), None);
    assert_eq!(read_i32(&bytes, 3), Some(0x07060504));
    assert_eq!(read_i32(&bytes, 8), None);
    assert_eq!(read_option_digest(&bytes, 7), None);
    assert_eq!(read_option_digest(&bytes, 9), None);
    assert_eq!(read_option_digest(&[2u8], 0), None);
    assert_eq!(read_option_digest(&[1u8; 32], 0), None);
    assert_eq!(read_option_digest(&[0u8; 2], 0), Some((None, 1)));
    // A length that reaches beyond the end.
    assert_eq!(read_string(&[2, 0, 0, 0, 0, 0, 0, 0, b'a'], 0), None);
    assert_eq!(read_string(&[0xff; 9], 0), None);
    // Bytes that are no UTF-8.
    assert_eq!(read_string(&[1, 0, 0, 0, 0, 0, 0, 0, 0xff], 0), None);
    assert_eq!(read_string(&[2, 0, 0, 0, 0, 0, 0, 0, 0xc3, 0x28], 0), None);
    assert_eq!(read_string(&[1, 0, 0, 0, 0, 0, 0, 0, b'a', b'b'], 0), Some(("a".to_string(), 9)));
    assert_eq!(read_string(&[0; 7], 0), None);
}
