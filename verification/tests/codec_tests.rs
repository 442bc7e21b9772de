//! The key and value codecs on concrete inputs: round trips, the documented
//! part order mirrored in encoded bytes, and the hex versionstamp spelling.

use kvstore::keys::{decode_key, encode_key, Key, KeyPart};
use kvstore::values::{
    decode_value, encode_value, parse_versionstamp, version_to_versionstamp, versionstamp_hex,
    Value,
};

fn key1(p: KeyPart) -> Key {
    Key(vec![p])
}

fn enc1(p: KeyPart) -> Vec<u8> {
    encode_key(&key1(p))
}

fn roundtrip(parts: Vec<KeyPart>) {
    let key = Key(parts);
    let bytes = encode_key(&key);
    let back = decode_key(&bytes).expect("decoding an encoded key");
    assert_eq!(back.0.len(), key.0.len());
    for (a, b) in back.0.iter().zip(key.0.iter()) {
        match (a, b) {
            (KeyPart::Bytes(x), KeyPart::Bytes(y)) => assert_eq!(x, y),
            (KeyPart::String(x), KeyPart::String(y)) => assert_eq!(x, y),
            (KeyPart::Int(x), KeyPart::Int(y)) => assert_eq!(x, y),
            (KeyPart::Float64Bits(x), KeyPart::Float64Bits(y)) => assert_eq!(x, y),
            (KeyPart::False, KeyPart::False) => {}
            (KeyPart::True, KeyPart::True) => {}
            _ => panic!("part kinds differ after the round trip"),
        }
    }
}

#[test]
fn key_roundtrip_all_part_kinds() {
    roundtrip(vec![
        KeyPart::Bytes(vec![1, 2, 3]),
        KeyPart::String("hello".to_string()),
        KeyPart::Int(-42),
        KeyPart::Float64Bits(1.5f64.to_bits()),
        KeyPart::False,
        KeyPart::True,
    ]);
}

#[test]
fn key_roundtrip_empty_and_zero_bytes() {
    roundtrip(vec![KeyPart::Bytes(vec![])]);
    roundtrip(vec![KeyPart::Bytes(vec![0])]);
    roundtrip(vec![KeyPart::Bytes(vec![0, 0xff, 0, 1])]);
    roundtrip(vec![KeyPart::String(String::new())]);
    roundtrip(vec![KeyPart::String("h\u{00e9}llo \u{2713}".to_string())]);
    roundtrip(vec![]);
}

#[test]
fn key_roundtrip_integer_extremes() {
    roundtrip(vec![KeyPart::Int(i64::MIN)]);
    roundtrip(vec![KeyPart::Int(-1)]);
    roundtrip(vec![KeyPart::Int(0)]);
    roundtrip(vec![KeyPart::Int(i64::MAX)]);
    roundtrip(vec![KeyPart::Float64Bits((-2.5f64).to_bits())]);
    roundtrip(vec![KeyPart::Float64Bits(0.0f64.to_bits())]);
    roundtrip(vec![KeyPart::Float64Bits((-0.0f64).to_bits())]);
}

#[test]
fn decode_rejects_garbage() {
    assert!(decode_key(&vec![0x99]).is_err());
    assert!(decode_key(&vec![0x01]).is_err(), "unterminated byte part");
    assert!(decode_key(&vec![0x03, 1, 2]).is_err(), "truncated integer part");
    assert!(decode_key(&vec![0x02, 0xc3, 0x00]).is_err(), "truncated two-byte scalar");
}

#[test]
fn encoded_order_matches_part_order() {
    // Within byte strings: lexicographic, with a proper prefix first, and
    // interior zero bytes ordered correctly despite escaping.
    assert!(enc1(KeyPart::Bytes(vec![1])) < enc1(KeyPart::Bytes(vec![1, 0])));
    assert!(enc1(KeyPart::Bytes(vec![])) < enc1(KeyPart::Bytes(vec![0])));
    assert!(enc1(KeyPart::Bytes(vec![0])) < enc1(KeyPart::Bytes(vec![0, 0])));
    assert!(enc1(KeyPart::Bytes(vec![0, 0xff])) < enc1(KeyPart::Bytes(vec![1])));
    // Within strings: by UTF-8 bytes.
    assert!(
        enc1(KeyPart::String("a".to_string())) < enc1(KeyPart::String("ab".to_string()))
    );
    assert!(enc1(KeyPart::String("a".to_string())) < enc1(KeyPart::String("b".to_string())));
    // Within integers: numeric, across the sign.
    assert!(enc1(KeyPart::Int(i64::MIN)) < enc1(KeyPart::Int(-1)));
    assert!(enc1(KeyPart::Int(-1)) < enc1(KeyPart::Int(0)));
    assert!(enc1(KeyPart::Int(0)) < enc1(KeyPart::Int(1)));
    assert!(enc1(KeyPart::Int(1)) < enc1(KeyPart::Int(i64::MAX)));
    // Within floats: numeric order of the spelled values.
    let f = |x: f64| KeyPart::Float64Bits(x.to_bits());
    assert!(enc1(f(-2.0)) < enc1(f(-1.0)));
    assert!(enc1(f(-1.0)) < enc1(f(-0.0)));
    assert!(enc1(f(-0.0)) < enc1(f(0.0)));
    assert!(enc1(f(0.0)) < enc1(f(1.5)));
    assert!(enc1(f(1.5)) < enc1(f(f64::INFINITY)));
    // Across part types: the fixed tag table.
    assert!(enc1(KeyPart::Bytes(vec![0xff; 4])) < enc1(KeyPart::String("".to_string())));
    assert!(enc1(KeyPart::String("zzz".to_string())) < enc1(KeyPart::Int(i64::MIN)));
    assert!(enc1(KeyPart::Int(i64::MAX)) < enc1(f(f64::NEG_INFINITY)));
    assert!(enc1(f(f64::INFINITY)) < enc1(KeyPart::False));
    assert!(enc1(KeyPart::False) < enc1(KeyPart::True));
    // Prefix keys come before their extensions.
    let short = encode_key(&Key(vec![KeyPart::Int(7)]));
    let long = encode_key(&Key(vec![KeyPart::Int(7), KeyPart::False]));
    assert!(short < long);
}

#[test]
fn value_roundtrip_and_tags() {
    let (b, tag) = encode_value(&Value::V8(vec![9, 9]));
    assert_eq!((b.clone(), tag), (vec![9, 9], 1));
    match decode_value(b, tag) {
        Value::V8(x) => assert_eq!(x, vec![9, 9]),
        _ => panic!("wrong value kind"),
    }
    let (b, tag) = encode_value(&Value::Bytes(vec![7]));
    assert_eq!(tag, 3);
    match decode_value(b, tag) {
        Value::Bytes(x) => assert_eq!(x, vec![7]),
        _ => panic!("wrong value kind"),
    }
    let (b, tag) = encode_value(&Value::U64(0x0102030405060708));
    assert_eq!(tag, 2);
    assert_eq!(b, vec![8, 7, 6, 5, 4, 3, 2, 1]);
    match decode_value(b, tag) {
        Value::U64(x) => assert_eq!(x, 0x0102030405060708),
        _ => panic!("wrong value kind"),
    }
}

#[test]
fn versionstamp_bytes_and_hex() {
    let vs = version_to_versionstamp(1);
    assert_eq!(vs, vec![0, 0, 0, 0, 0, 0, 0, 1, 0, 0]);
    let hex = versionstamp_hex(&vs);
    assert_eq!(hex, "00000000000000010000");
    let parsed = parse_versionstamp(&hex).expect("parsing the printed stamp");
    assert_eq!(parsed, vs);
    // Upper-case digits are accepted too; junk is not.
    assert_eq!(
        parse_versionstamp("00000000000000010000").unwrap(),
        parse_versionstamp("00000000000000010000").unwrap()
    );
    assert!(parse_versionstamp("0000000000000001000").is_none(), "odd length");
    assert!(parse_versionstamp("0000000000000001000g").is_none(), "non-digit");
    let mixed = parse_versionstamp("00000000000000FF0000").unwrap();
    assert_eq!(mixed[7], 0xff);
    // Versionstamps of increasing versions increase bytewise.
    assert!(version_to_versionstamp(1) < version_to_versionstamp(2));
    assert!(version_to_versionstamp(255) < version_to_versionstamp(256));
}
