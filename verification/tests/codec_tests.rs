//! Round trips and disambiguation cases of the tag-to-document codec.

use mcj::codec::{is_type_like_string, json_to_nbt, nbt_to_json, CodecError};
use mcj::doc::Doc;
use mcj::tag::Tag;

fn rt(t: Tag) -> Tag {
    let d = nbt_to_json(&t);
    json_to_nbt(&d).expect("decode failed")
}

fn assert_rt(t: Tag) {
    let d = nbt_to_json(&t);
    let back = json_to_nbt(&d).expect("decode failed");
    assert!(tag_eq(&t, &back), "round trip changed the value");
}

fn tag_eq(a: &Tag, b: &Tag) -> bool {
    match (a, b) {
        (Tag::Byte(x), Tag::Byte(y)) => x == y,
        (Tag::Short(x), Tag::Short(y)) => x == y,
        (Tag::Int(x), Tag::Int(y)) => x == y,
        (Tag::Long(x), Tag::Long(y)) => x == y,
        (Tag::Float(x), Tag::Float(y)) => x == y,
        (Tag::Double(x), Tag::Double(y)) => x == y,
        (Tag::Str(x), Tag::Str(y)) => x == y,
        (Tag::ByteArray(x), Tag::ByteArray(y)) => x == y,
        (Tag::IntArray(x), Tag::IntArray(y)) => x == y,
        (Tag::LongArray(x), Tag::LongArray(y)) => x == y,
        (Tag::List(x), Tag::List(y)) => {
            x.len() == y.len() && x.iter().zip(y.iter()).all(|(p, q)| tag_eq(p, q))
        }
        (Tag::Compound(x), Tag::Compound(y)) => {
            x.len() == y.len()
                && x.iter()
                    .zip(y.iter())
                    .all(|(p, q)| p.0 == q.0 && tag_eq(&p.1, &q.1))
        }
        _ => false,
    }
}

#[test]
fn byte_is_suffixed_decimal() {
    let d = nbt_to_json(&Tag::Byte(-7));
    assert!(matches!(&d, Doc::Str(s) if s == b"-7b"));
    assert_rt(Tag::Byte(-7));
    assert_rt(Tag::Byte(i8::MIN));
    assert_rt(Tag::Byte(i8::MAX));
}

#[test]
fn short_and_long_round_trip() {
    let d = nbt_to_json(&Tag::Short(-32768));
    assert!(matches!(&d, Doc::Str(s) if s == b"-32768s"));
    assert_rt(Tag::Short(1234));
    let d = nbt_to_json(&Tag::Long(i64::MIN));
    assert!(matches!(&d, Doc::Str(s) if s == b"-9223372036854775808L"));
    assert_rt(Tag::Long(i64::MIN));
    assert_rt(Tag::Long(i64::MAX));
}

#[test]
fn int_is_a_plain_number() {
    let d = nbt_to_json(&Tag::Int(42));
    assert!(matches!(d, Doc::Int(42)));
    assert_rt(Tag::Int(i32::MIN));
    assert_rt(Tag::Int(i32::MAX));
}

#[test]
fn float_is_suffixed_decimal() {
    let bits = 1.5f32.to_bits();
    let d = nbt_to_json(&Tag::Float(bits));
    assert!(matches!(&d, Doc::Str(s) if s == b"1.5f"));
    assert_rt(Tag::Float(bits));
    assert_rt(Tag::Float((-0.25f32).to_bits()));
    assert_rt(Tag::Float(f32::INFINITY.to_bits()));
    assert_rt(Tag::Float(1.0f32.to_bits()));
}

#[test]
fn finite_double_is_a_number_node() {
    let bits = 2.5f64.to_bits();
    let d = nbt_to_json(&Tag::Double(bits));
    assert!(matches!(d, Doc::Float(b) if b == bits));
    assert_rt(Tag::Double(bits));
    assert_rt(Tag::Double(1.0f64.to_bits()));
}

#[test]
fn nonfinite_double_falls_back_to_text() {
    let d = nbt_to_json(&Tag::Double(f64::INFINITY.to_bits()));
    assert!(matches!(&d, Doc::Str(s) if s == b"infd"));
}

#[test]
fn plain_string_passes_through() {
    let d = nbt_to_json(&Tag::Str(b"minecraft:full".to_vec()));
    assert!(matches!(&d, Doc::Str(s) if s == b"minecraft:full"));
    assert_rt(Tag::Str(b"hello world".to_vec()));
    assert_rt(Tag::Str(Vec::new()));
}

#[test]
fn type_like_string_is_escaped_once() {
    let d = nbt_to_json(&Tag::Str(b"123b".to_vec()));
    assert!(matches!(&d, Doc::Str(s) if s == b"123b\\0"));
    assert_rt(Tag::Str(b"123b".to_vec()));
    assert_rt(Tag::Str(b"12.5f".to_vec()));
    assert_rt(Tag::Str(b"B;abc".to_vec()));
    assert_rt(Tag::Str(b"1e5s".to_vec()));
    // the marker survives exactly one strip
    let back = rt(Tag::Str(b"99L".to_vec()));
    assert!(matches!(&back, Tag::Str(s) if s == b"99L"));
}

#[test]
fn byte_array_is_base64() {
    let d = nbt_to_json(&Tag::ByteArray(vec![0, 0, 0]));
    assert!(matches!(&d, Doc::Str(s) if s == b"B;AAAA"));
    let d = nbt_to_json(&Tag::ByteArray(vec![1, -2]));
    assert!(matches!(&d, Doc::Str(s) if s == b"B;Af4="));
    assert_rt(Tag::ByteArray(vec![127, -128, 0, 5]));
    assert_rt(Tag::ByteArray(Vec::new()));
}

#[test]
fn int_and_long_arrays_are_big_endian_base64() {
    let d = nbt_to_json(&Tag::IntArray(vec![1]));
    assert!(matches!(&d, Doc::Str(s) if s == b"I;AAAAAQ=="));
    assert_rt(Tag::IntArray(vec![i32::MIN, -1, 0, 1, i32::MAX]));
    assert_rt(Tag::IntArray(Vec::new()));
    assert_rt(Tag::LongArray(vec![i64::MIN, -1, 0, 1, i64::MAX]));
    assert_rt(Tag::LongArray(Vec::new()));
}

#[test]
fn empty_list_uses_the_sentinel() {
    let d = nbt_to_json(&Tag::List(Vec::new()));
    match &d {
        Doc::Obj(m) => {
            assert_eq!(m.len(), 1);
            assert_eq!(m[0].0, b"[]".to_vec());
            assert!(matches!(&m[0].1, Doc::Str(s) if s == b"End"));
        }
        _ => panic!("expected the sentinel object"),
    }
    assert_rt(Tag::List(Vec::new()));
}

#[test]
fn nested_structures_round_trip() {
    let t = Tag::Compound(vec![
        (b"a".to_vec(), Tag::List(vec![Tag::Int(1), Tag::Int(2)])),
        (
            b"b".to_vec(),
            Tag::Compound(vec![(b"inner".to_vec(), Tag::Str(b"5f".to_vec()))]),
        ),
        (b"c".to_vec(), Tag::List(Vec::new())),
    ]);
    assert_rt(t);
}

#[test]
fn booleans_and_null_decode_as_bytes() {
    assert!(matches!(json_to_nbt(&Doc::Bool(true)), Ok(Tag::Byte(1))));
    assert!(matches!(json_to_nbt(&Doc::Bool(false)), Ok(Tag::Byte(0))));
    assert!(matches!(json_to_nbt(&Doc::Null), Ok(Tag::Byte(0))));
}

#[test]
fn big_numbers_decode_as_longs() {
    let big = i32::MAX as i64 + 1;
    assert!(matches!(json_to_nbt(&Doc::Int(big)), Ok(Tag::Long(v)) if v == big));
    assert!(matches!(json_to_nbt(&Doc::Int(-5)), Ok(Tag::Int(-5))));
}

#[test]
fn bad_base64_is_an_error() {
    let r = json_to_nbt(&Doc::Str(b"B;!!!".to_vec()));
    assert_eq!(r.unwrap_err(), CodecError::BadBase64);
}

#[test]
fn short_array_payload_is_an_error() {
    // "AAAA" decodes to three bytes, which is no whole 4-byte element
    let r = json_to_nbt(&Doc::Str(b"I;AAAA".to_vec()));
    assert_eq!(r.unwrap_err(), CodecError::BadArrayLength);
    let r = json_to_nbt(&Doc::Str(b"L;AAAA".to_vec()));
    assert_eq!(r.unwrap_err(), CodecError::BadArrayLength);
}

#[test]
fn unparsable_suffix_falls_back_to_string() {
    assert!(matches!(json_to_nbt(&Doc::Str(b"999b".to_vec())), Ok(Tag::Str(s)) if s == b"999b"));
    assert!(matches!(json_to_nbt(&Doc::Str(b"xyzf".to_vec())), Ok(Tag::Str(s)) if s == b"xyzf"));
    assert!(matches!(json_to_nbt(&Doc::Str(b"b".to_vec())), Ok(Tag::Str(s)) if s == b"b"));
}

#[test]
fn type_like_shapes() {
    assert!(is_type_like_string(b"123b"));
    assert!(is_type_like_string(b"-1.5f"));
    assert!(is_type_like_string(b"99L"));
    assert!(is_type_like_string(b"1e5s"));
    assert!(is_type_like_string(b"NaNf"));
    assert!(is_type_like_string(b"B;xyz"));
    assert!(is_type_like_string(b"I;"));
    assert!(is_type_like_string(b"L;AA=="));
    assert!(!is_type_like_string(b"abc"));
    assert!(!is_type_like_string(b"b"));
    assert!(!is_type_like_string(b"12x34"));
    assert!(!is_type_like_string(b"minecraft:full"));
    assert!(!is_type_like_string(b""));
}
