//! The trusted boundary: every call into an outside crate the library's
//! logic makes goes through one of the wrappers below, and nothing else in
//! the library is taken on trust. A result that would take pages to state
//! is given a name (an uninterpreted spec function); each wrapper's
//! contract says what the outside crate's source and documentation promise,
//! and no more.

use vstd::prelude::*;
use base64::Engine;
use byteorder::BigEndian;
use byteorder::ReadBytesExt;
use byteorder::WriteBytesExt;
use std::io::Read;
use std::io::Write;

verus! {

/// The standard, padded base64 encoding of a byte string.
pub uninterp spec fn b64_of(b: Seq<u8>) -> Seq<u8>;

/// What flate2's zlib encoder emits at the default level for a byte string.
pub uninterp spec fn zlib_of(b: Seq<u8>) -> Seq<u8>;

/// What flate2's gzip encoder emits at the default level for a byte string.
pub uninterp spec fn gzip_of(b: Seq<u8>) -> Seq<u8>;

/// The decimal display form of a 32-bit float, given by its bits.
pub uninterp spec fn f32_dec_of(bits: u32) -> Seq<u8>;

/// What std's 32-bit float parser yields for a byte string: the bits, if
/// the text is well formed.
pub uninterp spec fn f32_val_of(s: Seq<u8>) -> Option<u32>;

/// The decimal display form of a 64-bit float, given by its bits.
pub uninterp spec fn f64_dec_of(bits: u64) -> Seq<u8>;

/// The number lexeme serde_json writes for a finite 64-bit float.
pub uninterp spec fn f64_json_of(bits: u64) -> Seq<u8>;

/// What std's 64-bit float parser yields for a byte string: the bits, if
/// the text is well formed. It gives the number serializer's contract a
/// way to say that the written lexeme reads back to the same value.
pub uninterp spec fn f64_val_of(s: Seq<u8>) -> Option<u64>;

/// A 32-bit bit pattern that denotes a NaN.
pub open spec fn f32_is_nan(bits: u32) -> bool {
    (bits >> 23) & 0xff == 0xff && bits & 0x7fffff != 0
}

/// A 64-bit bit pattern that denotes a finite value.
pub open spec fn f64_is_finite(bits: u64) -> bool {
    (bits >> 52) & 0x7ff != 0x7ff
}

/// The display form of a float starts with a minus sign, a digit, an `i`
/// (infinity) or an `N` (NaN).
pub open spec fn float_dec_shape(s: Seq<u8>) -> bool {
    s.len() >= 1 && (s[0] == 45 || (48 <= s[0] && s[0] <= 57) || s[0] == 105 || s[0] == 78)
}

/// Bytes that can appear in a number lexeme.
pub open spec fn num_lexeme_chars(s: Seq<u8>) -> bool {
    forall|i: int|
        0 <= i < s.len() ==> ((48 <= s[i] && s[i] <= 57) || s[i] == 43 || s[i] == 45 || s[i] == 46
            || s[i] == 101 || s[i] == 69)
}

/// The lexeme marks itself as a float by a decimal point or an exponent.
pub open spec fn has_float_mark(s: Seq<u8>) -> bool {
    exists|i: int| 0 <= i < s.len() && (s[i] == 46 || s[i] == 101 || s[i] == 69)
}

/// A byte of the standard base64 alphabet, or the `=` padding.
pub open spec fn is_b64_byte(c: u8) -> bool {
    (65 <= c && c <= 90) || (97 <= c && c <= 122) || (48 <= c && c <= 57) || c == 43 || c == 47
        || c == 61
}

/// Relies on base64's `STANDARD` engine (standard alphabet, padding): a pure
/// encoding of the input bytes, whose output is drawn from the 64-letter
/// alphabet and `=`. The length bound keeps the engine's output size
/// inside `usize`, where its own length computation would panic.
#[verifier::external_body]
pub(crate) fn b64_encode(b: &[u8]) -> (r: Vec<u8>)
    requires
        b@.len() <= 0x1000_0000_0000_0000,
    ensures
        r@ == b64_of(b@),
        forall|i: int| 0 <= i < r@.len() ==> is_b64_byte(#[trigger] r@[i]),
{
    base64::engine::general_purpose::STANDARD.encode(b).into_bytes()
}

/// Relies on base64's `STANDARD` engine: decoding succeeds exactly on
/// canonical encodings (it requires canonical padding and zero trailing
/// bits) and returns the bytes that were encoded.
#[verifier::external_body]
pub(crate) fn b64_decode(s: &[u8]) -> (r: Option<Vec<u8>>)
    ensures
        (r is Some) == (exists|b: Seq<u8>| s@ == b64_of(b)),
        forall|b: Seq<u8>| s@ == b64_of(b) ==> r.deep_view() == Some(b),
{
    match base64::engine::general_purpose::STANDARD.decode(s) {
        Ok(v) => Some(v),
        Err(_) => None,
    }
}

/// Relies on flate2's zlib encoder at the default level: a deterministic
/// function of the input bytes.
#[verifier::external_body]
pub(crate) fn zlib_compress(b: &[u8]) -> (r: Vec<u8>)
    ensures
        r@ == zlib_of(b@),
{
    let mut enc = flate2::write::ZlibEncoder::new(Vec::new(), flate2::Compression::default());
    if enc.write_all(b).is_err() {
        return Vec::new();
    }
    match enc.finish() {
        Ok(v) => v,
        Err(_) => Vec::new(),
    }
}

/// Relies on flate2's zlib decoder: on exactly what the encoder emitted it
/// recovers the bytes that were compressed; a malformed stream is an error.
#[verifier::external_body]
pub(crate) fn zlib_decompress(b: &[u8]) -> (r: Option<Vec<u8>>)
    ensures
        forall|d: Seq<u8>| b@ == zlib_of(d) ==> r.deep_view() == Some(d),
{
    let mut out = Vec::new();
    match flate2::read::ZlibDecoder::new(b).read_to_end(&mut out) {
        Ok(_) => Some(out),
        Err(_) => None,
    }
}

/// Relies on flate2's gzip decoder: on exactly what the gzip encoder
/// emitted it recovers the bytes that were compressed.
#[verifier::external_body]
pub(crate) fn gzip_decompress(b: &[u8]) -> (r: Option<Vec<u8>>)
    ensures
        forall|d: Seq<u8>| b@ == gzip_of(d) ==> r.deep_view() == Some(d),
{
    let mut out = Vec::new();
    match flate2::read::GzDecoder::new(b).read_to_end(&mut out) {
        Ok(_) => Some(out),
        Err(_) => None,
    }
}

/// Relies on std's display formatting for 32-bit floats, reached through
/// byteorder's bit-pattern read: a deterministic function of the bits. The
/// printed text starts with a digit, `-`, `i` or `N`, and std documents
/// that parsing it back recovers the value exactly; only a NaN loses its
/// payload bits.
#[verifier::external_body]
pub(crate) fn f32_render(bits: u32) -> (r: Vec<u8>)
    ensures
        r@ == f32_dec_of(bits),
        float_dec_shape(r@),
        !f32_is_nan(bits) ==> f32_val_of(r@) == Some(bits),
{
    let arr = bits.to_be_bytes();
    let mut rd: &[u8] = &arr;
    match rd.read_f32::<BigEndian>() {
        Ok(v) => format!("{}", v).into_bytes(),
        Err(_) => Vec::new(),
    }
}

/// Relies on std's float parsing for 32-bit floats (reached through
/// byteorder's bit-pattern write): it succeeds exactly on the documented
/// grammar, which `float_syntax` transcribes.
#[verifier::external_body]
pub(crate) fn f32_parse(s: &[u8]) -> (r: Option<u32>)
    ensures
        r == f32_val_of(s@),
        (r is Some) == crate::numfmt::float_syntax(s@),
{
    let t = match std::str::from_utf8(s) {
        Ok(t) => t,
        Err(_) => return None,
    };
    let v = match t.parse() {
        Ok(v) => v,
        Err(_) => return None,
    };
    let mut w: Vec<u8> = Vec::new();
    if w.write_f32::<BigEndian>(v).is_err() {
        return None;
    }
    Some(u32::from_be_bytes([w[0], w[1], w[2], w[3]]))
}

/// Relies on std's display formatting for 64-bit floats, reached through
/// byteorder's bit-pattern read: a deterministic function of the bits.
#[verifier::external_body]
pub(crate) fn f64_render_dec(bits: u64) -> (r: Vec<u8>)
    ensures
        r@ == f64_dec_of(bits),
{
    let arr = bits.to_be_bytes();
    let mut rd: &[u8] = &arr;
    match rd.read_f64::<BigEndian>() {
        Ok(v) => format!("{}", v).into_bytes(),
        Err(_) => Vec::new(),
    }
}

/// Relies on serde_json's number serialization for a finite 64-bit float:
/// a deterministic shortest form built from digits, signs, a point or an
/// exponent, that always carries a point or an exponent, and that std's
/// float parsing maps back to the same bits.
#[verifier::external_body]
pub(crate) fn f64_render_json(bits: u64) -> (r: Vec<u8>)
    ensures
        r@ == f64_json_of(bits),
        f64_is_finite(bits) ==> num_lexeme_chars(r@) && has_float_mark(r@) && r@.len() >= 1
            && f64_val_of(r@) == Some(bits),
{
    let arr = bits.to_be_bytes();
    let mut rd: &[u8] = &arr;
    let v = match rd.read_f64::<BigEndian>() {
        Ok(v) => v,
        Err(_) => return Vec::new(),
    };
    match serde_json::to_string(&v) {
        Ok(s) => s.into_bytes(),
        Err(_) => Vec::new(),
    }
}

} // verus!
