//! The tag-to-document codec. The document's primitive set is narrower
//! than the tag's, so several tag kinds travel as specially shaped strings
//! (a decimal with a one-letter width suffix, or a `B;`/`I;`/`L;` prefix
//! before base64 of the element bytes), and a literal string that happens
//! to look like one of those shapes is escaped by appending a two-byte
//! marker. The decoder checks the marker first, then the array prefix,
//! then the width suffixes, and falls back to a plain string.

use vstd::prelude::*;
use crate::doc::{Doc, DocM};
use crate::ext::{
    b64_decode, b64_encode, b64_of, f32_dec_of, f32_parse, f32_render, f32_val_of, f64_dec_of,
    f64_is_finite, f64_render_dec, float_dec_shape,
};
use crate::numfmt::{
    dec_int, float_syntax, int_syntax, int_val, parse_i16, parse_i64, parse_i8, render_i64,
};
use crate::tag::{Tag, TagM};
use crate::util::{bytes_of, extend_bytes};

verus! {

broadcast use {
    vstd::std_specs::vec::group_vec_axioms,
    vstd::seq::group_seq_axioms,
};

use vstd::string::StringSliceAdditionalSpecFns;

/// The two-byte escape marker appended to type-like literal strings.
pub open spec fn marker() -> Seq<u8> {
    seq![92u8, 48u8]
}

pub open spec fn ends_with_marker(s: Seq<u8>) -> bool {
    s.len() >= 2 && s[s.len() - 2] == 92 && s[s.len() - 1] == 48
}

/// `b`, `s`, `L` or `f`.
pub open spec fn is_suffix_byte(c: u8) -> bool {
    c == 98 || c == 115 || c == 76 || c == 102
}

/// `B;`, `I;` or `L;` in front.
pub open spec fn array_shape(s: Seq<u8>) -> bool {
    s.len() >= 2 && s[1] == 59 && (s[0] == 66 || s[0] == 73 || s[0] == 76)
}

/// A literal string that would be mistaken for an encoded value: a number
/// before a width suffix, or an array prefix.
pub open spec fn type_like(s: Seq<u8>) -> bool {
    (s.len() >= 2 && is_suffix_byte(s[s.len() - 1]) && float_syntax(s.drop_last())) || array_shape(
        s,
    )
}

pub open spec fn empty_list_key() -> Seq<u8> {
    seq![91u8, 93u8]
}

pub open spec fn end_lit() -> Seq<u8> {
    seq![69u8, 110u8, 100u8]
}

// ------------------------------------------------- element byte layouts

pub open spec fn i8s_to_bytes(a: Seq<i8>) -> Seq<u8> {
    Seq::new(a.len(), |i: int| a[i] as u8)
}

pub open spec fn be4_byte(v: i32, k: int) -> u8 {
    (((v as u32) >> (((3 - k) * 8) as u32)) & 0xff) as u8
}

pub open spec fn i32s_to_bytes(a: Seq<i32>) -> Seq<u8> {
    Seq::new(a.len() * 4, |i: int| be4_byte(a[i / 4], i % 4))
}

pub open spec fn be8_byte(v: i64, k: int) -> u8 {
    (((v as u64) >> (((7 - k) * 8) as u64)) & 0xff) as u8
}

pub open spec fn i64s_to_bytes(a: Seq<i64>) -> Seq<u8> {
    Seq::new(a.len() * 8, |i: int| be8_byte(a[i / 8], i % 8))
}

pub open spec fn bytes_to_i8s(b: Seq<u8>) -> Seq<i8> {
    Seq::new(b.len(), |i: int| b[i] as i8)
}

pub open spec fn from_be4(b0: u8, b1: u8, b2: u8, b3: u8) -> i32 {
    ((b0 as u32) << 24u32 | (b1 as u32) << 16u32 | (b2 as u32) << 8u32 | (b3 as u32)) as i32
}

pub open spec fn bytes_to_i32s(b: Seq<u8>) -> Seq<i32> {
    Seq::new(b.len() / 4, |k: int| from_be4(b[4 * k], b[4 * k + 1], b[4 * k + 2], b[4 * k + 3]))
}

pub open spec fn from_be8(b0: u8, b1: u8, b2: u8, b3: u8, b4: u8, b5: u8, b6: u8, b7: u8) -> i64 {
    ((b0 as u64) << 56u64 | (b1 as u64) << 48u64 | (b2 as u64) << 40u64 | (b3 as u64) << 32u64 | (
    b4 as u64) << 24u64 | (b5 as u64) << 16u64 | (b6 as u64) << 8u64 | (b7 as u64)) as i64
}

pub open spec fn bytes_to_i64s(b: Seq<u8>) -> Seq<i64> {
    Seq::new(
        b.len() / 8,
        |k: int|
            from_be8(
                b[8 * k],
                b[8 * k + 1],
                b[8 * k + 2],
                b[8 * k + 3],
                b[8 * k + 4],
                b[8 * k + 5],
                b[8 * k + 6],
                b[8 * k + 7],
            ),
    )
}

// ------------------------------------------------------------ encoding

/// What the encoder emits for each tag value.
pub open spec fn spec_encode(t: TagM) -> DocM
    decreases t,
{
    match t {
        TagM::Byte(v) => DocM::Str(dec_int(v as int) + seq![98u8]),
        TagM::Short(v) => DocM::Str(dec_int(v as int) + seq![115u8]),
        TagM::Int(v) => DocM::Int(v as i64),
        TagM::Long(v) => DocM::Str(dec_int(v as int) + seq![76u8]),
        TagM::Float(bits) => DocM::Str(f32_dec_of(bits) + seq![102u8]),
        TagM::Double(bits) => if f64_is_finite(bits) {
            DocM::Float(bits)
        } else {
            DocM::Str(f64_dec_of(bits) + seq![100u8])
        },
        TagM::Str(s) => if type_like(s) {
            DocM::Str(s + marker())
        } else {
            DocM::Str(s)
        },
        TagM::ByteArray(a) => DocM::Str(seq![66u8, 59u8] + b64_of(i8s_to_bytes(a))),
        TagM::IntArray(a) => DocM::Str(seq![73u8, 59u8] + b64_of(i32s_to_bytes(a))),
        TagM::LongArray(a) => DocM::Str(seq![76u8, 59u8] + b64_of(i64s_to_bytes(a))),
        TagM::List(l) => if l.len() == 0 {
            DocM::Obj(seq![(empty_list_key(), DocM::Str(end_lit()))])
        } else {
            DocM::Arr(
                Seq::new(
                    l.len(),
                    |i: int|
                        if 0 <= i < l.len() {
                            spec_encode(l[i])
                        } else {
                            DocM::Null
                        },
                ),
            )
        },
        TagM::Compound(m) => DocM::Obj(
            Seq::new(
                m.len(),
                |i: int|
                    if 0 <= i < m.len() {
                        (m[i].0, spec_encode(m[i].1))
                    } else {
                        (Seq::empty(), DocM::Null)
                    },
            ),
        ),
    }
}

// ------------------------------------------------------------ decoding

/// Decode of one encoded string, by the disambiguation chain.
pub open spec fn spec_decode_str(s: Seq<u8>) -> Option<TagM> {
    if ends_with_marker(s) {
        Some(TagM::Str(s.take(s.len() - 2)))
    } else if array_shape(s) {
        let payload = s.skip(2);
        if exists|b: Seq<u8>| payload == b64_of(b) {
            let b = choose|b: Seq<u8>| payload == b64_of(b);
            if s[0] == 66 {
                Some(TagM::ByteArray(bytes_to_i8s(b)))
            } else if s[0] == 73 {
                if b.len() % 4 == 0 {
                    Some(TagM::IntArray(bytes_to_i32s(b)))
                } else {
                    None
                }
            } else {
                if b.len() % 8 == 0 {
                    Some(TagM::LongArray(bytes_to_i64s(b)))
                } else {
                    None
                }
            }
        } else {
            None
        }
    } else if s.len() >= 1 && s[s.len() - 1] == 98 && int_syntax(s.drop_last()) && i8::MIN
        <= int_val(s.drop_last()) <= i8::MAX {
        Some(TagM::Byte(int_val(s.drop_last()) as i8))
    } else if s.len() >= 1 && s[s.len() - 1] == 115 && int_syntax(s.drop_last()) && i16::MIN
        <= int_val(s.drop_last()) <= i16::MAX {
        Some(TagM::Short(int_val(s.drop_last()) as i16))
    } else if s.len() >= 1 && s[s.len() - 1] == 76 && int_syntax(s.drop_last()) && i64::MIN
        <= int_val(s.drop_last()) <= i64::MAX {
        Some(TagM::Long(int_val(s.drop_last()) as i64))
    } else if s.len() >= 1 && s[s.len() - 1] == 102 && f32_val_of(s.drop_last()) is Some {
        Some(TagM::Float(f32_val_of(s.drop_last())->0))
    } else {
        Some(TagM::Str(s))
    }
}

/// Decode of the first `n` elements of an array.
pub open spec fn spec_decode_list(s: Seq<DocM>, n: int) -> Option<Seq<TagM>>
    decreases s, n,
{
    if n <= 0 {
        Some(Seq::empty())
    } else if n > s.len() {
        None
    } else {
        match spec_decode_list(s, n - 1) {
            Some(acc) => match spec_decode(s[n - 1]) {
                Some(t) => Some(acc.push(t)),
                None => None,
            },
            None => None,
        }
    }
}

/// Decode of the first `n` entries of an object.
pub open spec fn spec_decode_obj(m: Seq<(Seq<u8>, DocM)>, n: int) -> Option<Seq<(Seq<u8>, TagM)>>
    decreases m, n,
{
    if n <= 0 {
        Some(Seq::empty())
    } else if n > m.len() {
        None
    } else {
        match spec_decode_obj(m, n - 1) {
            Some(acc) => match spec_decode(m[n - 1].1) {
                Some(t) => Some(acc.push((m[n - 1].0, t))),
                None => None,
            },
            None => None,
        }
    }
}

/// What the decoder yields for each document node; `None` is the one
/// failure, a string with an array prefix whose base64 payload is not a
/// canonical encoding or does not divide into whole elements.
pub open spec fn spec_decode(d: DocM) -> Option<TagM>
    decreases d,
{
    match d {
        DocM::Null => Some(TagM::Byte(0)),
        DocM::Bool(b) => Some(TagM::Byte(if b { 1i8 } else { 0i8 })),
        DocM::Int(i) => if i32::MIN <= i <= i32::MAX {
            Some(TagM::Int(i as i32))
        } else {
            Some(TagM::Long(i))
        },
        DocM::Float(bits) => Some(TagM::Double(bits)),
        DocM::Str(s) => spec_decode_str(s),
        DocM::Arr(elems) => match spec_decode_list(elems, elems.len() as int) {
            Some(ts) => Some(TagM::List(ts)),
            None => None,
        },
        DocM::Obj(m) => if m.len() == 1 && m[0].0 == empty_list_key() {
            Some(TagM::List(Seq::empty()))
        } else {
            match spec_decode_obj(m, m.len() as int) {
                Some(ps) => Some(TagM::Compound(ps)),
                None => None,
            }
        },
    }
}

// -------------------------------------------------------- encodability

/// The base64 encoding is faithful at this byte string: no other input
/// shares its image, and the image stays inside the alphabet (so it can
/// never end in the escape marker). The second half restates, value by
/// value, what `b64_encode`'s contract says of its output; the first
/// half holds because decoding exists, but quantifies over two inputs at
/// once, which no single call's contract can give a proof.
pub open spec fn b64_clean(bytes: Seq<u8>) -> bool {
    (forall|b: Seq<u8>| b64_of(b) == b64_of(bytes) ==> b == bytes) && (forall|i: int|
        0 <= i < b64_of(bytes).len() ==> crate::ext::is_b64_byte(#[trigger] b64_of(bytes)[i]))
}

/// The tag values whose encoding decodes back to themselves. Every clause
/// here is true of the outside encodings on all real values; they are
/// spelled out because the round-trip law quantifies over the names that
/// stand for those encodings. The genuine exclusions: a NaN float payload,
/// a non-finite double, a string that ends in the escape marker without
/// being type-like, and a compound whose single key is the empty-list
/// sentinel.
pub open spec fn encodable(t: TagM) -> bool
    decreases t,
{
    match t {
        TagM::Byte(_) => true,
        TagM::Short(_) => true,
        TagM::Int(_) => true,
        TagM::Long(_) => true,
        TagM::Float(bits) => f32_val_of(f32_dec_of(bits)) == Some(bits) && float_dec_shape(
            f32_dec_of(bits),
        ),
        TagM::Double(bits) => f64_is_finite(bits),
        TagM::Str(s) => (type_like(s) || !ends_with_marker(s)) && (s.len() >= 1 && s[s.len() - 1]
            == 102 ==> ((f32_val_of(s.drop_last()) is Some) == float_syntax(s.drop_last()))),
        TagM::ByteArray(a) => b64_clean(i8s_to_bytes(a)),
        TagM::IntArray(a) => b64_clean(i32s_to_bytes(a)),
        TagM::LongArray(a) => b64_clean(i64s_to_bytes(a)),
        TagM::List(l) => forall|i: int| 0 <= i < l.len() ==> encodable(#[trigger] l[i]),
        TagM::Compound(m) => !(m.len() == 1 && m[0].0 == empty_list_key()) && (forall|i: int|
            0 <= i < m.len() ==> encodable(#[trigger] m[i].1)),
    }
}


// ------------------------------------------------------ round-trip law

/// The documents of the elements of a list.
pub open spec fn encode_seq(l: Seq<TagM>) -> Seq<DocM> {
    Seq::new(
        l.len(),
        |i: int|
            if 0 <= i < l.len() {
                spec_encode(l[i])
            } else {
                DocM::Null
            },
    )
}

/// The object entries of the entries of a compound.
pub open spec fn encode_pairs(m: Seq<(Seq<u8>, TagM)>) -> Seq<(Seq<u8>, DocM)> {
    Seq::new(
        m.len(),
        |i: int|
            if 0 <= i < m.len() {
                (m[i].0, spec_encode(m[i].1))
            } else {
                (Seq::empty(), DocM::Null)
            },
    )
}

proof fn lemma_i8s_roundtrip(a: Seq<i8>)
    ensures
        bytes_to_i8s(i8s_to_bytes(a)) == a,
{
    assert forall|i: int| 0 <= i < a.len() implies bytes_to_i8s(i8s_to_bytes(a))[i] == a[i] by {
        let x = a[i];
        assert(x as u8 as i8 == x) by (bit_vector);
    }
    assert(bytes_to_i8s(i8s_to_bytes(a)) =~= a);
}

proof fn lemma_be4_roundtrip(v: i32)
    ensures
        from_be4(be4_byte(v, 0), be4_byte(v, 1), be4_byte(v, 2), be4_byte(v, 3)) == v,
{
    assert((((v as u32 >> 24u32) & 0xff) as u8 as u32) << 24u32 | (((v as u32 >> 16u32) & 0xff)
        as u8 as u32) << 16u32 | (((v as u32 >> 8u32) & 0xff) as u8 as u32) << 8u32 | (((v as u32
        >> 0u32) & 0xff) as u8 as u32) == v as u32) by (bit_vector);
    assert(v as u32 as i32 == v) by (bit_vector);
}

proof fn lemma_i32s_roundtrip(a: Seq<i32>)
    ensures
        i32s_to_bytes(a).len() == a.len() * 4,
        bytes_to_i32s(i32s_to_bytes(a)) == a,
{
    let b = i32s_to_bytes(a);
    assert forall|k: int| 0 <= k < a.len() implies bytes_to_i32s(b)[k] == a[k] by {
        assert((4 * k) / 4 == k && (4 * k) % 4 == 0);
        assert((4 * k + 1) / 4 == k && (4 * k + 1) % 4 == 1);
        assert((4 * k + 2) / 4 == k && (4 * k + 2) % 4 == 2);
        assert((4 * k + 3) / 4 == k && (4 * k + 3) % 4 == 3);
        assert(b[4 * k] == be4_byte(a[k], 0));
        assert(b[4 * k + 1] == be4_byte(a[k], 1));
        assert(b[4 * k + 2] == be4_byte(a[k], 2));
        assert(b[4 * k + 3] == be4_byte(a[k], 3));
        lemma_be4_roundtrip(a[k]);
    }
    assert(bytes_to_i32s(b) =~= a);
}

proof fn lemma_be8_roundtrip(v: i64)
    ensures
        from_be8(
            be8_byte(v, 0),
            be8_byte(v, 1),
            be8_byte(v, 2),
            be8_byte(v, 3),
            be8_byte(v, 4),
            be8_byte(v, 5),
            be8_byte(v, 6),
            be8_byte(v, 7),
        ) == v,
{
    assert((((v as u64 >> 56u64) & 0xff) as u8 as u64) << 56u64 | (((v as u64 >> 48u64) & 0xff)
        as u8 as u64) << 48u64 | (((v as u64 >> 40u64) & 0xff) as u8 as u64) << 40u64 | (((v
        as u64 >> 32u64) & 0xff) as u8 as u64) << 32u64 | (((v as u64 >> 24u64) & 0xff) as u8
        as u64) << 24u64 | (((v as u64 >> 16u64) & 0xff) as u8 as u64) << 16u64 | (((v as u64
        >> 8u64) & 0xff) as u8 as u64) << 8u64 | (((v as u64 >> 0u64) & 0xff) as u8 as u64) == v
        as u64) by (bit_vector);
    assert(v as u64 as i64 == v) by (bit_vector);
}

proof fn lemma_i64s_roundtrip(a: Seq<i64>)
    ensures
        i64s_to_bytes(a).len() == a.len() * 8,
        bytes_to_i64s(i64s_to_bytes(a)) == a,
{
    let b = i64s_to_bytes(a);
    assert forall|k: int| 0 <= k < a.len() implies bytes_to_i64s(b)[k] == a[k] by {
        assert(b[8 * k] == be8_byte(a[k], 0));
        assert(b[8 * k + 1] == be8_byte(a[k], 1));
        assert(b[8 * k + 2] == be8_byte(a[k], 2));
        assert(b[8 * k + 3] == be8_byte(a[k], 3));
        assert(b[8 * k + 4] == be8_byte(a[k], 4));
        assert(b[8 * k + 5] == be8_byte(a[k], 5));
        assert(b[8 * k + 6] == be8_byte(a[k], 6));
        assert(b[8 * k + 7] == be8_byte(a[k], 7));
        lemma_be8_roundtrip(a[k]);
    }
    assert(bytes_to_i64s(b) =~= a);
}

/// A decimal-with-suffix string takes the intended branch of the chain.
proof fn lemma_decode_suffix_shape(body: Seq<u8>, suf: u8)
    requires
        body.len() >= 1,
        body[0] == 45 || (48 <= body[0] && body[0] <= 57) || body[0] == 105 || body[0] == 78,
        suf == 98 || suf == 115 || suf == 76 || suf == 102 || suf == 100,
    ensures
        !ends_with_marker(body + seq![suf]),
        !array_shape(body + seq![suf]),
        (body + seq![suf]).drop_last() == body,
        (body + seq![suf]).len() >= 1,
        (body + seq![suf])[(body + seq![suf]).len() - 1] == suf,
{
    let s = body + seq![suf];
    assert(s.len() == body.len() + 1);
    assert(s[s.len() - 1] == suf);
    assert(s[0] == body[0]);
    assert(s.drop_last() =~= body);
    if s.len() >= 2 {
        assert(!(s[0] == 66 || s[0] == 73 || s[0] == 76));
    }
    assert(s[s.len() - 1] != 48);
}

/// Round trip through a base64-carried array string.
proof fn lemma_decode_array_shape(pre: u8, bytes: Seq<u8>)
    requires
        pre == 66 || pre == 73 || pre == 76,
        b64_clean(bytes),
    ensures
        !ends_with_marker(seq![pre, 59u8] + b64_of(bytes)),
        array_shape(seq![pre, 59u8] + b64_of(bytes)),
        (seq![pre, 59u8] + b64_of(bytes)).skip(2) == b64_of(bytes),
        (seq![pre, 59u8] + b64_of(bytes))[0] == pre,
{
    let e = b64_of(bytes);
    let s = seq![pre, 59u8] + e;
    assert(s.len() == 2 + e.len());
    assert(s[0] == pre && s[1] == 59);
    assert(s.skip(2) =~= e);
    if e.len() == 0 {
        assert(s[s.len() - 2] == pre);
        assert(pre != 92);
    } else if e.len() == 1 {
        assert(s[s.len() - 2] == 59);
    } else {
        assert(s[s.len() - 2] == e[e.len() - 2]);
        assert(e[e.len() - 2] != 92);
    }
}

/// The round-trip law: decoding an encoded tag gives the tag back.
pub proof fn lemma_round_trip(t: TagM)
    requires
        encodable(t),
    ensures
        spec_decode(spec_encode(t)) == Some(t),
    decreases t, 0int,
{
    match t {
        TagM::Byte(v) => {
            crate::numfmt::lemma_dec_int(v as int);
            lemma_decode_suffix_shape(dec_int(v as int), 98);
            let s = dec_int(v as int) + seq![98u8];
            assert(int_syntax(s.drop_last()) && int_val(s.drop_last()) == v as int);
            assert(spec_decode_str(s) == Some(TagM::Byte(v)));
        },
        TagM::Short(v) => {
            crate::numfmt::lemma_dec_int(v as int);
            lemma_decode_suffix_shape(dec_int(v as int), 115);
            let s = dec_int(v as int) + seq![115u8];
            assert(int_syntax(s.drop_last()) && int_val(s.drop_last()) == v as int);
            assert(spec_decode_str(s) == Some(TagM::Short(v)));
        },
        TagM::Int(v) => {
            assert(spec_decode(spec_encode(t)) == Some(TagM::Int(v)));
        },
        TagM::Long(v) => {
            crate::numfmt::lemma_dec_int(v as int);
            lemma_decode_suffix_shape(dec_int(v as int), 76);
            let s = dec_int(v as int) + seq![76u8];
            assert(int_syntax(s.drop_last()) && int_val(s.drop_last()) == v as int);
            assert(spec_decode_str(s) == Some(TagM::Long(v)));
        },
        TagM::Float(bits) => {
            lemma_decode_suffix_shape(f32_dec_of(bits), 102);
            let s = f32_dec_of(bits) + seq![102u8];
            assert(f32_val_of(s.drop_last()) == Some(bits));
            assert(spec_decode_str(s) == Some(TagM::Float(bits)));
        },
        TagM::Double(bits) => {
            assert(spec_encode(t) == DocM::Float(bits));
        },
        TagM::Str(s) => {
            if type_like(s) {
                let e = s + marker();
                assert(e.len() >= 2 && e[e.len() - 2] == 92 && e[e.len() - 1] == 48);
                assert(ends_with_marker(e));
                assert(e.take(e.len() - 2) =~= s);
            } else {
                assert(!ends_with_marker(s));
                assert(!array_shape(s));
                if s.len() >= 1 && is_suffix_byte(s[s.len() - 1]) {
                    if s.len() >= 2 {
                        assert(!float_syntax(s.drop_last()));
                    } else {
                        assert(s.drop_last().len() == 0);
                        assert(!float_syntax(s.drop_last()));
                    }
                    if int_syntax(s.drop_last()) {
                        crate::numfmt::lemma_int_syntax_is_float_syntax(s.drop_last());
                        assert(false);
                    }
                    if s[s.len() - 1] == 102 {
                        assert(f32_val_of(s.drop_last()) is None);
                    }
                }
                assert(spec_decode_str(s) == Some(TagM::Str(s)));
            }
        },
        TagM::ByteArray(a) => {
            lemma_decode_array_shape(66, i8s_to_bytes(a));
            let s = seq![66u8, 59u8] + b64_of(i8s_to_bytes(a));
            assert(s.skip(2) == b64_of(i8s_to_bytes(a)));
            let w = choose|b: Seq<u8>| s.skip(2) == b64_of(b);
            assert(s.skip(2) == b64_of(i8s_to_bytes(a)));
            assert(b64_of(w) == b64_of(i8s_to_bytes(a)));
            assert(w == i8s_to_bytes(a));
            lemma_i8s_roundtrip(a);
        },
        TagM::IntArray(a) => {
            lemma_decode_array_shape(73, i32s_to_bytes(a));
            let s = seq![73u8, 59u8] + b64_of(i32s_to_bytes(a));
            let w = choose|b: Seq<u8>| s.skip(2) == b64_of(b);
            assert(b64_of(w) == b64_of(i32s_to_bytes(a)));
            assert(w == i32s_to_bytes(a));
            lemma_i32s_roundtrip(a);
            assert(w.len() % 4 == 0);
        },
        TagM::LongArray(a) => {
            lemma_decode_array_shape(76, i64s_to_bytes(a));
            let s = seq![76u8, 59u8] + b64_of(i64s_to_bytes(a));
            let w = choose|b: Seq<u8>| s.skip(2) == b64_of(b);
            assert(b64_of(w) == b64_of(i64s_to_bytes(a)));
            assert(w == i64s_to_bytes(a));
            lemma_i64s_roundtrip(a);
            assert(w.len() % 8 == 0);
        },
        TagM::List(l) => {
            if l.len() == 0 {
                assert(spec_decode(spec_encode(t)) == Some(TagM::List(Seq::<TagM>::empty())));
                assert(Seq::<TagM>::empty() =~= l);
            } else {
                let e = encode_seq(l);
                assert(spec_encode(t) matches DocM::Arr(x) && x =~= e);
                lemma_round_trip_list(l, l.len() as int);
                assert(l.take(l.len() as int) =~= l);
                assert(spec_decode(DocM::Arr(e)) == Some(TagM::List(l)));
            }
        },
        TagM::Compound(m) => {
            let e = encode_pairs(m);
            assert(spec_encode(t) matches DocM::Obj(x) && x =~= e);
            if e.len() == 1 && e[0].0 == empty_list_key() {
                assert(m[0].0 == empty_list_key());
                assert(false);
            }
            lemma_round_trip_obj(m, m.len() as int);
            assert(m.take(m.len() as int) =~= m);
            assert(spec_decode(DocM::Obj(e)) == Some(TagM::Compound(m)));
        },
    }
}

proof fn lemma_round_trip_list(l: Seq<TagM>, n: int)
    requires
        forall|i: int| 0 <= i < l.len() ==> encodable(#[trigger] l[i]),
        0 <= n <= l.len(),
    ensures
        spec_decode_list(encode_seq(l), n) == Some(l.take(n)),
    decreases l, n,
{
    if n == 0 {
        assert(l.take(0) =~= Seq::<TagM>::empty());
    } else {
        lemma_round_trip_list(l, n - 1);
        lemma_round_trip(l[n - 1]);
        assert(encode_seq(l)[n - 1] == spec_encode(l[n - 1]));
        assert(l.take(n - 1).push(l[n - 1]) =~= l.take(n));
    }
}

proof fn lemma_round_trip_obj(m: Seq<(Seq<u8>, TagM)>, n: int)
    requires
        forall|i: int| 0 <= i < m.len() ==> encodable(#[trigger] m[i].1),
        0 <= n <= m.len(),
    ensures
        spec_decode_obj(encode_pairs(m), n) == Some(m.take(n)),
    decreases m, n,
{
    if n == 0 {
        assert(m.take(0) =~= Seq::<(Seq<u8>, TagM)>::empty());
    } else {
        lemma_round_trip_obj(m, n - 1);
        lemma_round_trip(m[n - 1].1);
        assert(encode_pairs(m)[n - 1] == (m[n - 1].0, spec_encode(m[n - 1].1)));
        assert(m.take(n - 1).push((m[n - 1].0, m[n - 1].1)) =~= m.take(n));
        assert((m[n - 1].0, m[n - 1].1) == m[n - 1]);
    }
}


// ------------------------------------------------------------ exec side

/// The arrays the encoder can hand to the base64 engine without its
/// length computation overflowing `usize`.
pub open spec fn sizes_ok(t: TagM) -> bool
    decreases t,
{
    match t {
        TagM::ByteArray(a) => a.len() <= 0x1000_0000_0000_0000,
        TagM::IntArray(a) => a.len() * 4 <= 0x1000_0000_0000_0000,
        TagM::LongArray(a) => a.len() * 8 <= 0x1000_0000_0000_0000,
        TagM::List(l) => forall|i: int| 0 <= i < l.len() ==> sizes_ok(#[trigger] l[i]),
        TagM::Compound(m) => forall|i: int| 0 <= i < m.len() ==> sizes_ok(#[trigger] m[i].1),
        _ => true,
    }
}

/// The decoder's one failure: a base64 payload that is not canonical, or
/// one that does not divide into whole elements.
#[derive(Debug, PartialEq, Eq)]
pub enum CodecError {
    BadBase64,
    BadArrayLength,
}

/// Checks whether a literal string would be mistaken for an encoded
/// value, so that the encoder knows to escape it.
pub fn is_type_like_string(s: &[u8]) -> (r: bool)
    ensures
        r == type_like(s@),
{
    let n = s.len();
    if n < 2 {
        return false;
    }
    let last = s[n - 1];
    if last == 98 || last == 115 || last == 76 || last == 102 {
        let body = &s[0..n - 1];
        proof {
            assert(body@ =~= s@.drop_last());
        }
        if crate::numfmt::float_syntax_exec(body) {
            return true;
        }
    }
    s[1] == 59 && (s[0] == 66 || s[0] == 73 || s[0] == 76)
}

fn i8s_bytes(a: &Vec<i8>) -> (r: Vec<u8>)
    ensures
        r@ == i8s_to_bytes(a@),
{
    let mut out: Vec<u8> = Vec::new();
    let mut i: usize = 0;
    while i < a.len()
        invariant
            0 <= i <= a@.len(),
            out@ =~= i8s_to_bytes(a@).take(i as int),
        decreases a@.len() - i,
    {
        out.push(a[i] as u8);
        i = i + 1;
    }
    proof {
        assert(out@ =~= i8s_to_bytes(a@));
    }
    out
}

#[verifier::loop_isolation(false)]
fn i32s_bytes(a: &Vec<i32>) -> (r: Vec<u8>)
    requires
        a@.len() * 4 <= 0x1000_0000_0000_0000,
    ensures
        r@ == i32s_to_bytes(a@),
{
    let mut out: Vec<u8> = Vec::new();
    let mut i: usize = 0;
    while i < a.len()
        invariant
            0 <= i <= a@.len(),
            out@ =~= i32s_to_bytes(a@).take(i as int * 4),
        decreases a@.len() - i,
    {
        let u = a[i] as u32;
        out.push(((u >> 24u32) & 0xff) as u8);
        out.push(((u >> 16u32) & 0xff) as u8);
        out.push(((u >> 8u32) & 0xff) as u8);
        out.push((u & 0xff) as u8);
        proof {
            let v = a@[i as int];
            assert((u >> 0u32) & 0xff == u & 0xff) by (bit_vector);
            assert forall|j: int| 0 <= j < 4 implies i32s_to_bytes(a@)[i as int * 4 + j]
                == be4_byte(v, j) by {
                assert((i as int * 4 + j) / 4 == i as int && (i as int * 4 + j) % 4 == j);
            }
            assert(out@ =~= i32s_to_bytes(a@).take((i + 1) as int * 4));
        }
        i = i + 1;
    }
    proof {
        assert(out@ =~= i32s_to_bytes(a@));
    }
    out
}

#[verifier::loop_isolation(false)]
fn i64s_bytes(a: &Vec<i64>) -> (r: Vec<u8>)
    requires
        a@.len() * 8 <= 0x1000_0000_0000_0000,
    ensures
        r@ == i64s_to_bytes(a@),
{
    let mut out: Vec<u8> = Vec::new();
    let mut i: usize = 0;
    while i < a.len()
        invariant
            0 <= i <= a@.len(),
            out@ =~= i64s_to_bytes(a@).take(i as int * 8),
        decreases a@.len() - i,
    {
        let u = a[i] as u64;
        out.push(((u >> 56u64) & 0xff) as u8);
        out.push(((u >> 48u64) & 0xff) as u8);
        out.push(((u >> 40u64) & 0xff) as u8);
        out.push(((u >> 32u64) & 0xff) as u8);
        out.push(((u >> 24u64) & 0xff) as u8);
        out.push(((u >> 16u64) & 0xff) as u8);
        out.push(((u >> 8u64) & 0xff) as u8);
        out.push((u & 0xff) as u8);
        proof {
            let v = a@[i as int];
            assert((u >> 0u64) & 0xff == u & 0xff) by (bit_vector);
            assert forall|j: int| 0 <= j < 8 implies i64s_to_bytes(a@)[i as int * 8 + j]
                == be8_byte(v, j) by {
                assert((i as int * 8 + j) / 8 == i as int && (i as int * 8 + j) % 8 == j);
            }
            assert(out@ =~= i64s_to_bytes(a@).take((i + 1) as int * 8));
        }
        i = i + 1;
    }
    proof {
        assert(out@ =~= i64s_to_bytes(a@));
    }
    out
}

fn suffixed(mut body: Vec<u8>, suf: u8) -> (r: Doc)
    ensures
        r@ == DocM::Str(body@ + seq![suf]),
{
    let ghost b0 = body@;
    body.push(suf);
    proof {
        assert(body@ =~= b0 + seq![suf]);
    }
    Doc::Str(body)
}

fn prefixed_b64(pre: u8, bytes: &Vec<u8>) -> (r: Doc)
    requires
        bytes@.len() <= 0x1000_0000_0000_0000,
    ensures
        r@ == DocM::Str(seq![pre, 59u8] + b64_of(bytes@)),
{
    let enc = b64_encode(bytes.as_slice());
    let mut s: Vec<u8> = Vec::new();
    s.push(pre);
    s.push(59);
    extend_bytes(&mut s, enc.as_slice());
    proof {
        assert(s@ =~= seq![pre, 59u8] + b64_of(bytes@));
    }
    Doc::Str(s)
}

/// Encodes one tag tree as a document tree.
#[verifier::loop_isolation(false)]
pub fn nbt_to_json(t: &Tag) -> (r: Doc)
    requires
        sizes_ok(t@),
    ensures
        r@ == spec_encode(t@),
    decreases *t,
{
    broadcast use vstd::string::is_ascii_spec_bytes;

    match t {
        Tag::Byte(v) => suffixed(render_i64(*v as i64), 98),
        Tag::Short(v) => suffixed(render_i64(*v as i64), 115),
        Tag::Int(v) => Doc::Int(*v as i64),
        Tag::Long(v) => suffixed(render_i64(*v), 76),
        Tag::Float(bits) => suffixed(f32_render(*bits), 102),
        Tag::Double(bits) => {
            let exp = (*bits >> 52u64) & 0x7ff;
            if exp != 0x7ff {
                Doc::Float(*bits)
            } else {
                suffixed(f64_render_dec(*bits), 100)
            }
        },
        Tag::Str(s) => {
            if is_type_like_string(s.as_slice()) {
                let mut e = bytes_of(s.as_slice());
                e.push(92);
                e.push(48);
                proof {
                    assert(e@ =~= s@ + marker());
                }
                Doc::Str(e)
            } else {
                Doc::Str(bytes_of(s.as_slice()))
            }
        },
        Tag::ByteArray(a) => {
            let bytes = i8s_bytes(a);
            prefixed_b64(66, &bytes)
        },
        Tag::IntArray(a) => {
            let bytes = i32s_bytes(a);
            prefixed_b64(73, &bytes)
        },
        Tag::LongArray(a) => {
            let bytes = i64s_bytes(a);
            prefixed_b64(76, &bytes)
        },
        Tag::List(l) => {
            if l.len() == 0 {
                let key = bytes_of("[]".as_bytes());
                let val = bytes_of("End".as_bytes());
                proof {
                    reveal_strlit("[]");
                    reveal_strlit("End");
                    assert(vstd::string::is_ascii("[]"));
                    assert(vstd::string::is_ascii("End"));
                    assert(key@ =~= empty_list_key());
                    assert(val@ =~= end_lit());
                }
                let ghost kv = key@;
                let ghost vv = val@;
                let mut entries: Vec<(Vec<u8>, Doc)> = Vec::new();
                entries.push((key, Doc::Str(val)));
                let r = Doc::Obj(entries);
                proof {
                    assert(entries@.len() == 1);
                    assert(entries@[0].0@ == kv);
                    assert(entries@[0].1@ == DocM::Str(vv));
                    let rv = r@;
                    assert(t@ matches TagM::List(lm) && lm.len() == 0);
                    assert(rv matches DocM::Obj(es) && spec_encode(t@) matches DocM::Obj(ss)
                        && es.len() == 1 && ss.len() == 1 && es[0].0 == kv && es[0].1
                        == DocM::Str(vv) && ss[0].0 == empty_list_key() && ss[0].1 == DocM::Str(
                        end_lit(),
                    ) && es =~~= ss);
                    assert(rv == spec_encode(t@));
                }
                r
            } else {
                proof {
                    reveal_with_fuel(<Tag as vstd::view::View>::view, 2);
                    assert(t@ matches TagM::List(x));
                    assert(t@->List_0.len() == l@.len());
                    assert forall|j: int| 0 <= j < l@.len() implies t@->List_0[j] == l@[j]@ by {}
                }
                let mut out: Vec<Doc> = Vec::new();
                let mut i: usize = 0;
                while i < l.len()
                    invariant
                        0 <= i <= l@.len(),
                        out@.len() == i,
                        forall|j: int| 0 <= j < i ==> out@[j]@ == spec_encode(#[trigger] l@[j]@),
                    decreases l@.len() - i,
                {
                    proof {
                        assert(t@ matches TagM::List(lm) && lm[i as int] == l@[i as int]@);
                    }
                    let d = nbt_to_json(&l[i]);
                    out.push(d);
                    i = i + 1;
                }
                let r = Doc::Arr(out);
                proof {
                    reveal_with_fuel(<Doc as vstd::view::View>::view, 2);
                    let lm = t@->List_0;
                    assert(lm.len() == l@.len());
                    assert(r@ matches DocM::Arr(ds) && ds.len() == out@.len());
                    assert forall|j: int|
                        0 <= j < lm.len() implies encode_seq(lm)[j] == spec_encode(l@[j]@) by {
                        assert(lm[j] == l@[j]@);
                    }
                    assert(r@ matches DocM::Arr(ds) && spec_encode(t@) matches DocM::Arr(es) && ds
                        =~= encode_seq(lm) && es =~= encode_seq(lm));
                    assert(r@ == spec_encode(t@));
                }
                r
            }
        },
        Tag::Compound(m) => {
            proof {
                reveal_with_fuel(<Tag as vstd::view::View>::view, 2);
                assert(t@ matches TagM::Compound(x));
                assert(t@->Compound_0.len() == m@.len());
                assert forall|j: int|
                    0 <= j < m@.len() implies t@->Compound_0[j] == (m@[j].0@, m@[j].1@) by {}
            }
            let mut out: Vec<(Vec<u8>, Doc)> = Vec::new();
            let mut i: usize = 0;
            while i < m.len()
                invariant
                    0 <= i <= m@.len(),
                    out@.len() == i,
                    forall|j: int|
                        0 <= j < i ==> (#[trigger] out@[j]).0@ == m@[j].0@ && out@[j].1@
                            == spec_encode(m@[j].1@),
                decreases m@.len() - i,
            {
                proof {
                    assert(t@ matches TagM::Compound(mm) && mm[i as int] == (m@[i as int].0@, m@[
                        i as int
                    ].1@));
                    assert(t@->Compound_0[i as int].1 == m@[i as int].1@);
                    assert(sizes_ok(m@[i as int].1@));
                }
                let key = bytes_of(m[i].0.as_slice());
                let d = nbt_to_json(&m[i].1);
                out.push((key, d));
                i = i + 1;
            }
            let r = Doc::Obj(out);
            proof {
                reveal_with_fuel(<Doc as vstd::view::View>::view, 2);
                let mm = t@->Compound_0;
                assert(mm.len() == m@.len());
                assert forall|j: int|
                    0 <= j < mm.len() implies encode_pairs(mm)[j] == (m@[j].0@, spec_encode(
                    m@[j].1@,
                )) by {
                    assert(mm[j] == (m@[j].0@, m@[j].1@));
                }
                assert(r@ matches DocM::Obj(ds) && spec_encode(t@) matches DocM::Obj(es) && ds
                    =~~= encode_pairs(mm) && es =~~= encode_pairs(mm));
                assert(r@ == spec_encode(t@));
            }
            r
        },
    }
}


proof fn lemma_dlist_none(s: Seq<DocM>, i: int, n: int)
    requires
        0 <= i < n <= s.len(),
        spec_decode_list(s, i + 1) is None,
    ensures
        spec_decode_list(s, n) is None,
    decreases n,
{
    if n > i + 1 {
        lemma_dlist_none(s, i, n - 1);
    }
}

proof fn lemma_dobj_none(s: Seq<(Seq<u8>, DocM)>, i: int, n: int)
    requires
        0 <= i < n <= s.len(),
        spec_decode_obj(s, i + 1) is None,
    ensures
        spec_decode_obj(s, n) is None,
    decreases n,
{
    if n > i + 1 {
        lemma_dobj_none(s, i, n - 1);
    }
}

fn bytes_as_i8s(b: &Vec<u8>) -> (r: Vec<i8>)
    ensures
        r@ == bytes_to_i8s(b@),
{
    let mut out: Vec<i8> = Vec::new();
    let mut i: usize = 0;
    while i < b.len()
        invariant
            0 <= i <= b@.len(),
            out@ =~= bytes_to_i8s(b@).take(i as int),
        decreases b@.len() - i,
    {
        out.push(b[i] as i8);
        i = i + 1;
    }
    proof {
        assert(out@ =~= bytes_to_i8s(b@));
    }
    out
}

#[verifier::loop_isolation(false)]
fn bytes_as_i32s(b: &Vec<u8>) -> (r: Vec<i32>)
    requires
        b@.len() % 4 == 0,
    ensures
        r@ == bytes_to_i32s(b@),
{
    let mut out: Vec<i32> = Vec::new();
    let mut i: usize = 0;
    while i < b.len()
        invariant
            0 <= i <= b@.len(),
            i % 4 == 0,
            out@ =~= bytes_to_i32s(b@).take(i as int / 4),
        decreases b@.len() - i,
    {
        let v = ((b[i] as u32) << 24u32 | (b[i + 1] as u32) << 16u32 | (b[i + 2] as u32) << 8u32 | (
        b[i + 3] as u32)) as i32;
        out.push(v);
        proof {
            let k = i as int / 4;
            assert(4 * k == i as int);
            assert(v == bytes_to_i32s(b@)[k]);
            assert(out@ =~= bytes_to_i32s(b@).take(k + 1));
        }
        i = i + 4;
    }
    proof {
        assert(i == b@.len());
        assert(out@ =~= bytes_to_i32s(b@));
    }
    out
}

#[verifier::loop_isolation(false)]
fn bytes_as_i64s(b: &Vec<u8>) -> (r: Vec<i64>)
    requires
        b@.len() % 8 == 0,
    ensures
        r@ == bytes_to_i64s(b@),
{
    let mut out: Vec<i64> = Vec::new();
    let mut i: usize = 0;
    while i < b.len()
        invariant
            0 <= i <= b@.len(),
            i % 8 == 0,
            out@ =~= bytes_to_i64s(b@).take(i as int / 8),
        decreases b@.len() - i,
    {
        let v = ((b[i] as u64) << 56u64 | (b[i + 1] as u64) << 48u64 | (b[i + 2] as u64) << 40u64
            | (b[i + 3] as u64) << 32u64 | (b[i + 4] as u64) << 24u64 | (b[i + 5] as u64) << 16u64
            | (b[i + 6] as u64) << 8u64 | (b[i + 7] as u64)) as i64;
        out.push(v);
        proof {
            let k = i as int / 8;
            assert(8 * k == i as int);
            assert(v == bytes_to_i64s(b@)[k]);
            assert(out@ =~= bytes_to_i64s(b@).take(k + 1));
        }
        i = i + 8;
    }
    proof {
        assert(i == b@.len());
        assert(out@ =~= bytes_to_i64s(b@));
    }
    out
}

/// Decodes one encoded string by the disambiguation chain.
fn decode_str_tag(s: &[u8]) -> (r: Result<Tag, CodecError>)
    ensures
        (r is Ok) == (spec_decode_str(s@) is Some),
        r matches Ok(t) ==> Some(t@) == spec_decode_str(s@),
{
    let n = s.len();
    if n >= 2 && s[n - 2] == 92 && s[n - 1] == 48 {
        let body = bytes_of(&s[0..n - 2]);
        proof {
            assert(body@ =~= s@.take(s@.len() - 2));
        }
        return Ok(Tag::Str(body));
    }
    if n >= 2 && s[1] == 59 && (s[0] == 66 || s[0] == 73 || s[0] == 76) {
        let payload = &s[2..n];
        proof {
            assert(payload@ =~= s@.skip(2));
        }
        match b64_decode(payload) {
            None => {
                return Err(CodecError::BadBase64);
            },
            Some(bytes) => {
                proof {
                    let w = choose|b: Seq<u8>| payload@ == b64_of(b);
                    assert(payload@ == b64_of(w));
                    assert(bytes.deep_view() == Some(w)->0);
                    assert(bytes.deep_view() =~= bytes@);
                    assert(bytes@ == w);
                }
                if s[0] == 66 {
                    return Ok(Tag::ByteArray(bytes_as_i8s(&bytes)));
                } else if s[0] == 73 {
                    if bytes.len() % 4 != 0 {
                        return Err(CodecError::BadArrayLength);
                    }
                    return Ok(Tag::IntArray(bytes_as_i32s(&bytes)));
                } else {
                    if bytes.len() % 8 != 0 {
                        return Err(CodecError::BadArrayLength);
                    }
                    return Ok(Tag::LongArray(bytes_as_i64s(&bytes)));
                }
            },
        }
    }
    if n >= 1 {
        let body = &s[0..n - 1];
        proof {
            assert(body@ =~= s@.drop_last());
        }
        let last = s[n - 1];
        if last == 98 {
            match parse_i8(body) {
                Some(v) => {
                    return Ok(Tag::Byte(v));
                },
                None => {},
            }
        } else if last == 115 {
            match parse_i16(body) {
                Some(v) => {
                    return Ok(Tag::Short(v));
                },
                None => {},
            }
        } else if last == 76 {
            match parse_i64(body) {
                Some(v) => {
                    return Ok(Tag::Long(v));
                },
                None => {},
            }
        } else if last == 102 {
            match f32_parse(body) {
                Some(bits) => {
                    return Ok(Tag::Float(bits));
                },
                None => {},
            }
        }
    }
    Ok(Tag::Str(bytes_of(s)))
}

/// Decodes one document tree back into a tag tree; the only failure is a
/// malformed base64 array payload.
#[verifier::loop_isolation(false)]
pub fn json_to_nbt(d: &Doc) -> (r: Result<Tag, CodecError>)
    ensures
        (r is Ok) == (spec_decode(d@) is Some),
        r matches Ok(t) ==> Some(t@) == spec_decode(d@),
    decreases *d,
{
    broadcast use vstd::string::is_ascii_spec_bytes;

    match d {
        Doc::Null => Ok(Tag::Byte(0)),
        Doc::Bool(b) => Ok(Tag::Byte(if *b { 1 } else { 0 })),
        Doc::Int(i) => {
            if *i >= -2147483648i64 && *i <= 2147483647i64 {
                Ok(Tag::Int(*i as i32))
            } else {
                Ok(Tag::Long(*i))
            }
        },
        Doc::Float(bits) => Ok(Tag::Double(*bits)),
        Doc::Str(s) => {
            let r = decode_str_tag(s.as_slice());
            proof {
                assert(d@ == DocM::Str(s@));
            }
            r
        },
        Doc::Arr(elems) => {
            proof {
                reveal_with_fuel(<Doc as vstd::view::View>::view, 2);
                assert(d@ matches DocM::Arr(x));
                assert(d@->Arr_0.len() == elems@.len());
                assert forall|j: int|
                    0 <= j < elems@.len() implies d@->Arr_0[j] == elems@[j]@ by {}
            }
            let ghost ev = d@->Arr_0;
            let mut out: Vec<Tag> = Vec::new();
            let mut i: usize = 0;
            while i < elems.len()
                invariant
                    0 <= i <= elems@.len(),
                    out@.len() == i,
                    spec_decode_list(ev, i as int) == Some(crate::tag::tags_vview(out@)),
                decreases elems@.len() - i,
            {
                let ghost pre = crate::tag::tags_vview(out@);
                match json_to_nbt(&elems[i]) {
                    Ok(t) => {
                        out.push(t);
                        proof {
                            assert(crate::tag::tags_vview(out@) =~= pre.push(t@));
                            assert(spec_decode_list(ev, i as int + 1) == Some(pre.push(t@)));
                        }
                    },
                    Err(e) => {
                        proof {
                            assert(spec_decode(ev[i as int]) is None);
                            assert(spec_decode_list(ev, i as int + 1) is None);
                            lemma_dlist_none(ev, i as int, ev.len() as int);
                        }
                        return Err(e);
                    },
                }
                i = i + 1;
            }
            let r = Tag::List(out);
            proof {
                reveal_with_fuel(<Tag as vstd::view::View>::view, 2);
                assert(r@ matches TagM::List(x) && x =~= crate::tag::tags_vview(out@));
                assert(spec_decode(d@) == Some(TagM::List(crate::tag::tags_vview(out@))));
            }
            Ok(r)
        },
        Doc::Obj(m) => {
            proof {
                reveal_with_fuel(<Doc as vstd::view::View>::view, 2);
                assert(d@ matches DocM::Obj(x));
                assert(d@->Obj_0.len() == m@.len());
                assert forall|j: int|
                    0 <= j < m@.len() implies d@->Obj_0[j] == (m@[j].0@, m@[j].1@) by {}
            }
            let ghost mv = d@->Obj_0;
            if m.len() == 1 {
                let key0 = &m[0].0;
                let lit = "[]";
                proof {
                    reveal_strlit("[]");
                    assert(vstd::string::is_ascii("[]"));
                    assert(lit.spec_bytes() =~= empty_list_key());
                }
                if crate::util::bytes_eq(key0.as_slice(), lit.as_bytes()) {
                    let r = Tag::List(Vec::new());
                    proof {
                        reveal_with_fuel(<Tag as vstd::view::View>::view, 2);
                        assert(mv[0].0 == empty_list_key());
                        assert(r@ matches TagM::List(x) && x =~= Seq::<TagM>::empty());
                    }
                    return Ok(r);
                }
            }
            proof {
                if mv.len() == 1 && mv[0].0 == empty_list_key() {
                    assert(m@[0].0@ == empty_list_key());
                    assert(false);
                }
            }
            let mut out: Vec<(Vec<u8>, Tag)> = Vec::new();
            let mut i: usize = 0;
            while i < m.len()
                invariant
                    0 <= i <= m@.len(),
                    out@.len() == i,
                    spec_decode_obj(mv, i as int) == Some(crate::tag::pairs_vview(out@)),
                decreases m@.len() - i,
            {
                let ghost pre = crate::tag::pairs_vview(out@);
                let key = bytes_of(m[i].0.as_slice());
                match json_to_nbt(&m[i].1) {
                    Ok(t) => {
                        let ghost tv = t@;
                        let ghost kv = key@;
                        out.push((key, t));
                        proof {
                            assert(crate::tag::pairs_vview(out@) =~= pre.push((kv, tv)));
                            assert(spec_decode_obj(mv, i as int + 1) == Some(pre.push((kv, tv))));
                        }
                    },
                    Err(e) => {
                        proof {
                            assert(spec_decode(mv[i as int].1) is None);
                            assert(spec_decode_obj(mv, i as int + 1) is None);
                            lemma_dobj_none(mv, i as int, mv.len() as int);
                        }
                        return Err(e);
                    },
                }
                i = i + 1;
            }
            let r = Tag::Compound(out);
            proof {
                reveal_with_fuel(<Tag as vstd::view::View>::view, 2);
                assert(r@ matches TagM::Compound(x) && x =~= crate::tag::pairs_vview(out@));
                assert(spec_decode(d@) == Some(TagM::Compound(crate::tag::pairs_vview(out@))));
            }
            Ok(r)
        },
    }
}


/// Decides the encoder's size bounds, so a caller can test them before
/// asking for an export.
#[verifier::loop_isolation(false)]
pub fn tag_sizes_ok(t: &Tag) -> (r: bool)
    ensures
        r == sizes_ok(t@),
    decreases *t,
{
    match t {
        Tag::ByteArray(a) => (a.len() as u64) <= 0x1000_0000_0000_0000u64,
        Tag::IntArray(a) => (a.len() as u64) <= 0x400_0000_0000_0000u64,
        Tag::LongArray(a) => (a.len() as u64) <= 0x200_0000_0000_0000u64,
        Tag::List(l) => {
            proof {
                reveal_with_fuel(<Tag as vstd::view::View>::view, 2);
                assert(t@ matches TagM::List(x) && x.len() == l@.len());
                assert forall|j: int| 0 <= j < l@.len() implies t@->List_0[j] == l@[j]@ by {}
            }
            let mut i: usize = 0;
            while i < l.len()
                invariant
                    0 <= i <= l@.len(),
                    forall|j: int| 0 <= j < i ==> sizes_ok(#[trigger] l@[j]@),
                decreases l@.len() - i, 0int,
            {
                if !tag_sizes_ok(&l[i]) {
                    proof {
                        assert(!sizes_ok(t@->List_0[i as int]));
                    }
                    return false;
                }
                i = i + 1;
            }
            proof {
                assert forall|j: int| 0 <= j < t@->List_0.len() implies sizes_ok(
                    #[trigger] t@->List_0[j],
                ) by {
                    assert(t@->List_0[j] == l@[j]@);
                }
            }
            true
        },
        Tag::Compound(m) => {
            proof {
                reveal_with_fuel(<Tag as vstd::view::View>::view, 2);
                assert(t@ matches TagM::Compound(x) && x.len() == m@.len());
                assert forall|j: int|
                    0 <= j < m@.len() implies t@->Compound_0[j] == (m@[j].0@, m@[j].1@) by {}
            }
            let mut i: usize = 0;
            while i < m.len()
                invariant
                    0 <= i <= m@.len(),
                    forall|j: int| 0 <= j < i ==> sizes_ok(#[trigger] m@[j].1@),
                decreases m@.len() - i, 0int,
            {
                if !tag_sizes_ok(&m[i].1) {
                    proof {
                        assert(!sizes_ok(t@->Compound_0[i as int].1));
                    }
                    return false;
                }
                i = i + 1;
            }
            proof {
                assert forall|j: int| 0 <= j < t@->Compound_0.len() implies sizes_ok(
                    (#[trigger] t@->Compound_0[j]).1,
                ) by {
                    assert(t@->Compound_0[j].1 == m@[j].1@);
                }
            }
            true
        },
        _ => true,
    }
}

} // verus!
