//! The binary-tag value model: a closed set of nine scalar and container
//! kinds. Floating-point values are carried as their IEEE-754 bit patterns,
//! strings as their UTF-8 bytes, so that every field is a plain value.

use vstd::prelude::*;

verus! {

broadcast use {
    vstd::std_specs::vec::group_vec_axioms,
    vstd::seq::group_seq_axioms,
};

/// One tag value. A compound is an ordered list of (key, value) pairs;
/// key order is kept through every transform, though it carries no meaning.
#[derive(Debug)]
pub enum Tag {
    Byte(i8),
    Short(i16),
    Int(i32),
    Long(i64),
    /// IEEE-754 bits of a 32-bit float.
    Float(u32),
    /// IEEE-754 bits of a 64-bit float.
    Double(u64),
    /// UTF-8 bytes.
    Str(Vec<u8>),
    ByteArray(Vec<i8>),
    IntArray(Vec<i32>),
    LongArray(Vec<i64>),
    List(Vec<Tag>),
    Compound(Vec<(Vec<u8>, Tag)>),
}

/// The mathematical shape of a tag value.
#[verifier::ext_equal]
pub enum TagM {
    Byte(i8),
    Short(i16),
    Int(i32),
    Long(i64),
    Float(u32),
    Double(u64),
    Str(Seq<u8>),
    ByteArray(Seq<i8>),
    IntArray(Seq<i32>),
    LongArray(Seq<i64>),
    List(Seq<TagM>),
    Compound(Seq<(Seq<u8>, TagM)>),
}

impl View for Tag {
    type V = TagM;

    open spec fn view(&self) -> TagM
        decreases self,
    {
        match self {
            Tag::Byte(v) => TagM::Byte(*v),
            Tag::Short(v) => TagM::Short(*v),
            Tag::Int(v) => TagM::Int(*v),
            Tag::Long(v) => TagM::Long(*v),
            Tag::Float(v) => TagM::Float(*v),
            Tag::Double(v) => TagM::Double(*v),
            Tag::Str(s) => TagM::Str(s@),
            Tag::ByteArray(a) => TagM::ByteArray(a@),
            Tag::IntArray(a) => TagM::IntArray(a@),
            Tag::LongArray(a) => TagM::LongArray(a@),
            Tag::List(l) => TagM::List(
                Seq::new(
                    l@.len(),
                    |i: int|
                        if 0 <= i < l@.len() {
                            l@[i]@
                        } else {
                            TagM::Byte(0)
                        },
                ),
            ),
            Tag::Compound(m) => TagM::Compound(
                Seq::new(
                    m@.len(),
                    |i: int|
                        if 0 <= i < m@.len() {
                            (m@[i].0@, m@[i].1@)
                        } else {
                            (Seq::empty(), TagM::Byte(0))
                        },
                ),
            ),
        }
    }
}

/// One record of a container: a grid position and its tag tree.
#[derive(Debug)]
pub struct ChunkData {
    pub x: i32,
    pub z: i32,
    pub data: Tag,
}


/// The element views of a list of tags.
pub open spec fn tags_vview(s: Seq<Tag>) -> Seq<TagM> {
    Seq::new(s.len(), |i: int| s[i]@)
}

/// The entry views of a list of compound entries.
pub open spec fn pairs_vview(s: Seq<(Vec<u8>, Tag)>) -> Seq<(Seq<u8>, TagM)> {
    Seq::new(s.len(), |i: int| (s[i].0@, s[i].1@))
}

} // verus!
