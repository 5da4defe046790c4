//! The structured-document counterpart of a tag tree: the interchange form
//! that is written out as text. Numbers keep their integer-or-float origin
//! explicitly, which the codec needs for an exact round trip; a float is
//! carried as its IEEE-754 bit pattern.

use vstd::prelude::*;

verus! {

broadcast use {
    vstd::std_specs::vec::group_vec_axioms,
    vstd::seq::group_seq_axioms,
};

/// One document node. An object is an ordered list of (key, value) pairs.
#[derive(Debug)]
pub enum Doc {
    Null,
    Bool(bool),
    Int(i64),
    /// IEEE-754 bits of a 64-bit float.
    Float(u64),
    /// UTF-8 bytes.
    Str(Vec<u8>),
    Arr(Vec<Doc>),
    Obj(Vec<(Vec<u8>, Doc)>),
}

/// The mathematical shape of a document node.
#[verifier::ext_equal]
pub enum DocM {
    Null,
    Bool(bool),
    Int(i64),
    Float(u64),
    Str(Seq<u8>),
    Arr(Seq<DocM>),
    Obj(Seq<(Seq<u8>, DocM)>),
}

impl View for Doc {
    type V = DocM;

    open spec fn view(&self) -> DocM
        decreases self,
    {
        match self {
            Doc::Null => DocM::Null,
            Doc::Bool(b) => DocM::Bool(*b),
            Doc::Int(v) => DocM::Int(*v),
            Doc::Float(v) => DocM::Float(*v),
            Doc::Str(s) => DocM::Str(s@),
            Doc::Arr(l) => DocM::Arr(
                Seq::new(
                    l@.len(),
                    |i: int|
                        if 0 <= i < l@.len() {
                            l@[i]@
                        } else {
                            DocM::Null
                        },
                ),
            ),
            Doc::Obj(m) => DocM::Obj(
                Seq::new(
                    m@.len(),
                    |i: int|
                        if 0 <= i < m@.len() {
                            (m@[i].0@, m@[i].1@)
                        } else {
                            (Seq::empty(), DocM::Null)
                        },
                ),
            ),
        }
    }
}


/// The element views of a list of documents.
pub open spec fn docs_vview(s: Seq<Doc>) -> Seq<DocM> {
    Seq::new(s.len(), |i: int| s[i]@)
}

/// The entry views of a list of object entries.
pub open spec fn doc_pairs_vview(s: Seq<(Vec<u8>, Doc)>) -> Seq<(Seq<u8>, DocM)> {
    Seq::new(s.len(), |i: int| (s[i].0@, s[i].1@))
}

} // verus!
