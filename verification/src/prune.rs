//! Pruning of encoded records: dropping sections that hold nothing but
//! air, dropping empty objects, arrays and the empty-list sentinel, and
//! deciding whether a record still carries any data worth keeping.

use vstd::prelude::*;
use crate::doc::{doc_pairs_vview, docs_vview, Doc, DocM};
use crate::util::{bytes_eq, bytes_of};

verus! {

broadcast use {
    vstd::std_specs::vec::group_vec_axioms,
    vstd::seq::group_seq_axioms,
};

use vstd::string::StringSliceAdditionalSpecFns;

/// The first entry with the key, if any.
pub open spec fn spec_obj_get(m: Seq<(Seq<u8>, DocM)>, k: Seq<u8>) -> Option<DocM>
    decreases m.len(),
{
    if m.len() == 0 {
        None
    } else if m[0].0 == k {
        Some(m[0].1)
    } else {
        spec_obj_get(m.drop_first(), k)
    }
}

/// Lookup on a node: only an object yields entries.
pub open spec fn spec_doc_get(d: DocM, k: Seq<u8>) -> Option<DocM> {
    match d {
        DocM::Obj(o) => spec_obj_get(o, k),
        _ => None,
    }
}

/// Whether any entry has the key.
pub open spec fn spec_obj_has(m: Seq<(Seq<u8>, DocM)>, k: Seq<u8>) -> bool {
    exists|i: int| 0 <= i < m.len() && m[i].0 == k
}

/// A section is empty exactly when its `block_states` carries no packed
/// `data` key and its palette is a one-entry array naming the air
/// material. Everything else is kept: a section that is no object, one
/// without `block_states`, one with a `data` key, and one whose palette
/// is missing, oddly shaped, or names anything besides air.
pub open spec fn spec_is_empty_section(sec: DocM) -> bool {
    match sec {
        DocM::Obj(o) => match spec_obj_get(o, "block_states".spec_bytes()) {
            None => false,
            Some(bs) => spec_doc_get(bs, "data".spec_bytes()) is None && (match spec_doc_get(
                bs,
                "palette".spec_bytes(),
            ) {
                Some(DocM::Arr(arr)) => arr.len() == 1 && (match spec_doc_get(
                    arr[0],
                    "Name".spec_bytes(),
                ) {
                    Some(DocM::Str(s)) => s == "air".spec_bytes(),
                    _ => false,
                }),
                _ => false,
            }),
        },
        _ => false,
    }
}

/// The sections that survive pruning.
pub open spec fn spec_keep_sections(l: Seq<DocM>) -> Seq<DocM>
    decreases l.len(),
{
    if l.len() == 0 {
        Seq::empty()
    } else if spec_is_empty_section(l.last()) {
        spec_keep_sections(l.drop_last())
    } else {
        spec_keep_sections(l.drop_last()).push(l.last())
    }
}

/// Prune the array under every `sections` entry.
pub open spec fn spec_filter_empty_sections(d: DocM) -> DocM {
    match d {
        DocM::Obj(m) => DocM::Obj(
            Seq::new(
                m.len(),
                |i: int|
                    if m[i].0 == "sections".spec_bytes() {
                        (
                            m[i].0,
                            match m[i].1 {
                                DocM::Arr(l) => DocM::Arr(spec_keep_sections(l)),
                                other => other,
                            },
                        )
                    } else {
                        m[i]
                    },
            ),
        ),
        _ => d,
    }
}

/// An empty object, an empty array, or the empty-list sentinel object.
pub open spec fn spec_is_empty_doc(v: DocM) -> bool {
    match v {
        DocM::Obj(o) => (o.len() == 1 && spec_obj_has(o, crate::codec::empty_list_key())) || o.len()
            == 0,
        DocM::Arr(a) => a.len() == 0,
        _ => false,
    }
}

/// The entries whose pruned values are not empty.
pub open spec fn spec_keep_entries(m: Seq<(Seq<u8>, DocM)>) -> Seq<(Seq<u8>, DocM)>
    decreases m.len(),
{
    if m.len() == 0 {
        Seq::empty()
    } else if spec_is_empty_doc(m.last().1) {
        spec_keep_entries(m.drop_last())
    } else {
        spec_keep_entries(m.drop_last()).push(m.last())
    }
}

/// Prune empty values everywhere: under an object, prune each value and
/// drop the entries that end up empty; under an array, prune each element
/// but keep them all.
pub open spec fn spec_filter_empty(d: DocM) -> DocM
    decreases d, 0int,
{
    match d {
        DocM::Obj(m) => DocM::Obj(spec_keep_entries(spec_filter_entries(m, m.len() as int))),
        DocM::Arr(a) => DocM::Arr(spec_filter_elems(a, a.len() as int)),
        _ => d,
    }
}

/// The first `n` entries, each value pruned.
pub open spec fn spec_filter_entries(m: Seq<(Seq<u8>, DocM)>, n: int) -> Seq<(Seq<u8>, DocM)>
    decreases m, n,
{
    if n <= 0 || n > m.len() {
        Seq::empty()
    } else {
        spec_filter_entries(m, n - 1).push((m[n - 1].0, spec_filter_empty(m[n - 1].1)))
    }
}

/// The first `n` elements, each pruned.
pub open spec fn spec_filter_elems(a: Seq<DocM>, n: int) -> Seq<DocM>
    decreases a, n,
{
    if n <= 0 || n > a.len() {
        Seq::empty()
    } else {
        spec_filter_elems(a, n - 1).push(spec_filter_empty(a[n - 1]))
    }
}

/// A record still carries data when its pruned `sections` or
/// `block_entities` arrays are non-empty.
pub open spec fn spec_has_chunk_data(d: DocM) -> bool {
    match d {
        DocM::Obj(o) => (spec_obj_get(o, "sections".spec_bytes()) matches Some(DocM::Arr(a))
            && a.len() > 0) || (spec_obj_get(o, "block_entities".spec_bytes()) matches Some(
            DocM::Arr(b),
        ) && b.len() > 0),
        _ => false,
    }
}

// ------------------------------------------------------------ exec side

/// A structural copy of a document tree.
#[verifier::loop_isolation(false)]
pub fn clone_doc(d: &Doc) -> (r: Doc)
    ensures
        r@ == d@,
    decreases *d,
{
    match d {
        Doc::Null => Doc::Null,
        Doc::Bool(b) => Doc::Bool(*b),
        Doc::Int(v) => Doc::Int(*v),
        Doc::Float(v) => Doc::Float(*v),
        Doc::Str(s) => Doc::Str(bytes_of(s.as_slice())),
        Doc::Arr(l) => {
            proof {
                reveal_with_fuel(<Doc as vstd::view::View>::view, 2);
                assert(d@ matches DocM::Arr(x) && x.len() == l@.len());
                assert forall|j: int| 0 <= j < l@.len() implies d@->Arr_0[j] == l@[j]@ by {}
            }
            let mut out: Vec<Doc> = Vec::new();
            let mut i: usize = 0;
            while i < l.len()
                invariant
                    0 <= i <= l@.len(),
                    out@.len() == i,
                    forall|j: int| 0 <= j < i ==> out@[j]@ == #[trigger] l@[j]@,
                decreases l@.len() - i, 0int,
            {
                let c = clone_doc(&l[i]);
                out.push(c);
                i = i + 1;
            }
            let r = Doc::Arr(out);
            proof {
                reveal_with_fuel(<Doc as vstd::view::View>::view, 2);
                assert(r@ matches DocM::Arr(y) && y =~= d@->Arr_0);
            }
            r
        },
        Doc::Obj(m) => {
            proof {
                reveal_with_fuel(<Doc as vstd::view::View>::view, 2);
                assert(d@ matches DocM::Obj(x) && x.len() == m@.len());
                assert forall|j: int|
                    0 <= j < m@.len() implies d@->Obj_0[j] == (m@[j].0@, m@[j].1@) by {}
            }
            let mut out: Vec<(Vec<u8>, Doc)> = Vec::new();
            let mut i: usize = 0;
            while i < m.len()
                invariant
                    0 <= i <= m@.len(),
                    out@.len() == i,
                    forall|j: int|
                        0 <= j < i ==> (#[trigger] out@[j]).0@ == m@[j].0@ && out@[j].1@
                            == m@[j].1@,
                decreases m@.len() - i, 0int,
            {
                let k = bytes_of(m[i].0.as_slice());
                let v = clone_doc(&m[i].1);
                out.push((k, v));
                i = i + 1;
            }
            let r = Doc::Obj(out);
            proof {
                reveal_with_fuel(<Doc as vstd::view::View>::view, 2);
                assert(r@ matches DocM::Obj(y) && y =~~= d@->Obj_0);
            }
            r
        },
    }
}

/// The first entry with the key, if any.
#[verifier::loop_isolation(false)]
pub fn obj_get<'a>(m: &'a Vec<(Vec<u8>, Doc)>, k: &[u8]) -> (r: Option<&'a Doc>)
    ensures
        (r is Some) == (spec_obj_get(doc_pairs_vview(m@), k@) is Some),
        r matches Some(v) ==> Some(v@) == spec_obj_get(doc_pairs_vview(m@), k@),
{
    let ghost mv = doc_pairs_vview(m@);
    proof {
        assert(mv.skip(0) =~= mv);
    }
    let mut i: usize = 0;
    while i < m.len()
        invariant
            0 <= i <= m@.len(),
            spec_obj_get(mv.skip(i as int), k@) == spec_obj_get(mv, k@),
            forall|j: int| 0 <= j < i ==> mv[j].0 != k@,
        decreases m@.len() - i,
    {
        proof {
            assert(mv[i as int] == (m@[i as int].0@, m@[i as int].1@));
            assert(mv.skip(i as int)[0] == mv[i as int]);
        }
        if bytes_eq(m[i].0.as_slice(), k) {
            proof {
                assert(spec_obj_get(mv.skip(i as int), k@) == Some(mv[i as int].1));
            }
            return Some(&m[i].1);
        }
        proof {
            assert(mv.skip(i as int).drop_first() =~= mv.skip(i as int + 1));
        }
        i = i + 1;
    }
    proof {
        assert(mv.skip(m@.len() as int) =~= Seq::<(Seq<u8>, DocM)>::empty());
    }
    None
}

/// Whether a section holds nothing but air.
pub fn is_empty_section(sec: &Doc) -> (r: bool)
    ensures
        r == spec_is_empty_section(sec@),
{
    broadcast use vstd::string::is_ascii_spec_bytes;

    proof {
        reveal_strlit("block_states");
        reveal_strlit("palette");
        reveal_strlit("data");
        reveal_strlit("Name");
        reveal_strlit("air");
    }
    match sec {
        Doc::Obj(o) => {
            proof {
                reveal_with_fuel(<Doc as vstd::view::View>::view, 2);
                assert(sec@ matches DocM::Obj(x) && x =~= doc_pairs_vview(o@));
            }
            let bs = match obj_get(o, "block_states".as_bytes()) {
                None => {
                    return false;
                },
                Some(bs) => bs,
            };
            match bs {
                Doc::Obj(bso) => {
                    proof {
                        reveal_with_fuel(<Doc as vstd::view::View>::view, 2);
                        assert(bs@ matches DocM::Obj(y) && y =~= doc_pairs_vview(bso@));
                    }
                    if obj_get(bso, "data".as_bytes()).is_some() {
                        return false;
                    }
                    match obj_get(bso, "palette".as_bytes()) {
                        Some(Doc::Arr(arr)) => {
                            proof {
                                reveal_with_fuel(<Doc as vstd::view::View>::view, 2);
                            }
                            if arr.len() != 1 {
                                return false;
                            }
                            proof {
                                assert(docs_vview(arr@)[0] == arr@[0]@);
                            }
                            match &arr[0] {
                                Doc::Obj(first) => {
                                    proof {
                                        reveal_with_fuel(<Doc as vstd::view::View>::view, 2);
                                        assert(arr@[0]@ matches DocM::Obj(w) && w =~=
                                        doc_pairs_vview(first@));
                                    }
                                    match obj_get(first, "Name".as_bytes()) {
                                        Some(Doc::Str(nm)) => bytes_eq(
                                            nm.as_slice(),
                                            "air".as_bytes(),
                                        ),
                                        _ => false,
                                    }
                                },
                                _ => false,
                            }
                        },
                        _ => false,
                    }
                },
                _ => false,
            }
        },
        _ => false,
    }
}

/// Drops the all-air sections from every `sections` array of a record.
#[verifier::loop_isolation(false)]
pub fn filter_empty_sections(chunk: &mut Doc)
    ensures
        final(chunk)@ == spec_filter_empty_sections(old(chunk)@),
{
    broadcast use vstd::string::is_ascii_spec_bytes;

    proof {
        reveal_strlit("sections");
    }
    let mut tmp = Doc::Null;
    core::mem::swap(chunk, &mut tmp);
    match tmp {
        Doc::Obj(m) => {
            proof {
                reveal_with_fuel(<Doc as vstd::view::View>::view, 2);
                assert(old(chunk)@ matches DocM::Obj(x) && x =~= doc_pairs_vview(m@));
            }
            let ghost mv = doc_pairs_vview(m@);
            let mut out: Vec<(Vec<u8>, Doc)> = Vec::new();
            let mut i: usize = 0;
            while i < m.len()
                invariant
                    0 <= i <= m@.len(),
                    out@.len() == i,
                    forall|j: int|
                        0 <= j < i ==> doc_pairs_vview(out@)[j] == (if mv[j].0
                            == "sections".spec_bytes() {
                            (
                                mv[j].0,
                                match mv[j].1 {
                                    DocM::Arr(l) => DocM::Arr(spec_keep_sections(l)),
                                    other => other,
                                },
                            )
                        } else {
                            mv[j]
                        }),
                decreases m@.len() - i,
            {
                proof {
                    assert(mv[i as int] == (m@[i as int].0@, m@[i as int].1@));
                }
                let ghost pre = doc_pairs_vview(out@);
                let key = bytes_of(m[i].0.as_slice());
                if bytes_eq(key.as_slice(), "sections".as_bytes()) {
                    let newv = match &m[i].1 {
                        Doc::Arr(l) => {
                            proof {
                                reveal_with_fuel(<Doc as vstd::view::View>::view, 2);
                                assert(m@[i as int].1@ matches DocM::Arr(x) && x.len()
                                    == l@.len());
                                assert forall|q: int|
                                    0 <= q < l@.len() implies m@[i as int].1@->Arr_0[q] == l@[
                                    q
                                ]@ by {}
                            }
                            let ghost lv = m@[i as int].1@->Arr_0;
                            let mut nl: Vec<Doc> = Vec::new();
                            let mut q: usize = 0;
                            while q < l.len()
                                invariant
                                    0 <= q <= l@.len(),
                                    docs_vview(nl@) == spec_keep_sections(lv.take(q as int)),
                                decreases l@.len() - q,
                            {
                                proof {
                                    assert(lv.take(q as int + 1).drop_last() =~= lv.take(
                                        q as int,
                                    ));
                                    assert(lv.take(q as int + 1).last() == lv[q as int]);
                                    assert(lv[q as int] == l@[q as int]@);
                                }
                                let ghost pre2 = docs_vview(nl@);
                                if !is_empty_section(&l[q]) {
                                    let c = clone_doc(&l[q]);
                                    nl.push(c);
                                    proof {
                                        assert(docs_vview(nl@) =~= pre2.push(lv[q as int]));
                                    }
                                }
                                q = q + 1;
                            }
                            proof {
                                assert(lv.take(l@.len() as int) =~= lv);
                            }
                            let r = Doc::Arr(nl);
                            proof {
                                reveal_with_fuel(<Doc as vstd::view::View>::view, 2);
                                assert(r@ matches DocM::Arr(y) && y =~= docs_vview(nl@));
                            }
                            r
                        },
                        other => clone_doc(other),
                    };
                    out.push((key, newv));
                } else {
                    let v = clone_doc(&m[i].1);
                    out.push((key, v));
                }
                proof {
                    assert(doc_pairs_vview(out@) =~= pre.push(doc_pairs_vview(out@)[i as int]));
                }
                i = i + 1;
            }
            let r = Doc::Obj(out);
            proof {
                reveal_with_fuel(<Doc as vstd::view::View>::view, 2);
                assert(r@ matches DocM::Obj(y) && y =~= doc_pairs_vview(out@));
                let sv = spec_filter_empty_sections(old(chunk)@);
                assert(sv matches DocM::Obj(z) && z.len() == out@.len());
                assert forall|j: int|
                    0 <= j < out@.len() implies r@->Obj_0[j] == sv->Obj_0[j] by {
                    assert(r@->Obj_0[j] == doc_pairs_vview(out@)[j]);
                }
                assert(r@->Obj_0 =~= sv->Obj_0);
                assert(r@ == sv);
            }
            *chunk = r;
        },
        other => {
            *chunk = other;
        },
    }
}

/// Whether a node is an empty object, an empty array, or the sentinel.
pub fn is_empty_json_value(v: &Doc) -> (r: bool)
    ensures
        r == spec_is_empty_doc(v@),
{
    broadcast use vstd::string::is_ascii_spec_bytes;

    proof {
        reveal_strlit("[]");
    }
    match v {
        Doc::Obj(o) => {
            proof {
                reveal_with_fuel(<Doc as vstd::view::View>::view, 2);
                assert(v@ matches DocM::Obj(x) && x =~= doc_pairs_vview(o@));
            }
            if o.len() == 0 {
                return true;
            }
            if o.len() == 1 {
                let ghost ov = doc_pairs_vview(o@);
                proof {
                    assert(vstd::string::is_ascii("[]"));
                    assert("[]".spec_bytes() =~= crate::codec::empty_list_key());
                    assert(ov[0] == (o@[0].0@, o@[0].1@));
                }
                if bytes_eq(o[0].0.as_slice(), "[]".as_bytes()) {
                    proof {
                        assert(ov[0].0 == crate::codec::empty_list_key());
                        assert(spec_obj_has(ov, crate::codec::empty_list_key()));
                    }
                    return true;
                }
                proof {
                    if spec_obj_has(ov, crate::codec::empty_list_key()) {
                        let j = choose|j: int|
                            0 <= j < ov.len() && ov[j].0 == crate::codec::empty_list_key();
                        assert(j == 0);
                    }
                }
                return false;
            }
            false
        },
        Doc::Arr(a) => {
            proof {
                reveal_with_fuel(<Doc as vstd::view::View>::view, 2);
                assert(v@ matches DocM::Arr(x) && x.len() == a@.len());
            }
            a.len() == 0
        },
        _ => false,
    }
}

/// Prunes empty values everywhere under a node, building the result.
#[verifier::loop_isolation(false)]
fn filter_empty_ref(d: &Doc) -> (r: Doc)
    ensures
        r@ == spec_filter_empty(d@),
    decreases *d,
{
    match d {
        Doc::Obj(m) => {
            proof {
                reveal_with_fuel(<Doc as vstd::view::View>::view, 2);
                assert(d@ matches DocM::Obj(x) && x =~= doc_pairs_vview(m@));
                assert forall|j: int|
                    0 <= j < m@.len() implies d@->Obj_0[j] == (m@[j].0@, m@[j].1@) by {}
            }
            let ghost mv = d@->Obj_0;
            let mut out: Vec<(Vec<u8>, Doc)> = Vec::new();
            let mut i: usize = 0;
            while i < m.len()
                invariant
                    0 <= i <= m@.len(),
                    doc_pairs_vview(out@) == spec_keep_entries(spec_filter_entries(mv, i as int)),
                decreases m@.len() - i, 0int,
            {
                proof {
                    assert(mv[i as int] == (m@[i as int].0@, m@[i as int].1@));
                    assert(spec_filter_entries(mv, i as int + 1) == spec_filter_entries(
                        mv,
                        i as int,
                    ).push((mv[i as int].0, spec_filter_empty(mv[i as int].1))));
                    assert(spec_filter_entries(mv, i as int + 1).drop_last() =~=
                    spec_filter_entries(mv, i as int));
                }
                let ghost pre = doc_pairs_vview(out@);
                let key = bytes_of(m[i].0.as_slice());
                let nv = filter_empty_ref(&m[i].1);
                if !is_empty_json_value(&nv) {
                    let ghost nvv = nv@;
                    out.push((key, nv));
                    proof {
                        assert(doc_pairs_vview(out@) =~= pre.push((m@[i as int].0@, nvv)));
                    }
                }
                i = i + 1;
            }
            let r = Doc::Obj(out);
            proof {
                reveal_with_fuel(<Doc as vstd::view::View>::view, 2);
                assert(r@ matches DocM::Obj(y) && y =~= doc_pairs_vview(out@));
                assert(r@ == spec_filter_empty(d@));
            }
            r
        },
        Doc::Arr(a) => {
            proof {
                reveal_with_fuel(<Doc as vstd::view::View>::view, 2);
                assert(d@ matches DocM::Arr(x) && x.len() == a@.len());
                assert forall|j: int| 0 <= j < a@.len() implies d@->Arr_0[j] == a@[j]@ by {}
            }
            let ghost av = d@->Arr_0;
            let mut out: Vec<Doc> = Vec::new();
            let mut i: usize = 0;
            while i < a.len()
                invariant
                    0 <= i <= a@.len(),
                    docs_vview(out@) == spec_filter_elems(av, i as int),
                decreases a@.len() - i, 0int,
            {
                proof {
                    assert(av[i as int] == a@[i as int]@);
                    assert(spec_filter_elems(av, i as int + 1) == spec_filter_elems(
                        av,
                        i as int,
                    ).push(spec_filter_empty(av[i as int])));
                }
                let ghost pre = docs_vview(out@);
                let nv = filter_empty_ref(&a[i]);
                let ghost nvv = nv@;
                out.push(nv);
                proof {
                    assert(docs_vview(out@) =~= pre.push(nvv));
                }
                i = i + 1;
            }
            let r = Doc::Arr(out);
            proof {
                reveal_with_fuel(<Doc as vstd::view::View>::view, 2);
                assert(r@ matches DocM::Arr(y) && y =~= docs_vview(out@));
                assert(r@ == spec_filter_empty(d@));
            }
            r
        },
        Doc::Null => Doc::Null,
        Doc::Bool(b) => Doc::Bool(*b),
        Doc::Int(v) => Doc::Int(*v),
        Doc::Float(v) => Doc::Float(*v),
        Doc::Str(sv) => Doc::Str(bytes_of(sv.as_slice())),
    }
}

/// Prunes empty values everywhere under a node, in place.
pub fn filter_empty_values(value: &mut Doc)
    ensures
        final(value)@ == spec_filter_empty(old(value)@),
{
    let r = filter_empty_ref(value);
    *value = r;
}

/// Whether a record still carries section or block-entity data.
pub fn has_chunk_data(chunk: &Doc) -> (r: bool)
    ensures
        r == spec_has_chunk_data(chunk@),
{
    broadcast use vstd::string::is_ascii_spec_bytes;

    proof {
        reveal_strlit("sections");
        reveal_strlit("block_entities");
    }
    match chunk {
        Doc::Obj(o) => {
            proof {
                reveal_with_fuel(<Doc as vstd::view::View>::view, 2);
                assert(chunk@ matches DocM::Obj(x) && x =~= doc_pairs_vview(o@));
            }
            match obj_get(o, "sections".as_bytes()) {
                Some(Doc::Arr(s)) => {
                    proof {
                        reveal_with_fuel(<Doc as vstd::view::View>::view, 2);
                    }
                    if s.len() > 0 {
                        return true;
                    }
                },
                _ => {},
            }
            match obj_get(o, "block_entities".as_bytes()) {
                Some(Doc::Arr(b)) => {
                    proof {
                        reveal_with_fuel(<Doc as vstd::view::View>::view, 2);
                    }
                    if b.len() > 0 {
                        return true;
                    }
                },
                _ => {},
            }
            false
        },
        _ => false,
    }
}

} // verus!
