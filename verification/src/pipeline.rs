//! The per-container pipeline: filtering fully generated records,
//! denoising, encoding to documents, injecting grid coordinates, pruning,
//! slicing on export; and the exact inverse steps on restore.

use vstd::prelude::*;
use crate::codec::{json_to_nbt, nbt_to_json, sizes_ok, spec_decode, spec_encode, CodecError};
use crate::config::{DenoiseConfig, ExportConfig};
use crate::denoise::{
    clone_tag, denoise_chunk_with_config, restore_defaults, spec_denoise_chunk,
    spec_denoise_level, spec_insert_absent, spec_level_value, spec_remove, spec_restore_defaults,
    spec_set, spec_strip_entries, spec_strip_section, spec_strip_sections_value,
};
use crate::doc::{doc_pairs_vview, Doc, DocM};
use crate::prune::{
    clone_doc, filter_empty_sections, filter_empty_values, has_chunk_data, obj_get,
    spec_filter_empty, spec_filter_empty_sections, spec_has_chunk_data, spec_obj_get,
};
use crate::slicing::{pack_slices, render_slice, spec_pack, spec_render_slice};
use crate::jsontext::{render_doc, spec_render};
use crate::tag::{pairs_vview, ChunkData, Tag, TagM};
use crate::util::{bytes_eq, bytes_of};

verus! {

broadcast use {
    vstd::std_specs::vec::group_vec_axioms,
    vstd::seq::group_seq_axioms,
};

use vstd::string::StringSliceAdditionalSpecFns;

/// The mathematical shape of a positioned record.
pub struct ChunkM {
    pub x: i32,
    pub z: i32,
    pub data: TagM,
}

impl View for ChunkData {
    type V = ChunkM;

    open spec fn view(&self) -> ChunkM {
        ChunkM { x: self.x, z: self.z, data: self.data@ }
    }
}

/// The record views of a record list.
pub open spec fn chunks_vview(s: Seq<ChunkData>) -> Seq<ChunkM> {
    Seq::new(s.len(), |i: int| s[i]@)
}

/// The first entry of a compound with the key, if any.
pub open spec fn spec_tag_get(m: Seq<(Seq<u8>, TagM)>, k: Seq<u8>) -> Option<TagM>
    decreases m.len(),
{
    if m.len() == 0 {
        None
    } else if m[0].0 == k {
        Some(m[0].1)
    } else {
        spec_tag_get(m.drop_first(), k)
    }
}

/// A record counts as fully generated when its root compound's `Status`
/// is exactly one of the two accepted sentinels.
pub open spec fn spec_is_full_chunk(t: TagM) -> bool {
    match t {
        TagM::Compound(m) => match spec_tag_get(m, "Status".spec_bytes()) {
            Some(TagM::Str(s)) => s == "minecraft:full".spec_bytes() || s == "full".spec_bytes(),
            _ => false,
        },
        _ => false,
    }
}

/// Looks a key up in a compound, first occurrence.
#[verifier::loop_isolation(false)]
fn tag_get<'a>(m: &'a Vec<(Vec<u8>, Tag)>, k: &[u8]) -> (r: Option<&'a Tag>)
    ensures
        (r is Some) == (spec_tag_get(pairs_vview(m@), k@) is Some),
        r matches Some(v) ==> Some(v@) == spec_tag_get(pairs_vview(m@), k@),
{
    let ghost mv = pairs_vview(m@);
    proof {
        assert(mv.skip(0) =~= mv);
    }
    let mut i: usize = 0;
    while i < m.len()
        invariant
            0 <= i <= m@.len(),
            spec_tag_get(mv.skip(i as int), k@) == spec_tag_get(mv, k@),
        decreases m@.len() - i,
    {
        proof {
            assert(mv[i as int] == (m@[i as int].0@, m@[i as int].1@));
            assert(mv.skip(i as int)[0] == mv[i as int]);
        }
        if bytes_eq(m[i].0.as_slice(), k) {
            proof {
                assert(spec_tag_get(mv.skip(i as int), k@) == Some(mv[i as int].1));
            }
            return Some(&m[i].1);
        }
        proof {
            assert(mv.skip(i as int).drop_first() =~= mv.skip(i as int + 1));
        }
        i = i + 1;
    }
    proof {
        assert(mv.skip(m@.len() as int) =~= Seq::<(Seq<u8>, TagM)>::empty());
    }
    None
}

/// Whether a record's `Status` marks it fully generated.
pub fn is_full_chunk(data: &Tag) -> (r: bool)
    ensures
        r == spec_is_full_chunk(data@),
{
    broadcast use vstd::string::is_ascii_spec_bytes;

    proof {
        reveal_strlit("Status");
        reveal_strlit("minecraft:full");
        reveal_strlit("full");
    }
    match data {
        Tag::Compound(m) => {
            proof {
                reveal_with_fuel(<Tag as vstd::view::View>::view, 2);
                assert(data@ matches TagM::Compound(x) && x =~= pairs_vview(m@));
            }
            match tag_get(m, "Status".as_bytes()) {
                Some(Tag::Str(s)) => {
                    proof {
                        reveal_with_fuel(<Tag as vstd::view::View>::view, 2);
                    }
                    let a = bytes_eq(s.as_slice(), "minecraft:full".as_bytes());
                    let b = bytes_eq(s.as_slice(), "full".as_bytes());
                    a || b
                },
                _ => false,
            }
        },
        _ => false,
    }
}

/// Replace every entry of an object with the key, or append one.
pub open spec fn spec_doc_pairs_set(m: Seq<(Seq<u8>, DocM)>, k: Seq<u8>, v: DocM) -> Seq<
    (Seq<u8>, DocM),
> {
    if exists|i: int| 0 <= i < m.len() && m[i].0 == k {
        Seq::new(
            m.len(),
            |i: int|
                if 0 <= i < m.len() && m[i].0 == k {
                    (k, v)
                } else {
                    m[i]
                },
        )
    } else {
        m.push((k, v))
    }
}

/// Set a key on a document; a node that is no object is left alone.
pub open spec fn spec_doc_set(d: DocM, k: Seq<u8>, v: DocM) -> DocM {
    match d {
        DocM::Obj(m) => DocM::Obj(spec_doc_pairs_set(m, k, v)),
        _ => d,
    }
}

#[verifier::loop_isolation(false)]
fn doc_has_key(m: &Vec<(Vec<u8>, Doc)>, k: &[u8]) -> (r: bool)
    ensures
        r == (exists|i: int| 0 <= i < m@.len() && doc_pairs_vview(m@)[i].0 == k@),
{
    let mut i: usize = 0;
    while i < m.len()
        invariant
            0 <= i <= m@.len(),
            forall|j: int| 0 <= j < i ==> doc_pairs_vview(m@)[j].0 != k@,
        decreases m@.len() - i,
    {
        proof {
            assert(doc_pairs_vview(m@)[i as int].0 == m@[i as int].0@);
        }
        if bytes_eq(m[i].0.as_slice(), k) {
            return true;
        }
        i = i + 1;
    }
    false
}

/// Sets a key on a document node in place.
#[verifier::loop_isolation(false)]
pub fn doc_set(d: &mut Doc, k: &[u8], v: Doc)
    ensures
        final(d)@ == spec_doc_set(old(d)@, k@, v@),
{
    let mut tmp = Doc::Null;
    core::mem::swap(d, &mut tmp);
    match tmp {
        Doc::Obj(m) => {
            proof {
                reveal_with_fuel(<Doc as vstd::view::View>::view, 2);
                assert(old(d)@ matches DocM::Obj(x) && x =~= doc_pairs_vview(m@));
            }
            let ghost mv = old(d)@->Obj_0;
            if doc_has_key(&m, k) {
                let mut out: Vec<(Vec<u8>, Doc)> = Vec::new();
                let mut i: usize = 0;
                while i < m.len()
                    invariant
                        0 <= i <= m@.len(),
                        out@.len() == i,
                        forall|j: int|
                            0 <= j < i ==> doc_pairs_vview(out@)[j] == (if mv[j].0 == k@ {
                                (k@, v@)
                            } else {
                                mv[j]
                            }),
                    decreases m@.len() - i,
                {
                    proof {
                        assert(mv[i as int] == (m@[i as int].0@, m@[i as int].1@));
                    }
                    let ghost pre = doc_pairs_vview(out@);
                    if bytes_eq(m[i].0.as_slice(), k) {
                        let e = (bytes_of(k), clone_doc(&v));
                        out.push(e);
                    } else {
                        let e = (bytes_of(m[i].0.as_slice()), clone_doc(&m[i].1));
                        out.push(e);
                    }
                    proof {
                        assert(doc_pairs_vview(out@) =~= pre.push(
                            doc_pairs_vview(out@)[i as int],
                        ));
                    }
                    i = i + 1;
                }
                let r = Doc::Obj(out);
                proof {
                    reveal_with_fuel(<Doc as vstd::view::View>::view, 2);
                    assert(r@ matches DocM::Obj(y) && y =~= doc_pairs_vview(out@));
                    assert(r@->Obj_0 =~= spec_doc_pairs_set(mv, k@, v@));
                    assert(r@ == spec_doc_set(old(d)@, k@, v@));
                }
                *d = r;
            } else {
                let mut out = m;
                let ghost pre = doc_pairs_vview(out@);
                let kk = bytes_of(k);
                let ghost vv = v@;
                out.push((kk, v));
                let r = Doc::Obj(out);
                proof {
                    reveal_with_fuel(<Doc as vstd::view::View>::view, 2);
                    assert(doc_pairs_vview(out@) =~= pre.push((k@, vv)));
                    assert(r@ matches DocM::Obj(y) && y =~= doc_pairs_vview(out@));
                    assert(r@ == spec_doc_set(old(d)@, k@, v@));
                }
                *d = r;
            }
        },
        other => {
            *d = other;
        },
    }
}


// ----------------------------------------------- sizes are preserved

proof fn lemma_remove_element_of(m: Seq<(Seq<u8>, TagM)>, keys: Seq<Seq<u8>>, j: int)
    requires
        0 <= j < spec_remove(m, keys).len(),
    ensures
        exists|i: int| 0 <= i < m.len() && spec_remove(m, keys)[j] == #[trigger] m[i],
    decreases m.len(),
{
    if m.len() > 0 {
        let rest = spec_remove(m.drop_last(), keys);
        if keys.contains(m.last().0) {
            lemma_remove_element_of(m.drop_last(), keys, j);
            let i = choose|i: int|
                0 <= i < m.drop_last().len() && spec_remove(m.drop_last(), keys)[j] == #[trigger]
                m.drop_last()[i];
            assert(m[i] == m.drop_last()[i]);
        } else {
            if j < rest.len() {
                lemma_remove_element_of(m.drop_last(), keys, j);
                let i = choose|i: int|
                    0 <= i < m.drop_last().len() && spec_remove(m.drop_last(), keys)[j]
                        == #[trigger] m.drop_last()[i];
                assert(m[i] == m.drop_last()[i]);
            } else {
                assert(spec_remove(m, keys)[j] == m.last());
                assert(m[m.len() - 1] == m.last());
            }
        }
    }
}

proof fn lemma_strip_section_sizes(e: TagM)
    requires
        sizes_ok(e),
    ensures
        sizes_ok(spec_strip_section(e)),
{
    match e {
        TagM::Compound(sm) => {
            let out = spec_remove(sm, crate::denoise::spec_section_light_fields());
            assert forall|j: int| 0 <= j < out.len() implies sizes_ok(#[trigger] out[j].1) by {
                lemma_remove_element_of(sm, crate::denoise::spec_section_light_fields(), j);
                let i = choose|i: int| 0 <= i < sm.len() && out[j] == #[trigger] sm[i];
                assert(sizes_ok(sm[i].1));
            }
        },
        _ => {},
    }
}

proof fn lemma_strip_value_sizes(v: TagM)
    requires
        sizes_ok(v),
    ensures
        sizes_ok(spec_strip_sections_value(v)),
{
    match v {
        TagM::List(l) => {
            let out = spec_strip_sections_value(v);
            assert(out matches TagM::List(l2) && l2.len() == l.len());
            assert forall|j: int| 0 <= j < l.len() implies sizes_ok(
                #[trigger] out->List_0[j],
            ) by {
                assert(out->List_0[j] == spec_strip_section(l[j]));
                assert(sizes_ok(l[j]));
                lemma_strip_section_sizes(l[j]);
            }
        },
        _ => {},
    }
}

/// Denoising never grows an array, so the encoder's size bounds survive it.
pub proof fn lemma_denoise_chunk_sizes(
    t: TagM,
    aggressive: bool,
    fields: Seq<Seq<u8>>,
    agg: Seq<Seq<u8>>,
)
    requires
        sizes_ok(t),
    ensures
        sizes_ok(spec_denoise_chunk(t, aggressive, fields, agg)),
{
    match t {
        TagM::Compound(m) => {
            let m1 = spec_remove(m, fields);
            let m2 = spec_strip_entries(m1);
            let m3 = if aggressive {
                spec_remove(m2, agg)
            } else {
                m1
            };
            assert forall|j: int| 0 <= j < m1.len() implies sizes_ok(#[trigger] m1[j].1) by {
                lemma_remove_element_of(m, fields, j);
                let i = choose|i: int| 0 <= i < m.len() && m1[j] == #[trigger] m[i];
                assert(sizes_ok(m[i].1));
            }
            assert forall|j: int| 0 <= j < m2.len() implies sizes_ok(#[trigger] m2[j].1) by {
                assert(m2[j] == spec_strip_entries(m1)[j]);
                if m1[j].0 == "sections".spec_bytes() {
                    assert(m2[j].1 == spec_strip_sections_value(m1[j].1));
                    lemma_strip_value_sizes(m1[j].1);
                } else {
                    assert(m2[j] == m1[j]);
                }
            }
            assert forall|j: int| 0 <= j < m3.len() implies sizes_ok(#[trigger] m3[j].1) by {
                if aggressive {
                    lemma_remove_element_of(m2, agg, j);
                    let i = choose|i: int| 0 <= i < m2.len() && m3[j] == #[trigger] m2[i];
                    assert(sizes_ok(m2[i].1));
                }
            }
            assert(sizes_ok(spec_denoise_chunk(t, aggressive, fields, agg)));
        },
        _ => {},
    }
}

/// Restoring defaults inserts scalars only.
pub proof fn lemma_restore_sizes(t: TagM)
    requires
        sizes_ok(t),
    ensures
        sizes_ok(spec_restore_defaults(t)),
{
    match t {
        TagM::Compound(m) => {
            let m1 = spec_insert_absent(m, "LastUpdate".spec_bytes(), TagM::Long(0));
            let m2 = spec_insert_absent(m1, "InhabitedTime".spec_bytes(), TagM::Long(0));
            let m3 = spec_insert_absent(m2, "isLightOn".spec_bytes(), TagM::Byte(0));
            assert forall|j: int| 0 <= j < m1.len() implies sizes_ok(#[trigger] m1[j].1) by {
                if j < m.len() {
                    assert(m1[j] == m[j]);
                }
            }
            assert forall|j: int| 0 <= j < m2.len() implies sizes_ok(#[trigger] m2[j].1) by {
                if j < m1.len() {
                    assert(m2[j] == m1[j]);
                }
            }
            assert forall|j: int| 0 <= j < m3.len() implies sizes_ok(#[trigger] m3[j].1) by {
                if j < m2.len() {
                    assert(m3[j] == m2[j]);
                }
            }
            assert(sizes_ok(spec_restore_defaults(t)));
        },
        _ => {},
    }
}

/// The level transform keeps the size bounds too.
pub proof fn lemma_denoise_level_sizes(t: TagM, fields: Seq<Seq<u8>>, reset_weather: bool)
    requires
        sizes_ok(t),
    ensures
        sizes_ok(spec_denoise_level(t, fields, reset_weather)),
{
    match t {
        TagM::Compound(m) => {
            let out = spec_denoise_level(t, fields, reset_weather);
            assert(out matches TagM::Compound(m2) && m2.len() == m.len());
            assert forall|j: int| 0 <= j < m.len() implies sizes_ok(
                #[trigger] out->Compound_0[j].1,
            ) by {
                assert(sizes_ok(m[j].1));
                if m[j].0 == "Data".spec_bytes() {
                    assert(out->Compound_0[j].1 == spec_level_value(
                        m[j].1,
                        fields,
                        reset_weather,
                    ));
                    lemma_level_value_sizes(m[j].1, fields, reset_weather);
                } else {
                    assert(out->Compound_0[j] == m[j]);
                }
            }
            assert(sizes_ok(out));
        },
        _ => {},
    }
}

proof fn lemma_level_value_sizes(v: TagM, fields: Seq<Seq<u8>>, reset_weather: bool)
    requires
        sizes_ok(v),
    ensures
        sizes_ok(spec_level_value(v, fields, reset_weather)),
{
    match v {
        TagM::Compound(d) => {
            let d1 = spec_remove(d, fields);
            assert forall|j: int| 0 <= j < d1.len() implies sizes_ok(#[trigger] d1[j].1) by {
                lemma_remove_element_of(d, fields, j);
                let i = choose|i: int| 0 <= i < d.len() && d1[j] == #[trigger] d[i];
                assert(sizes_ok(d[i].1));
            }
            if reset_weather {
                let da = spec_set(d1, "raining".spec_bytes(), TagM::Byte(0));
                let d2 = spec_set(da, "thundering".spec_bytes(), TagM::Byte(0));
                assert forall|j: int| 0 <= j < da.len() implies sizes_ok(#[trigger] da[j].1) by {
                    if j < d1.len() && da[j] != (("raining".spec_bytes()), TagM::Byte(0)) {
                        assert(da[j] == d1[j]);
                    } else if j < d1.len() {
                    } else {
                        assert(da[j] == (("raining".spec_bytes()), TagM::Byte(0)));
                    }
                }
                assert forall|j: int| 0 <= j < d2.len() implies sizes_ok(#[trigger] d2[j].1) by {
                    if j < da.len() && d2[j] != (("thundering".spec_bytes()), TagM::Byte(0)) {
                        assert(d2[j] == da[j]);
                    } else if j < da.len() {
                    } else {
                        assert(d2[j] == (("thundering".spec_bytes()), TagM::Byte(0)));
                    }
                }
                assert(sizes_ok(spec_level_value(v, fields, reset_weather)));
            } else {
                assert(sizes_ok(spec_level_value(v, fields, reset_weather)));
            }
        },
        _ => {},
    }
}


// ------------------------------------------------------------- export

/// What exporting one record yields: nothing for a record that is not
/// fully generated or that keeps no data, else the rendered text of its
/// denoised, coordinate-tagged, pruned document.
pub open spec fn spec_export_chunk(
    c: ChunkM,
    do_denoise: bool,
    aggressive: bool,
    fields: Seq<Seq<u8>>,
    agg: Seq<Seq<u8>>,
    skip_empty: bool,
) -> Option<Seq<u8>> {
    if !spec_is_full_chunk(c.data) {
        None
    } else {
        let t1 = if do_denoise {
            spec_denoise_chunk(c.data, aggressive, fields, agg)
        } else {
            c.data
        };
        let d1 = spec_doc_set(
            spec_doc_set(spec_encode(t1), "x".spec_bytes(), DocM::Int(c.x as i64)),
            "z".spec_bytes(),
            DocM::Int(c.z as i64),
        );
        let d3 = spec_filter_empty(spec_filter_empty_sections(d1));
        if skip_empty && !spec_has_chunk_data(d3) {
            None
        } else {
            Some(spec_render(d3))
        }
    }
}

/// Exports one record, or decides to drop it.
pub fn export_chunk(
    chunk: &ChunkData,
    do_denoise: bool,
    aggressive: bool,
    dcfg: &DenoiseConfig,
    skip_empty: bool,
) -> (r: Option<Vec<u8>>)
    requires
        sizes_ok(chunk.data@),
    ensures
        r.deep_view() == spec_export_chunk(
            chunk@,
            do_denoise,
            aggressive,
            dcfg.chunk.fields.deep_view(),
            dcfg.chunk.aggressive_fields.deep_view(),
            skip_empty,
        ),
{
    broadcast use vstd::string::is_ascii_spec_bytes;

    if !is_full_chunk(&chunk.data) {
        return None;
    }
    let mut t = clone_tag(&chunk.data);
    if do_denoise {
        denoise_chunk_with_config(&mut t, aggressive, dcfg);
        proof {
            lemma_denoise_chunk_sizes(
                chunk.data@,
                aggressive,
                dcfg.chunk.fields.deep_view(),
                dcfg.chunk.aggressive_fields.deep_view(),
            );
        }
    }
    let mut d = nbt_to_json(&t);
    proof {
        reveal_strlit("x");
        reveal_strlit("z");
    }
    doc_set(&mut d, "x".as_bytes(), Doc::Int(chunk.x as i64));
    doc_set(&mut d, "z".as_bytes(), Doc::Int(chunk.z as i64));
    filter_empty_sections(&mut d);
    filter_empty_values(&mut d);
    if skip_empty && !has_chunk_data(&d) {
        return None;
    }
    let out = render_doc(&d);
    let ghost ov = out@;
    let r = Some(out);
    proof {
        assert(r.deep_view() == Some(ov));
    }
    r
}

/// The surviving records' rendered texts, in record order.
pub open spec fn spec_collect(
    cs: Seq<ChunkM>,
    n: int,
    do_denoise: bool,
    aggressive: bool,
    fields: Seq<Seq<u8>>,
    agg: Seq<Seq<u8>>,
    skip_empty: bool,
) -> Seq<Seq<u8>>
    decreases n,
{
    if n <= 0 || n > cs.len() {
        Seq::empty()
    } else {
        let rest = spec_collect(cs, n - 1, do_denoise, aggressive, fields, agg, skip_empty);
        match spec_export_chunk(cs[n - 1], do_denoise, aggressive, fields, agg, skip_empty) {
            Some(b) => rest.push(b),
            None => rest,
        }
    }
}

/// The slice files of one container's export: the surviving records'
/// texts, greedily packed under the size cap and wrapped one slice each.
pub open spec fn spec_export_region(
    cs: Seq<ChunkM>,
    do_denoise: bool,
    aggressive: bool,
    fields: Seq<Seq<u8>>,
    agg: Seq<Seq<u8>>,
    skip_empty: bool,
) -> Seq<Seq<u8>> {
    let packed = spec_pack(
        spec_collect(cs, cs.len() as int, do_denoise, aggressive, fields, agg, skip_empty),
    );
    Seq::new(packed.len(), |i: int| spec_render_slice(packed[i]))
}

/// Exports one container's records into slice file bodies.
#[verifier::loop_isolation(false)]
pub fn export_mca_core(
    chunks: &Vec<ChunkData>,
    do_denoise: bool,
    aggressive: bool,
    dcfg: &DenoiseConfig,
    ecfg: &ExportConfig,
) -> (r: Vec<Vec<u8>>)
    requires
        forall|i: int| 0 <= i < chunks@.len() ==> sizes_ok((#[trigger] chunks@[i]).data@),
    ensures
        r.deep_view() == spec_export_region(
            chunks_vview(chunks@),
            do_denoise,
            aggressive,
            dcfg.chunk.fields.deep_view(),
            dcfg.chunk.aggressive_fields.deep_view(),
            ecfg.skip_empty_chunks,
        ),
{
    let ghost cv = chunks_vview(chunks@);
    let ghost fields = dcfg.chunk.fields.deep_view();
    let ghost agg = dcfg.chunk.aggressive_fields.deep_view();
    let skip_empty = ecfg.skip_empty_chunks;
    let mut collected: Vec<Vec<u8>> = Vec::new();
    let mut i: usize = 0;
    while i < chunks.len()
        invariant
            0 <= i <= chunks@.len(),
            collected.deep_view() == spec_collect(
                cv,
                i as int,
                do_denoise,
                aggressive,
                fields,
                agg,
                skip_empty,
            ),
        decreases chunks@.len() - i,
    {
        proof {
            assert(cv[i as int] == chunks@[i as int]@);
        }
        let ghost pre = collected.deep_view();
        match export_chunk(&chunks[i], do_denoise, aggressive, dcfg, skip_empty) {
            Some(b) => {
                let ghost bv = b@;
                collected.push(b);
                proof {
                    assert(collected.deep_view() =~~= pre.push(bv));
                }
            },
            None => {},
        }
        i = i + 1;
    }
    let groups = pack_slices(&collected);
    let ghost packed = spec_pack(
        spec_collect(cv, cv.len() as int, do_denoise, aggressive, fields, agg, skip_empty),
    );
    proof {
        assert(groups.deep_view() == packed);
        assert(groups@.len() == packed.len());
    }
    let mut out: Vec<Vec<u8>> = Vec::new();
    let mut g: usize = 0;
    while g < groups.len()
        invariant
            0 <= g <= groups@.len(),
            out@.len() == g,
            forall|j: int| 0 <= j < g ==> out@[j]@ == spec_render_slice(#[trigger] packed[j]),
        decreases groups@.len() - g,
    {
        proof {
            assert(groups@[g as int].deep_view() == packed[g as int]);
        }
        let b = render_slice(&groups[g]);
        out.push(b);
        g = g + 1;
    }
    proof {
        assert(out.deep_view() =~~= spec_export_region(
            cv,
            do_denoise,
            aggressive,
            fields,
            agg,
            skip_empty,
        ));
    }
    out
}

/// The level metadata document: a gzip flag and the encoded tree.
pub open spec fn spec_export_level(
    t: TagM,
    do_denoise: bool,
    fields: Seq<Seq<u8>>,
    reset_weather: bool,
) -> Seq<u8> {
    let t1 = if do_denoise {
        spec_denoise_level(t, fields, reset_weather)
    } else {
        t
    };
    spec_render(
        DocM::Obj(
            seq![
                ("_gzip".spec_bytes(), DocM::Int(1)),
                ("_data".spec_bytes(), spec_encode(t1)),
            ],
        ),
    )
}

/// Exports the level metadata as its document text.
pub fn export_level_core(level: &Tag, do_denoise: bool, dcfg: &DenoiseConfig) -> (r: Vec<u8>)
    requires
        sizes_ok(level@),
    ensures
        r@ == spec_export_level(
            level@,
            do_denoise,
            dcfg.level.fields.deep_view(),
            dcfg.level.reset_weather,
        ),
{
    broadcast use vstd::string::is_ascii_spec_bytes;

    let mut t = clone_tag(level);
    if do_denoise {
        crate::denoise::denoise_level_with_config(&mut t, dcfg);
        proof {
            lemma_denoise_level_sizes(
                level@,
                dcfg.level.fields.deep_view(),
                dcfg.level.reset_weather,
            );
        }
    }
    let data_doc = nbt_to_json(&t);
    proof {
        reveal_strlit("_gzip");
        reveal_strlit("_data");
    }
    let mut entries: Vec<(Vec<u8>, Doc)> = Vec::new();
    entries.push((bytes_of("_gzip".as_bytes()), Doc::Int(1)));
    let ghost dv = data_doc@;
    entries.push((bytes_of("_data".as_bytes()), data_doc));
    let wrapper = Doc::Obj(entries);
    proof {
        reveal_with_fuel(<Doc as vstd::view::View>::view, 2);
        assert(wrapper@ matches DocM::Obj(es) && es =~~= seq![
            ("_gzip".spec_bytes(), DocM::Int(1)),
            ("_data".spec_bytes(), dv),
        ]);
    }
    render_doc(&wrapper)
}

// ------------------------------------------------------------- restore

/// Why a restore step failed.
#[derive(Debug, PartialEq, Eq)]
pub enum RestoreError {
    /// A slice document has no `chunks` array.
    MissingChunks,
    /// A record document has no integer `x` or `z`.
    MissingCoord,
    /// A level document has no `_data` entry.
    MissingData,
    /// A record document would not decode back into a tag tree.
    BadRecord(CodecError),
}

/// The integer under a key, if the node is an object and the value an
/// integer.
pub open spec fn spec_coord(d: DocM, k: Seq<u8>) -> Option<i64> {
    match spec_obj_get_doc(d, k) {
        Some(DocM::Int(v)) => Some(v),
        _ => None,
    }
}

pub open spec fn spec_obj_get_doc(d: DocM, k: Seq<u8>) -> Option<DocM> {
    match d {
        DocM::Obj(m) => spec_obj_get(m, k),
        _ => None,
    }
}

/// The entries that do not carry the key.
pub open spec fn spec_doc_remove_key(m: Seq<(Seq<u8>, DocM)>, k: Seq<u8>) -> Seq<(Seq<u8>, DocM)>
    decreases m.len(),
{
    if m.len() == 0 {
        Seq::empty()
    } else if m.last().0 == k {
        spec_doc_remove_key(m.drop_last(), k)
    } else {
        spec_doc_remove_key(m.drop_last(), k).push(m.last())
    }
}

/// A record document with its injected coordinates stripped again.
pub open spec fn spec_strip_xz(d: DocM) -> DocM {
    match d {
        DocM::Obj(m) => DocM::Obj(
            spec_doc_remove_key(spec_doc_remove_key(m, "x".spec_bytes()), "z".spec_bytes()),
        ),
        _ => d,
    }
}

/// What restoring one record document yields.
pub open spec fn spec_restore_chunk(d: DocM, flag: bool) -> Option<ChunkM> {
    match (spec_coord(d, "x".spec_bytes()), spec_coord(d, "z".spec_bytes())) {
        (Some(xv), Some(zv)) => match spec_decode(spec_strip_xz(d)) {
            Some(t) => Some(
                ChunkM {
                    x: xv as i32,
                    z: zv as i32,
                    data: if flag {
                        spec_restore_defaults(t)
                    } else {
                        t
                    },
                },
            ),
            None => None,
        },
        _ => None,
    }
}

/// Drops every entry with the key, cloning the rest.
#[verifier::loop_isolation(false)]
fn doc_remove_key(m: &Vec<(Vec<u8>, Doc)>, k: &[u8]) -> (r: Vec<(Vec<u8>, Doc)>)
    ensures
        doc_pairs_vview(r@) == spec_doc_remove_key(doc_pairs_vview(m@), k@),
{
    let ghost mv = doc_pairs_vview(m@);
    let mut out: Vec<(Vec<u8>, Doc)> = Vec::new();
    let mut i: usize = 0;
    proof {
        assert(mv.take(0) =~= Seq::<(Seq<u8>, DocM)>::empty());
    }
    while i < m.len()
        invariant
            0 <= i <= m@.len(),
            doc_pairs_vview(out@) == spec_doc_remove_key(mv.take(i as int), k@),
        decreases m@.len() - i,
    {
        proof {
            assert(mv.take(i as int + 1).drop_last() =~= mv.take(i as int));
            assert(mv.take(i as int + 1).last() == mv[i as int]);
            assert(mv[i as int] == (m@[i as int].0@, m@[i as int].1@));
        }
        let ghost pre = doc_pairs_vview(out@);
        if !bytes_eq(m[i].0.as_slice(), k) {
            let e = (bytes_of(m[i].0.as_slice()), clone_doc(&m[i].1));
            out.push(e);
            proof {
                assert(doc_pairs_vview(out@) =~= pre.push(mv[i as int]));
            }
        }
        i = i + 1;
    }
    proof {
        assert(mv.take(m@.len() as int) =~= mv);
    }
    out
}

/// Restores one record document into a positioned tag tree.
pub fn restore_chunk(doc: &Doc, restore_flag: bool) -> (r: Result<ChunkData, RestoreError>)
    ensures
        (r is Ok) == (spec_restore_chunk(doc@, restore_flag) is Some),
        r matches Ok(c) ==> Some(c@) == spec_restore_chunk(doc@, restore_flag),
{
    broadcast use vstd::string::is_ascii_spec_bytes;

    proof {
        reveal_strlit("x");
        reveal_strlit("z");
    }
    match doc {
        Doc::Obj(m) => {
            proof {
                reveal_with_fuel(<Doc as vstd::view::View>::view, 2);
                assert(doc@ matches DocM::Obj(x) && x =~= doc_pairs_vview(m@));
            }
            let xv: i64 = match obj_get(m, "x".as_bytes()) {
                Some(Doc::Int(v)) => {
                    proof {
                        reveal_with_fuel(<Doc as vstd::view::View>::view, 2);
                    }
                    *v
                },
                _ => {
                    return Err(RestoreError::MissingCoord);
                },
            };
            let zv: i64 = match obj_get(m, "z".as_bytes()) {
                Some(Doc::Int(v)) => {
                    proof {
                        reveal_with_fuel(<Doc as vstd::view::View>::view, 2);
                    }
                    *v
                },
                _ => {
                    return Err(RestoreError::MissingCoord);
                },
            };
            let m1 = doc_remove_key(m, "x".as_bytes());
            let m2 = doc_remove_key(&m1, "z".as_bytes());
            let stripped = Doc::Obj(m2);
            proof {
                reveal_with_fuel(<Doc as vstd::view::View>::view, 2);
                assert(stripped@ matches DocM::Obj(y) && y =~= doc_pairs_vview(m2@));
                assert(stripped@ == spec_strip_xz(doc@));
            }
            let mut t = match json_to_nbt(&stripped) {
                Ok(t) => t,
                Err(e) => {
                    return Err(RestoreError::BadRecord(e));
                },
            };
            if restore_flag {
                restore_defaults(&mut t);
            }
            Ok(ChunkData { x: xv as i32, z: zv as i32, data: t })
        },
        _ => {
            proof {
                assert(spec_coord(doc@, "x".spec_bytes()) is None);
            }
            Err(RestoreError::MissingCoord)
        },
    }
}

/// What restoring the first `n` record documents yields.
pub open spec fn spec_restore_list(elems: Seq<DocM>, n: int, flag: bool) -> Option<Seq<ChunkM>>
    decreases n,
{
    if n <= 0 || n > elems.len() {
        Some(Seq::empty())
    } else {
        match spec_restore_list(elems, n - 1, flag) {
            Some(acc) => match spec_restore_chunk(elems[n - 1], flag) {
                Some(c) => Some(acc.push(c)),
                None => None,
            },
            None => None,
        }
    }
}

/// What restoring one slice document yields.
pub open spec fn spec_restore_slice(d: DocM, flag: bool) -> Option<Seq<ChunkM>> {
    match spec_obj_get_doc(d, "chunks".spec_bytes()) {
        Some(DocM::Arr(a)) => spec_restore_list(a, a.len() as int, flag),
        _ => None,
    }
}

proof fn lemma_restore_list_none(elems: Seq<DocM>, i: int, n: int, flag: bool)
    requires
        0 <= i < n <= elems.len(),
        spec_restore_list(elems, i + 1, flag) is None,
    ensures
        spec_restore_list(elems, n, flag) is None,
    decreases n,
{
    if n > i + 1 {
        lemma_restore_list_none(elems, i, n - 1, flag);
    }
}

/// Restores every record of one slice document.
#[verifier::loop_isolation(false)]
pub fn restore_slice_chunks(doc: &Doc, restore_flag: bool) -> (r: Result<
    Vec<ChunkData>,
    RestoreError,
>)
    ensures
        (r is Ok) == (spec_restore_slice(doc@, restore_flag) is Some),
        r matches Ok(v) ==> Some(chunks_vview(v@)) == spec_restore_slice(doc@, restore_flag),
{
    broadcast use vstd::string::is_ascii_spec_bytes;

    proof {
        reveal_strlit("chunks");
    }
    match doc {
        Doc::Obj(m) => {
            proof {
                reveal_with_fuel(<Doc as vstd::view::View>::view, 2);
                assert(doc@ matches DocM::Obj(x) && x =~= doc_pairs_vview(m@));
            }
            match obj_get(m, "chunks".as_bytes()) {
                Some(Doc::Arr(elems)) => {
                    proof {
                        reveal_with_fuel(<Doc as vstd::view::View>::view, 2);
                    }
                    let ghost arr = spec_obj_get_doc(doc@, "chunks".spec_bytes())->0->Arr_0;
                    proof {
                        assert forall|j: int|
                            0 <= j < elems@.len() implies arr[j] == elems@[j]@ by {}
                    }
                    let mut out: Vec<ChunkData> = Vec::new();
                    let mut i: usize = 0;
                    while i < elems.len()
                        invariant
                            0 <= i <= elems@.len(),
                            arr.len() == elems@.len(),
                            spec_restore_list(arr, i as int, restore_flag) == Some(
                                chunks_vview(out@),
                            ),
                        decreases elems@.len() - i,
                    {
                        let ghost pre = chunks_vview(out@);
                        match restore_chunk(&elems[i], restore_flag) {
                            Ok(c) => {
                                let ghost cvv = c@;
                                out.push(c);
                                proof {
                                    assert(chunks_vview(out@) =~= pre.push(cvv));
                                }
                            },
                            Err(e) => {
                                proof {
                                    assert(spec_restore_chunk(arr[i as int], restore_flag)
                                        is None);
                                    lemma_restore_list_none(
                                        arr,
                                        i as int,
                                        arr.len() as int,
                                        restore_flag,
                                    );
                                }
                                return Err(e);
                            },
                        }
                        i = i + 1;
                    }
                    Ok(out)
                },
                _ => {
                    return Err(RestoreError::MissingChunks);
                },
            }
        },
        _ => Err(RestoreError::MissingChunks),
    }
}

/// What restoring the level document yields.
pub open spec fn spec_restore_level(d: DocM) -> Option<TagM> {
    match spec_obj_get_doc(d, "_data".spec_bytes()) {
        Some(dd) => spec_decode(dd),
        None => None,
    }
}

/// Restores the level metadata tree from its document.
pub fn restore_level_core(doc: &Doc) -> (r: Result<Tag, RestoreError>)
    ensures
        (r is Ok) == (spec_restore_level(doc@) is Some),
        r matches Ok(t) ==> Some(t@) == spec_restore_level(doc@),
{
    broadcast use vstd::string::is_ascii_spec_bytes;

    proof {
        reveal_strlit("_data");
    }
    match doc {
        Doc::Obj(m) => {
            proof {
                reveal_with_fuel(<Doc as vstd::view::View>::view, 2);
                assert(doc@ matches DocM::Obj(x) && x =~= doc_pairs_vview(m@));
            }
            match obj_get(m, "_data".as_bytes()) {
                Some(dd) => {
                    match json_to_nbt(dd) {
                        Ok(t) => Ok(t),
                        Err(e) => Err(RestoreError::BadRecord(e)),
                    }
                },
                None => Err(RestoreError::MissingData),
            }
        },
        _ => Err(RestoreError::MissingData),
    }
}

} // verus!
