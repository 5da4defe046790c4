//! The denoise and restore transforms: stripping high-churn fields from a
//! record or from the level metadata, and re-inserting default values for
//! the stripped ones. All three operations are total; a missing key is
//! never an error, and restore only fills gaps, never overwrites.

use vstd::prelude::*;
use crate::config::DenoiseConfig;
use crate::tag::{pairs_vview, tags_vview, Tag, TagM};
use crate::util::{bytes_eq, bytes_of, push_key};

verus! {

broadcast use {
    vstd::std_specs::vec::group_vec_axioms,
    vstd::seq::group_seq_axioms,
};

use vstd::string::StringSliceAdditionalSpecFns;

/// The chunk-layer fields stripped by the stock transform.
pub open spec fn spec_chunk_noise_fields() -> Seq<Seq<u8>> {
    seq![
        "LastUpdate".spec_bytes(),
        "InhabitedTime".spec_bytes(),
        "blending_data".spec_bytes(),
        "PostProcessing".spec_bytes(),
        "isLightOn".spec_bytes(),
        "CarvingMasks".spec_bytes(),
        "starlight.light_version".spec_bytes(),
        "starlight.blocklight_state".spec_bytes(),
        "starlight.skylight_state".spec_bytes(),
    ]
}

/// The chunk-layer fields stripped only in aggressive mode by the stock
/// transform.
pub open spec fn spec_chunk_aggressive_fields() -> Seq<Seq<u8>> {
    seq![
        "Heightmaps".spec_bytes(),
        "fluid_ticks".spec_bytes(),
        "block_ticks".spec_bytes(),
        "structures".spec_bytes(),
    ]
}

/// The per-section light fields, stripped in aggressive mode so the game
/// recomputes lighting.
pub open spec fn spec_section_light_fields() -> Seq<Seq<u8>> {
    seq!["BlockLight".spec_bytes(), "SkyLight".spec_bytes()]
}

/// The level-layer fields stripped by the stock transform.
pub open spec fn spec_level_noise_fields() -> Seq<Seq<u8>> {
    seq![
        "Time".spec_bytes(),
        "DayTime".spec_bytes(),
        "LastPlayed".spec_bytes(),
        "thunderTime".spec_bytes(),
        "rainTime".spec_bytes(),
        "clearWeatherTime".spec_bytes(),
        "WanderingTraderSpawnChance".spec_bytes(),
        "WanderingTraderSpawnDelay".spec_bytes(),
        "WanderingTraderId".spec_bytes(),
        "ServerBrands".spec_bytes(),
        "WasModded".spec_bytes(),
        "Player".spec_bytes(),
    ]
}

/// The stock chunk-layer field list.
pub fn chunk_noise_fields() -> (r: Vec<Vec<u8>>)
    ensures
        r.deep_view() == spec_chunk_noise_fields(),
{
    let mut v: Vec<Vec<u8>> = Vec::new();
    push_key(&mut v, "LastUpdate");
    push_key(&mut v, "InhabitedTime");
    push_key(&mut v, "blending_data");
    push_key(&mut v, "PostProcessing");
    push_key(&mut v, "isLightOn");
    push_key(&mut v, "CarvingMasks");
    push_key(&mut v, "starlight.light_version");
    push_key(&mut v, "starlight.blocklight_state");
    push_key(&mut v, "starlight.skylight_state");
    proof {
        assert(v.deep_view() =~~= spec_chunk_noise_fields());
    }
    v
}

/// The stock aggressive chunk-layer field list.
pub fn chunk_aggressive_fields() -> (r: Vec<Vec<u8>>)
    ensures
        r.deep_view() == spec_chunk_aggressive_fields(),
{
    let mut v: Vec<Vec<u8>> = Vec::new();
    push_key(&mut v, "Heightmaps");
    push_key(&mut v, "fluid_ticks");
    push_key(&mut v, "block_ticks");
    push_key(&mut v, "structures");
    proof {
        assert(v.deep_view() =~~= spec_chunk_aggressive_fields());
    }
    v
}

/// The per-section light field list.
pub fn section_light_fields() -> (r: Vec<Vec<u8>>)
    ensures
        r.deep_view() == spec_section_light_fields(),
{
    let mut v: Vec<Vec<u8>> = Vec::new();
    push_key(&mut v, "BlockLight");
    push_key(&mut v, "SkyLight");
    proof {
        assert(v.deep_view() =~~= spec_section_light_fields());
    }
    v
}

/// The stock level-layer field list.
pub fn level_noise_fields() -> (r: Vec<Vec<u8>>)
    ensures
        r.deep_view() == spec_level_noise_fields(),
{
    let mut v: Vec<Vec<u8>> = Vec::new();
    push_key(&mut v, "Time");
    push_key(&mut v, "DayTime");
    push_key(&mut v, "LastPlayed");
    push_key(&mut v, "thunderTime");
    push_key(&mut v, "rainTime");
    push_key(&mut v, "clearWeatherTime");
    push_key(&mut v, "WanderingTraderSpawnChance");
    push_key(&mut v, "WanderingTraderSpawnDelay");
    push_key(&mut v, "WanderingTraderId");
    push_key(&mut v, "ServerBrands");
    push_key(&mut v, "WasModded");
    push_key(&mut v, "Player");
    proof {
        assert(v.deep_view() =~~= spec_level_noise_fields());
    }
    v
}

// --------------------------------------------------- compound surgery

/// The entries whose keys are not in the list.
pub open spec fn spec_remove(m: Seq<(Seq<u8>, TagM)>, keys: Seq<Seq<u8>>) -> Seq<(Seq<u8>, TagM)>
    decreases m.len(),
{
    if m.len() == 0 {
        Seq::empty()
    } else if keys.contains(m.last().0) {
        spec_remove(m.drop_last(), keys)
    } else {
        spec_remove(m.drop_last(), keys).push(m.last())
    }
}

/// Replace every entry with the key, or append one.
pub open spec fn spec_set(m: Seq<(Seq<u8>, TagM)>, k: Seq<u8>, v: TagM) -> Seq<(Seq<u8>, TagM)> {
    if exists|i: int| 0 <= i < m.len() && m[i].0 == k {
        Seq::new(
            m.len(),
            |i: int|
                if 0 <= i < m.len() && m[i].0 == k {
                    (k, v)
                } else {
                    m[i]
                },
        )
    } else {
        m.push((k, v))
    }
}

/// Append the entry only if the key is absent.
pub open spec fn spec_insert_absent(m: Seq<(Seq<u8>, TagM)>, k: Seq<u8>, v: TagM) -> Seq<
    (Seq<u8>, TagM),
> {
    if exists|i: int| 0 <= i < m.len() && m[i].0 == k {
        m
    } else {
        m.push((k, v))
    }
}

/// Whether a byte string is in a key list.
pub fn key_in(keys: &Vec<Vec<u8>>, k: &[u8]) -> (r: bool)
    ensures
        r == keys.deep_view().contains(k@),
{
    let mut i: usize = 0;
    while i < keys.len()
        invariant
            0 <= i <= keys@.len(),
            forall|j: int| 0 <= j < i ==> keys.deep_view()[j] != k@,
        decreases keys@.len() - i,
    {
        proof {
            assert(keys.deep_view()[i as int] == keys@[i as int]@);
        }
        if bytes_eq(keys[i].as_slice(), k) {
            proof {
                assert(keys.deep_view()[i as int] == k@);
            }
            return true;
        }
        i = i + 1;
    }
    proof {
        if keys.deep_view().contains(k@) {
            let j = choose|j: int| 0 <= j < keys.deep_view().len() && keys.deep_view()[j] == k@;
            assert(keys.deep_view()[j] != k@);
        }
    }
    false
}

/// Drops every entry whose key is in the list.
#[verifier::loop_isolation(false)]
fn remove_fields(m: Vec<(Vec<u8>, Tag)>, keys: &Vec<Vec<u8>>) -> (r: Vec<(Vec<u8>, Tag)>)
    ensures
        pairs_vview(r@) == spec_remove(pairs_vview(m@), keys.deep_view()),
{
    let mut out: Vec<(Vec<u8>, Tag)> = Vec::new();
    let mut i: usize = 0;
    let ghost mv = pairs_vview(m@);
    proof {
        assert(mv.take(0) =~= Seq::empty());
    }
    let mut rest = m;
    let mut taken: usize = 0;
    // walk by moving entries out of the front of `rest`
    while taken < rest.len()
        invariant
            0 <= taken <= rest@.len(),
            pairs_vview(rest@) == mv,
            pairs_vview(out@) == spec_remove(mv.take(taken as int), keys.deep_view()),
        decreases rest@.len() - taken,
    {
        let keep = !key_in(keys, rest[taken].0.as_slice());
        proof {
            assert(mv[taken as int] == (rest@[taken as int].0@, rest@[taken as int].1@));
            assert(mv.take(taken as int + 1).drop_last() =~= mv.take(taken as int));
            assert(mv.take(taken as int + 1).last() == mv[taken as int]);
        }
        if keep {
            let ghost pre = pairs_vview(out@);
            let entry = (bytes_of(rest[taken].0.as_slice()), clone_tag(&rest[taken].1));
            out.push(entry);
            proof {
                assert(pairs_vview(out@) =~= pre.push(mv[taken as int]));
            }
        }
        taken = taken + 1;
    }
    proof {
        assert(mv.take(rest@.len() as int) =~= mv);
    }
    out
}

/// A structural copy of a tag tree.
#[verifier::loop_isolation(false)]
pub fn clone_tag(t: &Tag) -> (r: Tag)
    ensures
        r@ == t@,
    decreases *t,
{
    match t {
        Tag::Byte(v) => Tag::Byte(*v),
        Tag::Short(v) => Tag::Short(*v),
        Tag::Int(v) => Tag::Int(*v),
        Tag::Long(v) => Tag::Long(*v),
        Tag::Float(v) => Tag::Float(*v),
        Tag::Double(v) => Tag::Double(*v),
        Tag::Str(s) => Tag::Str(bytes_of(s.as_slice())),
        Tag::ByteArray(a) => {
            let mut out: Vec<i8> = Vec::new();
            let mut i: usize = 0;
            while i < a.len()
                invariant
                    0 <= i <= a@.len(),
                    out@ =~= a@.take(i as int),
                decreases a@.len() - i,
            {
                out.push(a[i]);
                i = i + 1;
            }
            proof {
                assert(out@ =~= a@);
            }
            Tag::ByteArray(out)
        },
        Tag::IntArray(a) => {
            let mut out: Vec<i32> = Vec::new();
            let mut i: usize = 0;
            while i < a.len()
                invariant
                    0 <= i <= a@.len(),
                    out@ =~= a@.take(i as int),
                decreases a@.len() - i,
            {
                out.push(a[i]);
                i = i + 1;
            }
            proof {
                assert(out@ =~= a@);
            }
            Tag::IntArray(out)
        },
        Tag::LongArray(a) => {
            let mut out: Vec<i64> = Vec::new();
            let mut i: usize = 0;
            while i < a.len()
                invariant
                    0 <= i <= a@.len(),
                    out@ =~= a@.take(i as int),
                decreases a@.len() - i,
            {
                out.push(a[i]);
                i = i + 1;
            }
            proof {
                assert(out@ =~= a@);
            }
            Tag::LongArray(out)
        },
        Tag::List(l) => {
            proof {
                reveal_with_fuel(<Tag as vstd::view::View>::view, 2);
                assert(t@ matches TagM::List(x) && x.len() == l@.len());
                assert forall|j: int| 0 <= j < l@.len() implies t@->List_0[j] == l@[j]@ by {}
            }
            let mut out: Vec<Tag> = Vec::new();
            let mut i: usize = 0;
            while i < l.len()
                invariant
                    0 <= i <= l@.len(),
                    out@.len() == i,
                    forall|j: int| 0 <= j < i ==> out@[j]@ == #[trigger] l@[j]@,
                decreases l@.len() - i, 0int,
            {
                let c = clone_tag(&l[i]);
                out.push(c);
                i = i + 1;
            }
            let r = Tag::List(out);
            proof {
                reveal_with_fuel(<Tag as vstd::view::View>::view, 2);
                assert(r@ matches TagM::List(y) && y =~= t@->List_0);
            }
            r
        },
        Tag::Compound(m) => {
            proof {
                reveal_with_fuel(<Tag as vstd::view::View>::view, 2);
                assert(t@ matches TagM::Compound(x) && x.len() == m@.len());
                assert forall|j: int|
                    0 <= j < m@.len() implies t@->Compound_0[j] == (m@[j].0@, m@[j].1@) by {}
            }
            let mut out: Vec<(Vec<u8>, Tag)> = Vec::new();
            let mut i: usize = 0;
            while i < m.len()
                invariant
                    0 <= i <= m@.len(),
                    out@.len() == i,
                    forall|j: int|
                        0 <= j < i ==> (#[trigger] out@[j]).0@ == m@[j].0@ && out@[j].1@
                            == m@[j].1@,
                decreases m@.len() - i, 0int,
            {
                let k = bytes_of(m[i].0.as_slice());
                let v = clone_tag(&m[i].1);
                out.push((k, v));
                i = i + 1;
            }
            let r = Tag::Compound(out);
            proof {
                reveal_with_fuel(<Tag as vstd::view::View>::view, 2);
                assert(r@ matches TagM::Compound(y) && y =~~= t@->Compound_0);
            }
            r
        },
    }
}


// ------------------------------------------------------ the transforms

/// Strip the per-section light fields from one section (aggressive mode
/// only).
pub open spec fn spec_strip_section(e: TagM) -> TagM {
    match e {
        TagM::Compound(sm) => TagM::Compound(spec_remove(sm, spec_section_light_fields())),
        _ => e,
    }
}

/// Strip the light fields from every section of a section list.
pub open spec fn spec_strip_sections_value(v: TagM) -> TagM {
    match v {
        TagM::List(l) => TagM::List(Seq::new(l.len(), |i: int| spec_strip_section(l[i]))),
        _ => v,
    }
}

/// Apply the section stripping to every entry named `sections`.
pub open spec fn spec_strip_entries(m: Seq<(Seq<u8>, TagM)>) -> Seq<(Seq<u8>, TagM)> {
    Seq::new(
        m.len(),
        |i: int|
            if m[i].0 == "sections".spec_bytes() {
                (m[i].0, spec_strip_sections_value(m[i].1))
            } else {
                m[i]
            },
    )
}

/// The whole chunk-layer transform: strip the field group always; in
/// aggressive mode additionally strip the per-section light data and the
/// aggressive field group. A record whose root is not a compound is left
/// alone.
pub open spec fn spec_denoise_chunk(
    t: TagM,
    aggressive: bool,
    fields: Seq<Seq<u8>>,
    agg: Seq<Seq<u8>>,
) -> TagM {
    match t {
        TagM::Compound(m) => {
            let m1 = spec_remove(m, fields);
            let m3 = if aggressive {
                spec_remove(spec_strip_entries(m1), agg)
            } else {
                m1
            };
            TagM::Compound(m3)
        },
        _ => t,
    }
}

/// The level transform applied to the value under `Data`.
pub open spec fn spec_level_value(v: TagM, fields: Seq<Seq<u8>>, reset_weather: bool) -> TagM {
    match v {
        TagM::Compound(d) => {
            let d1 = spec_remove(d, fields);
            let d2 = if reset_weather {
                spec_set(
                    spec_set(d1, "raining".spec_bytes(), TagM::Byte(0)),
                    "thundering".spec_bytes(),
                    TagM::Byte(0),
                )
            } else {
                d1
            };
            TagM::Compound(d2)
        },
        _ => v,
    }
}

/// The whole level-layer transform: strip the field group inside the
/// nested `Data` compound, and force the weather calm if asked to.
pub open spec fn spec_denoise_level(t: TagM, fields: Seq<Seq<u8>>, reset_weather: bool) -> TagM {
    match t {
        TagM::Compound(m) => TagM::Compound(
            Seq::new(
                m.len(),
                |i: int|
                    if m[i].0 == "Data".spec_bytes() {
                        (m[i].0, spec_level_value(m[i].1, fields, reset_weather))
                    } else {
                        m[i]
                    },
            ),
        ),
        _ => t,
    }
}

/// Re-insert the stock defaults for the stripped bookkeeping fields,
/// without touching a key that is already present.
pub open spec fn spec_restore_defaults(t: TagM) -> TagM {
    match t {
        TagM::Compound(m) => TagM::Compound(
            spec_insert_absent(
                spec_insert_absent(
                    spec_insert_absent(m, "LastUpdate".spec_bytes(), TagM::Long(0)),
                    "InhabitedTime".spec_bytes(),
                    TagM::Long(0),
                ),
                "isLightOn".spec_bytes(),
                TagM::Byte(0),
            ),
        ),
        _ => t,
    }
}

fn has_key(m: &Vec<(Vec<u8>, Tag)>, k: &[u8]) -> (r: bool)
    ensures
        r == (exists|i: int| 0 <= i < m@.len() && pairs_vview(m@)[i].0 == k@),
{
    let mut i: usize = 0;
    while i < m.len()
        invariant
            0 <= i <= m@.len(),
            forall|j: int| 0 <= j < i ==> pairs_vview(m@)[j].0 != k@,
        decreases m@.len() - i,
    {
        proof {
            assert(pairs_vview(m@)[i as int].0 == m@[i as int].0@);
        }
        if bytes_eq(m[i].0.as_slice(), k) {
            return true;
        }
        i = i + 1;
    }
    false
}

#[verifier::loop_isolation(false)]
fn set_key(m: Vec<(Vec<u8>, Tag)>, k: &[u8], v: Tag) -> (r: Vec<(Vec<u8>, Tag)>)
    ensures
        pairs_vview(r@) == spec_set(pairs_vview(m@), k@, v@),
{
    let ghost mv = pairs_vview(m@);
    if has_key(&m, k) {
        let mut out: Vec<(Vec<u8>, Tag)> = Vec::new();
        let mut i: usize = 0;
        while i < m.len()
            invariant
                0 <= i <= m@.len(),
                out@.len() == i,
                forall|j: int|
                    0 <= j < i ==> pairs_vview(out@)[j] == (if mv[j].0 == k@ {
                        (k@, v@)
                    } else {
                        mv[j]
                    }),
            decreases m@.len() - i,
        {
            proof {
                assert(mv[i as int] == (m@[i as int].0@, m@[i as int].1@));
            }
            let ghost pre = pairs_vview(out@);
            if bytes_eq(m[i].0.as_slice(), k) {
                let e = (bytes_of(k), clone_tag(&v));
                out.push(e);
            } else {
                let e = (bytes_of(m[i].0.as_slice()), clone_tag(&m[i].1));
                out.push(e);
            }
            proof {
                assert(pairs_vview(out@) =~= pre.push(pairs_vview(out@)[i as int]));
            }
            i = i + 1;
        }
        proof {
            assert(pairs_vview(out@) =~= spec_set(mv, k@, v@));
        }
        out
    } else {
        let mut out = m;
        let ghost pre = pairs_vview(out@);
        let kk = bytes_of(k);
        out.push((kk, v));
        proof {
            assert(pairs_vview(out@) =~= pre.push((k@, v@)));
            assert(pairs_vview(out@) =~= spec_set(mv, k@, v@));
        }
        out
    }
}

#[verifier::loop_isolation(false)]
fn insert_absent(m: Vec<(Vec<u8>, Tag)>, k: &[u8], v: Tag) -> (r: Vec<(Vec<u8>, Tag)>)
    ensures
        pairs_vview(r@) == spec_insert_absent(pairs_vview(m@), k@, v@),
{
    let ghost mv = pairs_vview(m@);
    if has_key(&m, k) {
        m
    } else {
        let mut out = m;
        let ghost pre = pairs_vview(out@);
        let kk = bytes_of(k);
        out.push((kk, v));
        proof {
            assert(pairs_vview(out@) =~= pre.push((k@, v@)));
        }
        out
    }
}

/// Strips the light fields from one section.
#[verifier::loop_isolation(false)]
fn strip_section(e: Tag, lights: &Vec<Vec<u8>>) -> (r: Tag)
    requires
        lights.deep_view() == spec_section_light_fields(),
    ensures
        r@ == spec_strip_section(e@),
{
    match e {
        Tag::Compound(sm) => {
            proof {
                reveal_with_fuel(<Tag as vstd::view::View>::view, 2);
            }
            let ghost ev = Tag::Compound(sm)@;
            proof {
                assert(ev matches TagM::Compound(x) && x =~= pairs_vview(sm@));
            }
            let stripped = remove_fields(sm, lights);
            let r = Tag::Compound(stripped);
            proof {
                reveal_with_fuel(<Tag as vstd::view::View>::view, 2);
                assert(r@ matches TagM::Compound(y) && y =~= pairs_vview(stripped@));
            }
            r
        },
        other => other,
    }
}

/// Applies the section stripping to every entry named `sections`.
#[verifier::loop_isolation(false)]
fn strip_entries(m: Vec<(Vec<u8>, Tag)>) -> (r: Vec<(Vec<u8>, Tag)>)
    ensures
        pairs_vview(r@) == spec_strip_entries(pairs_vview(m@)),
{
    broadcast use vstd::string::is_ascii_spec_bytes;

    let lights = section_light_fields();
    let sections_lit = "sections";
    proof {
        reveal_strlit("sections");
    }
    let ghost mv = pairs_vview(m@);
    let mut out: Vec<(Vec<u8>, Tag)> = Vec::new();
    let mut i: usize = 0;
    while i < m.len()
        invariant
            0 <= i <= m@.len(),
            out@.len() == i,
            forall|j: int| 0 <= j < i ==> pairs_vview(out@)[j] == spec_strip_entries(mv)[j],
        decreases m@.len() - i,
    {
        proof {
            assert(mv[i as int] == (m@[i as int].0@, m@[i as int].1@));
        }
        let ghost pre = pairs_vview(out@);
        let key = bytes_of(m[i].0.as_slice());
        if bytes_eq(key.as_slice(), sections_lit.as_bytes()) {
            let newv = match &m[i].1 {
                Tag::List(l) => {
                    proof {
                        reveal_with_fuel(<Tag as vstd::view::View>::view, 2);
                        assert(m@[i as int].1@ matches TagM::List(x) && x.len() == l@.len());
                        assert forall|j: int|
                            0 <= j < l@.len() implies m@[i as int].1@->List_0[j] == l@[j]@ by {}
                    }
                    let mut nl: Vec<Tag> = Vec::new();
                    let mut j: usize = 0;
                    while j < l.len()
                        invariant
                            0 <= j <= l@.len(),
                            nl@.len() == j,
                            forall|q: int|
                                0 <= q < j ==> nl@[q]@ == spec_strip_section(
                                    #[trigger] l@[q]@,
                                ),
                        decreases l@.len() - j,
                    {
                        let se = strip_section(clone_tag(&l[j]), &lights);
                        nl.push(se);
                        j = j + 1;
                    }
                    let r = Tag::List(nl);
                    proof {
                        reveal_with_fuel(<Tag as vstd::view::View>::view, 2);
                        assert(r@ matches TagM::List(y) && y.len() == nl@.len());
                        let sv = spec_strip_sections_value(m@[i as int].1@);
                        assert(sv matches TagM::List(z) && z.len() == nl@.len());
                        assert forall|q: int|
                            0 <= q < nl@.len() implies r@->List_0[q] == sv->List_0[q] by {
                            assert(r@->List_0[q] == nl@[q]@);
                            assert(sv->List_0[q] == spec_strip_section(
                                m@[i as int].1@->List_0[q],
                            ));
                            assert(m@[i as int].1@->List_0[q] == l@[q]@);
                        }
                        assert(r@->List_0 =~= sv->List_0);
                        assert(r@ == sv);
                    }
                    r
                },
                other => {
                    let c = clone_tag(other);
                    proof {
                        assert(c@ == spec_strip_sections_value(m@[i as int].1@));
                    }
                    c
                },
            };
            out.push((key, newv));
        } else {
            let v = clone_tag(&m[i].1);
            out.push((key, v));
        }
        proof {
            assert(pairs_vview(out@) =~= pre.push(spec_strip_entries(mv)[i as int]));
        }
        i = i + 1;
    }
    proof {
        assert(pairs_vview(out@) =~= spec_strip_entries(mv));
    }
    out
}

/// The chunk transform over explicit field lists.
fn denoise_chunk_lists(value: &mut Tag, aggressive: bool, fields: &Vec<Vec<u8>>, agg: &Vec<
    Vec<u8>,
>)
    ensures
        final(value)@ == spec_denoise_chunk(
            old(value)@,
            aggressive,
            fields.deep_view(),
            agg.deep_view(),
        ),
{
    let mut tmp = Tag::Byte(0);
    core::mem::swap(value, &mut tmp);
    match tmp {
        Tag::Compound(m) => {
            proof {
                reveal_with_fuel(<Tag as vstd::view::View>::view, 2);
                assert(old(value)@ matches TagM::Compound(x) && x =~= pairs_vview(m@));
            }
            let m1 = remove_fields(m, fields);
            let m3 = if aggressive {
                let m2 = strip_entries(m1);
                remove_fields(m2, agg)
            } else {
                m1
            };
            let r = Tag::Compound(m3);
            proof {
                reveal_with_fuel(<Tag as vstd::view::View>::view, 2);
                assert(r@ matches TagM::Compound(y) && y =~= pairs_vview(m3@));
                assert(r@ =~~= spec_denoise_chunk(
                    old(value)@,
                    aggressive,
                    fields.deep_view(),
                    agg.deep_view(),
                ));
            }
            *value = r;
        },
        other => {
            *value = other;
        },
    }
}

/// Strips the stock chunk-layer noise fields from a record; in
/// aggressive mode also the per-section light data and the aggressive
/// field group.
pub fn denoise_chunk(value: &mut Tag, aggressive: bool)
    ensures
        final(value)@ == spec_denoise_chunk(
            old(value)@,
            aggressive,
            spec_chunk_noise_fields(),
            spec_chunk_aggressive_fields(),
        ),
{
    let fields = chunk_noise_fields();
    let agg = chunk_aggressive_fields();
    denoise_chunk_lists(value, aggressive, &fields, &agg);
}

/// Strips the configured chunk-layer noise fields from a record; in
/// aggressive mode also the per-section light data and the configured
/// aggressive field group.
pub fn denoise_chunk_with_config(value: &mut Tag, aggressive: bool, config: &DenoiseConfig)
    ensures
        final(value)@ == spec_denoise_chunk(
            old(value)@,
            aggressive,
            config.chunk.fields.deep_view(),
            config.chunk.aggressive_fields.deep_view(),
        ),
{
    denoise_chunk_lists(value, aggressive, &config.chunk.fields, &config.chunk.aggressive_fields);
}

/// The level transform over an explicit field list.
#[verifier::loop_isolation(false)]
fn denoise_level_lists(value: &mut Tag, fields: &Vec<Vec<u8>>, reset_weather: bool)
    ensures
        final(value)@ == spec_denoise_level(old(value)@, fields.deep_view(), reset_weather),
{
    broadcast use vstd::string::is_ascii_spec_bytes;

    let data_lit = "Data";
    proof {
        reveal_strlit("Data");
    }
    let mut tmp = Tag::Byte(0);
    core::mem::swap(value, &mut tmp);
    match tmp {
        Tag::Compound(m) => {
            proof {
                reveal_with_fuel(<Tag as vstd::view::View>::view, 2);
                assert(old(value)@ matches TagM::Compound(x) && x =~= pairs_vview(m@));
            }
            let ghost mv = pairs_vview(m@);
            let mut out: Vec<(Vec<u8>, Tag)> = Vec::new();
            let mut i: usize = 0;
            while i < m.len()
                invariant
                    0 <= i <= m@.len(),
                    out@.len() == i,
                    forall|j: int|
                        0 <= j < i ==> pairs_vview(out@)[j] == (if mv[j].0
                            == "Data".spec_bytes() {
                            (mv[j].0, spec_level_value(mv[j].1, fields.deep_view(), reset_weather))
                        } else {
                            mv[j]
                        }),
                decreases m@.len() - i,
            {
                proof {
                    assert(mv[i as int] == (m@[i as int].0@, m@[i as int].1@));
                }
                let ghost pre = pairs_vview(out@);
                let key = bytes_of(m[i].0.as_slice());
                if bytes_eq(key.as_slice(), data_lit.as_bytes()) {
                    let newv = match &m[i].1 {
                        Tag::Compound(d) => {
                            proof {
                                reveal_with_fuel(<Tag as vstd::view::View>::view, 2);
                                assert(m@[i as int].1@ matches TagM::Compound(x) && x =~=
                                pairs_vview(d@));
                            }
                            let dc = clone_pairs(d);
                            let d1 = remove_fields(dc, fields);
                            let d2 = if reset_weather {
                                let raining = "raining";
                                let thundering = "thundering";
                                proof {
                                    reveal_strlit("raining");
                                    reveal_strlit("thundering");
                                }
                                let da = set_key(d1, raining.as_bytes(), Tag::Byte(0));
                                set_key(da, thundering.as_bytes(), Tag::Byte(0))
                            } else {
                                d1
                            };
                            let r = Tag::Compound(d2);
                            proof {
                                reveal_with_fuel(<Tag as vstd::view::View>::view, 2);
                                assert(r@ matches TagM::Compound(y) && y =~= pairs_vview(d2@));
                                assert(r@ =~~= spec_level_value(
                                    m@[i as int].1@,
                                    fields.deep_view(),
                                    reset_weather,
                                ));
                            }
                            r
                        },
                        other => {
                            let c = clone_tag(other);
                            proof {
                                assert(c@ == spec_level_value(
                                    m@[i as int].1@,
                                    fields.deep_view(),
                                    reset_weather,
                                ));
                            }
                            c
                        },
                    };
                    out.push((key, newv));
                } else {
                    let v = clone_tag(&m[i].1);
                    out.push((key, v));
                }
                proof {
                    assert(pairs_vview(out@) =~= pre.push(pairs_vview(out@)[i as int]));
                }
                i = i + 1;
            }
            let r = Tag::Compound(out);
            proof {
                reveal_with_fuel(<Tag as vstd::view::View>::view, 2);
                assert(r@ matches TagM::Compound(y) && y =~= pairs_vview(out@));
                let sv = spec_denoise_level(old(value)@, fields.deep_view(), reset_weather);
                assert(sv matches TagM::Compound(z) && z.len() == out@.len());
                assert forall|j: int|
                    0 <= j < out@.len() implies r@->Compound_0[j] == sv->Compound_0[j] by {
                    assert(r@->Compound_0[j] == pairs_vview(out@)[j]);
                }
                assert(r@->Compound_0 =~= sv->Compound_0);
                assert(r@ == sv);
            }
            *value = r;
        },
        other => {
            *value = other;
        },
    }
}

/// Strips the stock level-layer noise fields and resets the weather.
pub fn denoise_level(value: &mut Tag)
    ensures
        final(value)@ == spec_denoise_level(old(value)@, spec_level_noise_fields(), true),
{
    let fields = level_noise_fields();
    denoise_level_lists(value, &fields, true);
}

/// Strips the configured level-layer noise fields.
pub fn denoise_level_with_config(value: &mut Tag, config: &DenoiseConfig)
    ensures
        final(value)@ == spec_denoise_level(
            old(value)@,
            config.level.fields.deep_view(),
            config.level.reset_weather,
        ),
{
    denoise_level_lists(value, &config.level.fields, config.level.reset_weather);
}

/// Re-inserts the stock defaults for the stripped bookkeeping fields.
pub fn restore_defaults(value: &mut Tag)
    ensures
        final(value)@ == spec_restore_defaults(old(value)@),
{
    broadcast use vstd::string::is_ascii_spec_bytes;

    proof {
        reveal_strlit("LastUpdate");
        reveal_strlit("InhabitedTime");
        reveal_strlit("isLightOn");
    }
    let mut tmp = Tag::Byte(0);
    core::mem::swap(value, &mut tmp);
    match tmp {
        Tag::Compound(m) => {
            proof {
                reveal_with_fuel(<Tag as vstd::view::View>::view, 2);
                assert(old(value)@ matches TagM::Compound(x) && x =~= pairs_vview(m@));
            }
            let m1 = insert_absent(m, "LastUpdate".as_bytes(), Tag::Long(0));
            let m2 = insert_absent(m1, "InhabitedTime".as_bytes(), Tag::Long(0));
            let m3 = insert_absent(m2, "isLightOn".as_bytes(), Tag::Byte(0));
            let r = Tag::Compound(m3);
            proof {
                reveal_with_fuel(<Tag as vstd::view::View>::view, 2);
                assert(r@ matches TagM::Compound(y) && y =~= pairs_vview(m3@));
                assert(r@ =~~= spec_restore_defaults(old(value)@));
            }
            *value = r;
        },
        other => {
            *value = other;
        },
    }
}

/// A structural copy of a compound's entries.
fn clone_pairs(m: &Vec<(Vec<u8>, Tag)>) -> (r: Vec<(Vec<u8>, Tag)>)
    ensures
        pairs_vview(r@) == pairs_vview(m@),
{
    let mut out: Vec<(Vec<u8>, Tag)> = Vec::new();
    let mut i: usize = 0;
    while i < m.len()
        invariant
            0 <= i <= m@.len(),
            out@.len() == i,
            forall|j: int|
                0 <= j < i ==> (#[trigger] out@[j]).0@ == m@[j].0@ && out@[j].1@ == m@[j].1@,
        decreases m@.len() - i,
    {
        let k = bytes_of(m[i].0.as_slice());
        let v = clone_tag(&m[i].1);
        out.push((k, v));
        i = i + 1;
    }
    proof {
        assert(pairs_vview(out@) =~= pairs_vview(m@));
    }
    out
}

// ------------------------------------------------------------- the law

proof fn lemma_remove_after_insert_absent(
    m: Seq<(Seq<u8>, TagM)>,
    keys: Seq<Seq<u8>>,
    k: Seq<u8>,
    v: TagM,
)
    requires
        keys.contains(k),
    ensures
        spec_remove(spec_insert_absent(m, k, v), keys) == spec_remove(m, keys),
{
    if !(exists|i: int| 0 <= i < m.len() && m[i].0 == k) {
        let p = m.push((k, v));
        assert(p.drop_last() =~= m);
        assert(p.last() == (k, v));
    }
}

/// Restoring defaults and then denoising gives the same record as
/// denoising alone, whenever the denoise field group covers the three
/// restored keys: restore only fills gaps that the transform strips again.
pub proof fn lemma_restore_then_denoise(
    t: TagM,
    aggressive: bool,
    fields: Seq<Seq<u8>>,
    agg: Seq<Seq<u8>>,
)
    requires
        fields.contains("LastUpdate".spec_bytes()),
        fields.contains("InhabitedTime".spec_bytes()),
        fields.contains("isLightOn".spec_bytes()),
    ensures
        spec_denoise_chunk(spec_restore_defaults(t), aggressive, fields, agg)
            == spec_denoise_chunk(t, aggressive, fields, agg),
{
    match t {
        TagM::Compound(m) => {
            let m1 = spec_insert_absent(m, "LastUpdate".spec_bytes(), TagM::Long(0));
            let m2 = spec_insert_absent(m1, "InhabitedTime".spec_bytes(), TagM::Long(0));
            let m3 = spec_insert_absent(m2, "isLightOn".spec_bytes(), TagM::Byte(0));
            lemma_remove_after_insert_absent(m, fields, "LastUpdate".spec_bytes(), TagM::Long(0));
            lemma_remove_after_insert_absent(
                m1,
                fields,
                "InhabitedTime".spec_bytes(),
                TagM::Long(0),
            );
            lemma_remove_after_insert_absent(m2, fields, "isLightOn".spec_bytes(), TagM::Byte(0));
            assert(spec_remove(m3, fields) == spec_remove(m, fields));
        },
        _ => {},
    }
}

} // verus!
