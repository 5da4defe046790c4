//! The per-container pipeline end to end, with the real binary-tag and
//! document libraries on the outside: export a container, restore it, and
//! compare the re-encoded trees.

use fastnbt::Value;
use mcj::codec::nbt_to_json;
use mcj::config::Config;
use mcj::doc::Doc;
use mcj::jsontext::render_doc;
use mcj::pipeline::{
    export_chunk, export_level_core, export_mca_core, restore_chunk, restore_level_core,
    restore_slice_chunks,
};
use mcj::region::{decode_region, encode_region, RawRecord};
use mcj::tag::{ChunkData, Tag};

fn tag_to_value(t: &Tag) -> Value {
    match t {
        Tag::Byte(v) => Value::Byte(*v),
        Tag::Short(v) => Value::Short(*v),
        Tag::Int(v) => Value::Int(*v),
        Tag::Long(v) => Value::Long(*v),
        Tag::Float(b) => Value::Float(f32::from_bits(*b)),
        Tag::Double(b) => Value::Double(f64::from_bits(*b)),
        Tag::Str(s) => Value::String(String::from_utf8(s.clone()).unwrap()),
        Tag::ByteArray(a) => Value::ByteArray(fastnbt::ByteArray::new(a.clone())),
        Tag::IntArray(a) => Value::IntArray(fastnbt::IntArray::new(a.clone())),
        Tag::LongArray(a) => Value::LongArray(fastnbt::LongArray::new(a.clone())),
        Tag::List(l) => Value::List(l.iter().map(tag_to_value).collect()),
        Tag::Compound(m) => Value::Compound(
            m.iter()
                .map(|(k, v)| (String::from_utf8(k.clone()).unwrap(), tag_to_value(v)))
                .collect(),
        ),
    }
}

fn canon(t: &Tag) -> Tag {
    match t {
        Tag::List(l) => Tag::List(l.iter().map(canon).collect()),
        Tag::Compound(m) => {
            let mut entries: Vec<(Vec<u8>, Tag)> =
                m.iter().map(|(k, v)| (k.clone(), canon(v))).collect();
            entries.sort_by(|a, b| a.0.cmp(&b.0));
            Tag::Compound(entries)
        }
        other => other.clone_via_value(),
    }
}

fn tag_eq(a: &Tag, b: &Tag) -> bool {
    match (a, b) {
        (Tag::Byte(x), Tag::Byte(y)) => x == y,
        (Tag::Short(x), Tag::Short(y)) => x == y,
        (Tag::Int(x), Tag::Int(y)) => x == y,
        (Tag::Long(x), Tag::Long(y)) => x == y,
        (Tag::Float(x), Tag::Float(y)) => x == y,
        (Tag::Double(x), Tag::Double(y)) => x == y,
        (Tag::Str(x), Tag::Str(y)) => x == y,
        (Tag::ByteArray(x), Tag::ByteArray(y)) => x == y,
        (Tag::IntArray(x), Tag::IntArray(y)) => x == y,
        (Tag::LongArray(x), Tag::LongArray(y)) => x == y,
        (Tag::List(x), Tag::List(y)) => {
            x.len() == y.len() && x.iter().zip(y.iter()).all(|(p, q)| tag_eq(p, q))
        }
        (Tag::Compound(x), Tag::Compound(y)) => {
            x.len() == y.len()
                && x.iter()
                    .zip(y.iter())
                    .all(|(p, q)| p.0 == q.0 && tag_eq(&p.1, &q.1))
        }
        _ => false,
    }
}

trait CloneViaValue {
    fn clone_via_value(&self) -> Tag;
}

impl CloneViaValue for Tag {
    fn clone_via_value(&self) -> Tag {
        value_to_tag(&tag_to_value(self))
    }
}

fn value_to_tag(v: &Value) -> Tag {
    match v {
        Value::Byte(x) => Tag::Byte(*x),
        Value::Short(x) => Tag::Short(*x),
        Value::Int(x) => Tag::Int(*x),
        Value::Long(x) => Tag::Long(*x),
        Value::Float(x) => Tag::Float(x.to_bits()),
        Value::Double(x) => Tag::Double(x.to_bits()),
        Value::String(s) => Tag::Str(s.as_bytes().to_vec()),
        Value::ByteArray(a) => Tag::ByteArray(a.iter().copied().collect()),
        Value::IntArray(a) => Tag::IntArray(a.iter().copied().collect()),
        Value::LongArray(a) => Tag::LongArray(a.iter().copied().collect()),
        Value::List(l) => Tag::List(l.iter().map(value_to_tag).collect()),
        Value::Compound(m) => {
            let mut entries: Vec<(Vec<u8>, Tag)> = m
                .iter()
                .map(|(k, v)| (k.as_bytes().to_vec(), value_to_tag(v)))
                .collect();
            entries.sort_by(|a, b| a.0.cmp(&b.0));
            Tag::Compound(entries)
        }
    }
}

fn sj_to_doc(v: &serde_json::Value) -> Doc {
    match v {
        serde_json::Value::Null => Doc::Null,
        serde_json::Value::Bool(b) => Doc::Bool(*b),
        serde_json::Value::Number(n) => {
            if let Some(i) = n.as_i64() {
                Doc::Int(i)
            } else {
                Doc::Float(n.as_f64().unwrap().to_bits())
            }
        }
        serde_json::Value::String(s) => Doc::Str(s.as_bytes().to_vec()),
        serde_json::Value::Array(a) => Doc::Arr(a.iter().map(sj_to_doc).collect()),
        serde_json::Value::Object(m) => Doc::Obj(
            m.iter()
                .map(|(k, v)| (k.as_bytes().to_vec(), sj_to_doc(v)))
                .collect(),
        ),
    }
}

fn obj(entries: Vec<(&str, Tag)>) -> Tag {
    Tag::Compound(
        entries
            .into_iter()
            .map(|(k, v)| (k.as_bytes().to_vec(), v))
            .collect(),
    )
}

#[test]
fn export_keeps_only_full_records() {
    let cfg = Config::default();
    let full = ChunkData {
        x: 1,
        z: 2,
        data: obj(vec![
            ("Status", Tag::Str(b"minecraft:full".to_vec())),
            ("block_entities", Tag::List(vec![Tag::Int(1)])),
        ]),
    };
    let partial = ChunkData {
        x: 1,
        z: 3,
        data: obj(vec![("Status", Tag::Str(b"minecraft:features".to_vec()))]),
    };
    assert!(export_chunk(&full, false, false, &cfg.denoise, true).is_some());
    assert!(export_chunk(&partial, false, false, &cfg.denoise, true).is_none());
}

#[test]
fn exported_record_text_is_json_with_coordinates() {
    let cfg = Config::default();
    let chunk = ChunkData {
        x: -5,
        z: 31,
        data: obj(vec![
            ("Status", Tag::Str(b"full".to_vec())),
            ("block_entities", Tag::List(vec![Tag::Int(7)])),
        ]),
    };
    let text = export_chunk(&chunk, false, false, &cfg.denoise, true).unwrap();
    let parsed: serde_json::Value = serde_json::from_slice(&text).unwrap();
    assert_eq!(parsed.get("x").and_then(|v| v.as_i64()), Some(-5));
    assert_eq!(parsed.get("z").and_then(|v| v.as_i64()), Some(31));
    assert_eq!(parsed.get("Status").and_then(|v| v.as_str()), Some("full"));
}

#[test]
fn full_cycle_reproduces_the_tag_tree() {
    // a container holding one fully generated record with a numeric
    // field, a 64-bit field and an empty list; denoise and aggressive off
    let cfg = Config::default();
    let root = obj(vec![
        ("Status", Tag::Str(b"minecraft:full".to_vec())),
        ("Height", Tag::Int(384)),
        ("Seed", Tag::Long(-40)),
        ("empty_stuff", Tag::List(Vec::new())),
        ("block_entities", Tag::List(vec![obj(vec![("id", Tag::Str(b"chest".to_vec()))])])),
    ]);
    // write the container through the real compressor and tag codec
    let nbt = fastnbt::to_bytes(&tag_to_value(&root)).unwrap();
    let container = encode_region(&vec![RawRecord { x: 3, z: 4, data: nbt }]).unwrap();

    // export: container -> records -> slice text
    let raw = decode_region(&container).unwrap();
    assert_eq!(raw.len(), 1);
    let parsed: Value = fastnbt::from_bytes(&raw[0].data).unwrap();
    let chunks = vec![ChunkData { x: raw[0].x, z: raw[0].z, data: value_to_tag(&parsed) }];
    let slices = export_mca_core(&chunks, false, false, &cfg.denoise, &cfg.export);
    assert_eq!(slices.len(), 1);

    // restore: slice text -> records -> container
    let slice_doc = sj_to_doc(&serde_json::from_slice(&slices[0]).unwrap());
    let restored = restore_slice_chunks(&slice_doc, false).unwrap();
    assert_eq!(restored.len(), 1);
    assert_eq!((restored[0].x, restored[0].z), (3, 4));
    // the pruning dropped the empty list, which restore cannot bring
    // back; everything else must come back exactly
    let mut pruned_root = canon(&root);
    if let Tag::Compound(m) = &mut pruned_root {
        m.retain(|e| e.0 != b"empty_stuff");
    }
    assert!(tag_eq(&canon(&restored[0].data), &pruned_root));

    let nbt_back = fastnbt::to_bytes(&tag_to_value(&restored[0].data)).unwrap();
    let container_back =
        encode_region(&vec![RawRecord { x: 3, z: 4, data: nbt_back }]).unwrap();
    let again = decode_region(&container_back).unwrap();
    assert_eq!(again.len(), 1);
    assert_eq!((again[0].x, again[0].z), (3, 4));
}

#[test]
fn restore_rejects_a_record_without_coordinates() {
    let d = Doc::Obj(vec![(b"Status".to_vec(), Doc::Str(b"full".to_vec()))]);
    assert!(restore_chunk(&d, false).is_err());
}

#[test]
fn restore_reinserts_defaults_when_asked() {
    let d = Doc::Obj(vec![
        (b"x".to_vec(), Doc::Int(1)),
        (b"z".to_vec(), Doc::Int(2)),
        (b"Status".to_vec(), Doc::Str(b"full".to_vec())),
    ]);
    let c = restore_chunk(&d, true).unwrap();
    match &c.data {
        Tag::Compound(m) => {
            assert!(m.iter().any(|e| e.0 == b"LastUpdate"));
            assert!(m.iter().any(|e| e.0 == b"isLightOn"));
            assert!(m.iter().all(|e| e.0 != b"x" && e.0 != b"z"));
        }
        _ => panic!(),
    }
    let c2 = restore_chunk(&d, false).unwrap();
    match &c2.data {
        Tag::Compound(m) => assert!(m.iter().all(|e| e.0 != b"LastUpdate")),
        _ => panic!(),
    }
}

#[test]
fn slice_without_chunks_key_is_an_error() {
    let d = Doc::Obj(vec![(b"other".to_vec(), Doc::Int(1))]);
    assert!(restore_slice_chunks(&d, false).is_err());
}

#[test]
fn level_round_trip() {
    let cfg = Config::default();
    let level = obj(vec![(
        "Data",
        obj(vec![
            ("LevelName", Tag::Str(b"world".to_vec())),
            ("Time", Tag::Long(99)),
            ("raining", Tag::Byte(1)),
        ]),
    )]);
    let text = export_level_core(&level, true, &cfg.denoise);
    let parsed: serde_json::Value = serde_json::from_slice(&text).unwrap();
    assert_eq!(parsed.get("_gzip").and_then(|v| v.as_i64()), Some(1));
    let doc = sj_to_doc(&parsed);
    let back = restore_level_core(&doc).unwrap();
    match &back {
        Tag::Compound(m) => match &m[0].1 {
            Tag::Compound(data) => {
                assert!(data.iter().all(|e| e.0 != b"Time"), "Time was denoised away");
                assert!(data.iter().any(|e| e.0 == b"LevelName"));
                assert!(data
                    .iter()
                    .any(|e| e.0 == b"raining" && matches!(e.1, Tag::Byte(0))));
            }
            _ => panic!(),
        },
        _ => panic!(),
    }
}

#[test]
fn rendered_text_matches_the_reference_serializer() {
    let d = Doc::Obj(vec![
        (b"s".to_vec(), Doc::Str(b"a\"b\\c\nd\x01e".to_vec())),
        (b"n".to_vec(), Doc::Int(-12)),
        (b"f".to_vec(), Doc::Float(1.5f64.to_bits())),
        (b"t".to_vec(), Doc::Bool(true)),
        (b"z".to_vec(), Doc::Null),
        (b"a".to_vec(), Doc::Arr(vec![Doc::Int(1), Doc::Str(b"x".to_vec())])),
    ]);
    let mine = String::from_utf8(render_doc(&d)).unwrap();
    // the reference parser accepts it and sees the same content
    let parsed: serde_json::Value = serde_json::from_str(&mine).unwrap();
    assert_eq!(parsed.get("s").and_then(|v| v.as_str()), Some("a\"b\\c\nd\u{1}e"));
    assert_eq!(parsed.get("n").and_then(|v| v.as_i64()), Some(-12));
    assert_eq!(parsed.get("f").and_then(|v| v.as_f64()), Some(1.5));
    assert_eq!(parsed.get("t").and_then(|v| v.as_bool()), Some(true));
    assert!(parsed.get("z").unwrap().is_null());
    // and serde_json re-renders it byte for byte
    assert_eq!(serde_json::to_string(&parsed).unwrap().len(), mine.len());
}

#[test]
fn a_large_export_splits_into_capped_slices() {
    let cfg = Config::default();
    // three records, each rendering to roughly three megabytes
    let blob = vec![b'q'; 3 << 20];
    let mut chunks = Vec::new();
    for i in 0..3 {
        chunks.push(ChunkData {
            x: i,
            z: 0,
            data: obj(vec![
                ("Status", Tag::Str(b"minecraft:full".to_vec())),
                ("big", Tag::Str(blob.clone())),
                ("block_entities", Tag::List(vec![Tag::Int(i)])),
            ]),
        });
    }
    let slices = export_mca_core(&chunks, false, false, &cfg.denoise, &cfg.export);
    assert_eq!(slices.len(), 2, "two records fit one slice, the third starts another");
    for s in &slices {
        let parsed: serde_json::Value = serde_json::from_slice(s).unwrap();
        assert!(parsed.get("chunks").and_then(|v| v.as_array()).is_some());
    }
    // every record survives the split, in order
    let mut seen = Vec::new();
    for s in &slices {
        let parsed: serde_json::Value = serde_json::from_slice(s).unwrap();
        for c in parsed.get("chunks").unwrap().as_array().unwrap() {
            seen.push(c.get("x").unwrap().as_i64().unwrap());
        }
    }
    assert_eq!(seen, vec![0, 1, 2]);
}
