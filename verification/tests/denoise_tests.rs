//! The denoise and restore transforms, and their non-interference.

use mcj::config::{Config, DenoiseConfig};
use mcj::denoise::{
    denoise_chunk, denoise_chunk_with_config, denoise_level, denoise_level_with_config,
    restore_defaults,
};
use mcj::tag::Tag;

fn compound(entries: Vec<(&str, Tag)>) -> Tag {
    Tag::Compound(
        entries
            .into_iter()
            .map(|(k, v)| (k.as_bytes().to_vec(), v))
            .collect(),
    )
}

fn keys(t: &Tag) -> Vec<Vec<u8>> {
    match t {
        Tag::Compound(m) => m.iter().map(|e| e.0.clone()).collect(),
        _ => Vec::new(),
    }
}

fn get<'a>(t: &'a Tag, k: &str) -> Option<&'a Tag> {
    match t {
        Tag::Compound(m) => m.iter().find(|e| e.0 == k.as_bytes()).map(|e| &e.1),
        _ => None,
    }
}

fn sample_chunk() -> Tag {
    compound(vec![
        ("Status", Tag::Str(b"minecraft:full".to_vec())),
        ("LastUpdate", Tag::Long(123)),
        ("InhabitedTime", Tag::Long(9)),
        ("isLightOn", Tag::Byte(1)),
        ("Heightmaps", Tag::Compound(vec![(b"W".to_vec(), Tag::Int(1))])),
        (
            "sections",
            Tag::List(vec![compound(vec![
                ("Y", Tag::Byte(0)),
                ("BlockLight", Tag::ByteArray(vec![1, 2])),
                ("SkyLight", Tag::ByteArray(vec![3])),
            ])]),
        ),
    ])
}

#[test]
fn stock_denoise_strips_noise_fields_and_keeps_the_rest() {
    let mut t = sample_chunk();
    denoise_chunk(&mut t, false);
    assert!(get(&t, "LastUpdate").is_none());
    assert!(get(&t, "InhabitedTime").is_none());
    assert!(get(&t, "isLightOn").is_none());
    assert!(get(&t, "Status").is_some());
    assert!(get(&t, "Heightmaps").is_some(), "aggressive off keeps Heightmaps");
    match get(&t, "sections").unwrap() {
        Tag::List(l) => match &l[0] {
            Tag::Compound(sm) => {
                // section light data goes only in aggressive mode
                assert!(sm.iter().any(|e| e.0 == b"BlockLight"));
                assert!(sm.iter().any(|e| e.0 == b"SkyLight"));
                assert!(sm.iter().any(|e| e.0 == b"Y"));
            }
            _ => panic!(),
        },
        _ => panic!(),
    }
}

#[test]
fn aggressive_denoise_strips_heightmaps_and_section_lights() {
    let mut t = sample_chunk();
    denoise_chunk(&mut t, true);
    assert!(get(&t, "Heightmaps").is_none());
    match get(&t, "sections").unwrap() {
        Tag::List(l) => match &l[0] {
            Tag::Compound(sm) => {
                assert!(sm.iter().all(|e| e.0 != b"BlockLight" && e.0 != b"SkyLight"));
                assert!(sm.iter().any(|e| e.0 == b"Y"));
            }
            _ => panic!(),
        },
        _ => panic!(),
    }
}

#[test]
fn non_compound_records_are_left_alone() {
    let mut t = Tag::Int(5);
    denoise_chunk(&mut t, true);
    assert!(matches!(t, Tag::Int(5)));
}

#[test]
fn restore_fills_gaps_only() {
    let mut t = compound(vec![("LastUpdate", Tag::Long(77))]);
    restore_defaults(&mut t);
    assert!(matches!(get(&t, "LastUpdate"), Some(Tag::Long(77))), "present keys are kept");
    assert!(matches!(get(&t, "InhabitedTime"), Some(Tag::Long(0))));
    assert!(matches!(get(&t, "isLightOn"), Some(Tag::Byte(0))));
}

#[test]
fn restore_then_denoise_equals_denoise_alone() {
    let cfg = DenoiseConfig::default();
    let make = || {
        compound(vec![
            ("Status", Tag::Str(b"full".to_vec())),
            ("data", Tag::Int(1)),
        ])
    };
    let mut a = make();
    restore_defaults(&mut a);
    denoise_chunk_with_config(&mut a, true, &cfg);
    let mut b = make();
    denoise_chunk_with_config(&mut b, true, &cfg);
    assert_eq!(keys(&a), keys(&b));
    assert!(get(&a, "LastUpdate").is_none());
}

#[test]
fn level_denoise_strips_inside_data_and_resets_weather() {
    let mut t = compound(vec![(
        "Data",
        compound(vec![
            ("Time", Tag::Long(1)),
            ("LevelName", Tag::Str(b"w".to_vec())),
            ("raining", Tag::Byte(1)),
        ]),
    )]);
    denoise_level(&mut t);
    let data = get(&t, "Data").unwrap();
    assert!(get(data, "Time").is_none());
    assert!(get(data, "LevelName").is_some());
    assert!(matches!(get(data, "raining"), Some(Tag::Byte(0))));
    assert!(matches!(get(data, "thundering"), Some(Tag::Byte(0))));
}

#[test]
fn level_denoise_keeps_weather_when_told_to() {
    let mut config = Config::default();
    config.denoise.level.reset_weather = false;
    let mut t = compound(vec![(
        "Data",
        compound(vec![("raining", Tag::Byte(1)), ("Time", Tag::Long(5))]),
    )]);
    denoise_level_with_config(&mut t, &config.denoise);
    let data = get(&t, "Data").unwrap();
    assert!(matches!(get(data, "raining"), Some(Tag::Byte(1))));
    assert!(get(data, "Time").is_none());
}

#[test]
fn default_config_values() {
    let c = Config::default();
    assert!(c.export.denoise);
    assert!(!c.export.aggressive);
    assert!(c.export.skip_empty_chunks);
    assert!(c.restore.restore_defaults);
    assert!(c.denoise.level.reset_weather);
    assert_eq!(c.denoise.chunk.fields.len(), 5);
    assert_eq!(c.denoise.chunk.aggressive_fields.len(), 1);
    assert_eq!(c.denoise.level.fields.len(), 11);
    assert!(c.denoise.chunk.fields.contains(&b"LastUpdate".to_vec()));
    assert!(c.denoise.chunk.aggressive_fields.contains(&b"Heightmaps".to_vec()));
    assert!(c.denoise.level.fields.contains(&b"WasModded".to_vec()));
}
