//! Empty-section and empty-value pruning of encoded records.

use mcj::doc::Doc;
use mcj::prune::{
    filter_empty_sections, filter_empty_values, has_chunk_data, is_empty_json_value,
    is_empty_section,
};

fn obj(entries: Vec<(&str, Doc)>) -> Doc {
    Doc::Obj(
        entries
            .into_iter()
            .map(|(k, v)| (k.as_bytes().to_vec(), v))
            .collect(),
    )
}

fn s(text: &str) -> Doc {
    Doc::Str(text.as_bytes().to_vec())
}

fn air_section() -> Doc {
    obj(vec![(
        "block_states",
        obj(vec![("palette", Doc::Arr(vec![obj(vec![("Name", s("air"))])]))]),
    )])
}

#[test]
fn an_air_only_section_is_empty() {
    assert!(is_empty_section(&air_section()));
}

#[test]
fn a_section_with_packed_data_is_kept() {
    let sec = obj(vec![(
        "block_states",
        obj(vec![
            ("palette", Doc::Arr(vec![obj(vec![("Name", s("air"))])])),
            ("data", Doc::Arr(vec![Doc::Int(0)])),
        ]),
    )]);
    assert!(!is_empty_section(&sec));
    // a data key keeps the section even when the palette is missing
    let data_only = obj(vec![(
        "block_states",
        obj(vec![("data", Doc::Arr(vec![Doc::Int(0)]))]),
    )]);
    assert!(!is_empty_section(&data_only));
}

#[test]
fn odd_shapes_are_kept() {
    // no block_states at all
    assert!(!is_empty_section(&obj(vec![("Y", Doc::Int(0))])));
    // block_states present but empty, or with a palette of an odd shape
    assert!(!is_empty_section(&obj(vec![("block_states", obj(Vec::new()))])));
    assert!(!is_empty_section(&obj(vec![(
        "block_states",
        obj(vec![("palette", Doc::Int(1))]),
    )])));
    // not an object
    assert!(!is_empty_section(&Doc::Int(0)));
}

#[test]
fn a_section_with_another_palette_is_kept() {
    let stone = obj(vec![(
        "block_states",
        obj(vec![("palette", Doc::Arr(vec![obj(vec![("Name", s("stone"))])]))]),
    )]);
    assert!(!is_empty_section(&stone));
    let two = obj(vec![(
        "block_states",
        obj(vec![(
            "palette",
            Doc::Arr(vec![obj(vec![("Name", s("air"))]), obj(vec![("Name", s("stone"))])]),
        )]),
    )]);
    assert!(!is_empty_section(&two));
}

#[test]
fn filter_drops_only_the_empty_sections() {
    let keep = obj(vec![(
        "block_states",
        obj(vec![("palette", Doc::Arr(vec![obj(vec![("Name", s("stone"))])]))]),
    )]);
    let mut chunk = obj(vec![(
        "sections",
        Doc::Arr(vec![air_section(), keep, air_section()]),
    )]);
    filter_empty_sections(&mut chunk);
    match &chunk {
        Doc::Obj(m) => match &m[0].1 {
            Doc::Arr(a) => assert_eq!(a.len(), 1),
            _ => panic!(),
        },
        _ => panic!(),
    }
}

#[test]
fn empty_values_and_the_sentinel_are_empty() {
    assert!(is_empty_json_value(&Doc::Obj(Vec::new())));
    assert!(is_empty_json_value(&Doc::Arr(Vec::new())));
    assert!(is_empty_json_value(&obj(vec![("[]", s("End"))])));
    assert!(!is_empty_json_value(&Doc::Int(0)));
    assert!(!is_empty_json_value(&obj(vec![("k", Doc::Int(1))])));
}

#[test]
fn pruning_removes_nested_empties_from_objects_only() {
    let mut d = obj(vec![
        ("keep", Doc::Int(1)),
        ("gone", Doc::Obj(Vec::new())),
        ("sentinel", obj(vec![("[]", s("End"))])),
        ("arr", Doc::Arr(vec![Doc::Obj(Vec::new())])),
        ("nested", obj(vec![("inner", Doc::Arr(Vec::new()))])),
    ]);
    filter_empty_values(&mut d);
    match &d {
        Doc::Obj(m) => {
            let keys: Vec<&[u8]> = m.iter().map(|e| e.0.as_slice()).collect();
            // arrays keep their (pruned) elements; objects drop empty values
            assert_eq!(keys, vec![b"keep".as_slice(), b"arr".as_slice()]);
            match &m[1].1 {
                Doc::Arr(a) => assert_eq!(a.len(), 1),
                _ => panic!(),
            }
        }
        _ => panic!(),
    }
}

#[test]
fn chunk_data_detection() {
    assert!(has_chunk_data(&obj(vec![("sections", Doc::Arr(vec![Doc::Int(1)]))])));
    assert!(has_chunk_data(&obj(vec![("block_entities", Doc::Arr(vec![Doc::Int(1)]))])));
    assert!(!has_chunk_data(&obj(vec![("sections", Doc::Arr(Vec::new()))])));
    assert!(!has_chunk_data(&obj(vec![("other", Doc::Int(1))])));
    assert!(!has_chunk_data(&Doc::Int(3)));
}
