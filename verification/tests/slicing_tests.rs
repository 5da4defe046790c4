//! Size-capped packing and the slice file text.

use mcj::slicing::{pack_slices, render_slice, MAX_SLICE_SIZE};

#[test]
fn small_records_share_one_slice() {
    let items = vec![b"aa".to_vec(), b"bbb".to_vec(), b"c".to_vec()];
    let groups = pack_slices(&items);
    assert_eq!(groups, vec![vec![b"aa".to_vec(), b"bbb".to_vec(), b"c".to_vec()]]);
}

#[test]
fn the_cap_starts_a_new_slice_and_keeps_the_order() {
    let a = vec![1u8; 3 << 20];
    let b = vec![2u8; 4 << 20];
    let c = vec![3u8; 2 << 20];
    let groups = pack_slices(&vec![a.clone(), b.clone(), c.clone()]);
    assert_eq!(groups.len(), 2);
    assert_eq!(groups[0], vec![a, b]);
    assert_eq!(groups[1], vec![c]);
    for g in &groups {
        if g.len() >= 2 {
            let total: usize = g.iter().map(|x| x.len()).sum();
            assert!(total <= MAX_SLICE_SIZE);
        }
    }
}

#[test]
fn an_oversized_record_travels_alone() {
    let big = vec![9u8; MAX_SLICE_SIZE + 1];
    let small = vec![1u8; 4];
    let groups = pack_slices(&vec![small.clone(), big.clone(), small.clone()]);
    assert_eq!(groups.len(), 3);
    assert_eq!(groups[1].len(), 1);
    assert_eq!(groups[1][0].len(), MAX_SLICE_SIZE + 1);
    // nothing lost, order kept
    let rejoined: Vec<Vec<u8>> = groups.into_iter().flatten().collect();
    assert_eq!(rejoined, vec![small.clone(), big, small]);
}

#[test]
fn no_records_make_no_slices() {
    assert!(pack_slices(&Vec::new()).is_empty());
}

#[test]
fn slice_text_shape() {
    let chunks = vec![b"{\"x\":1}".to_vec(), b"{\"x\":2}".to_vec()];
    let text = render_slice(&chunks);
    assert_eq!(
        String::from_utf8(text).unwrap(),
        "{\"chunks\":[\n{\"x\":1},\n{\"x\":2}\n]}\n"
    );
    let one = render_slice(&vec![b"7".to_vec()]);
    assert_eq!(String::from_utf8(one).unwrap(), "{\"chunks\":[\n7\n]}\n");
    let none = render_slice(&Vec::new());
    assert_eq!(String::from_utf8(none).unwrap(), "{\"chunks\":[\n]}\n");
}
