//! The sector-addressed container codec: layout, round trip, tolerated
//! and fatal malformations, and the filename grammar.

use mcj::region::{
    decode_region, encode_region, parse_mca_filename, parse_slice_filename, RawRecord,
    RegionError, SECTOR_SIZE,
};

fn rec(x: i32, z: i32, data: &[u8]) -> RawRecord {
    RawRecord { x, z, data: data.to_vec() }
}

#[test]
fn empty_input_gives_empty_output() {
    let bytes = encode_region(&Vec::new()).unwrap();
    assert!(bytes.is_empty());
}

#[test]
fn short_input_gives_no_records() {
    assert!(decode_region(&[0u8; 100]).unwrap().is_empty());
    assert!(decode_region(&[]).unwrap().is_empty());
}

#[test]
fn layout_of_a_single_record() {
    let records = vec![rec(0, 0, b"payload bytes")];
    let bytes = encode_region(&records).unwrap();
    assert_eq!(bytes.len(), 3 * SECTOR_SIZE);
    // slot 0 entry: offset 2 in three bytes, one sector
    assert_eq!(&bytes[0..4], &[0, 0, 2, 1]);
    // the rest of the location table and the timestamps are zero
    assert!(bytes[4..8192].iter().all(|&b| b == 0));
    // frame: length prefix covers method byte + compressed payload
    let len = u32::from_be_bytes([bytes[8192], bytes[8193], bytes[8194], bytes[8195]]) as usize;
    assert_eq!(bytes[8196], 2, "the encoder writes zlib");
    let compressed = &bytes[8197..8196 + len];
    let mut out = Vec::new();
    std::io::Read::read_to_end(
        &mut flate2::read::ZlibDecoder::new(compressed),
        &mut out,
    )
    .unwrap();
    assert_eq!(out, b"payload bytes");
}

#[test]
fn container_round_trip_with_negative_positions() {
    let records = vec![
        rec(-1, -1, b"corner"),
        rec(5, 7, b"middle"),
        rec(-32, 0, b"wrap"),
    ];
    let bytes = encode_region(&records).unwrap();
    let back = decode_region(&bytes).unwrap();
    assert_eq!(back.len(), 3);
    // decode yields local grid coordinates in [0, 32)
    let mut seen: Vec<(i32, i32, Vec<u8>)> = back
        .into_iter()
        .map(|r| (r.x, r.z, r.data))
        .collect();
    seen.sort();
    assert_eq!(
        seen,
        vec![
            (0i32, 0i32, b"wrap".to_vec()),
            (5, 7, b"middle".to_vec()),
            (31, 31, b"corner".to_vec()),
        ]
    );
}

#[test]
fn colliding_slots_are_refused() {
    let records = vec![rec(1, 1, b"a"), rec(33, 33, b"b")];
    assert_eq!(encode_region(&records).unwrap_err(), RegionError::SlotCollision);
}

#[test]
fn incompressible_giant_record_is_refused() {
    // pseudo-random bytes barely compress; 2 MiB compressed needs more
    // than 255 sectors
    let mut data = Vec::with_capacity(2 << 20);
    let mut state: u64 = 0x243f6a8885a308d3;
    for _ in 0..(2 << 20) {
        state = state.wrapping_mul(6364136223846793005).wrapping_add(1442695040888963407);
        data.push((state >> 33) as u8);
    }
    let r = encode_region(&vec![RawRecord { x: 0, z: 0, data }]);
    assert_eq!(r.unwrap_err(), RegionError::RecordTooLarge);
}

#[test]
fn out_of_range_slot_is_skipped() {
    let mut bytes = vec![0u8; 2 * SECTOR_SIZE];
    // slot 0 points far beyond the buffer
    bytes[0] = 0;
    bytes[1] = 0xff;
    bytes[2] = 0xff;
    bytes[3] = 1;
    assert!(decode_region(&bytes).unwrap().is_empty());
}

#[test]
fn unknown_method_is_skipped_and_bad_stream_is_an_error() {
    let records = vec![rec(0, 0, b"x")];
    let mut bytes = encode_region(&records).unwrap();
    bytes[8196] = 9; // unknown compression method
    assert!(decode_region(&bytes).unwrap().is_empty());
    bytes[8196] = 2;
    bytes[8197] = 0xff; // corrupt the zlib stream
    bytes[8198] = 0xff;
    assert_eq!(decode_region(&bytes).unwrap_err(), RegionError::BadPayload);
}

#[test]
fn raw_method_passes_through() {
    // hand-build a container with method 3
    let payload = b"raw bytes";
    let mut bytes = vec![0u8; 3 * SECTOR_SIZE];
    bytes[2] = 2; // offset
    bytes[3] = 1; // count
    let len = (payload.len() + 1) as u32;
    bytes[8192..8196].copy_from_slice(&len.to_be_bytes());
    bytes[8196] = 3;
    bytes[8197..8197 + payload.len()].copy_from_slice(payload);
    let back = decode_region(&bytes).unwrap();
    assert_eq!(back.len(), 1);
    assert_eq!(back[0].data, payload.to_vec());
}

#[test]
fn gzip_method_decompresses() {
    let mut enc = flate2::write::GzEncoder::new(Vec::new(), flate2::Compression::default());
    std::io::Write::write_all(&mut enc, b"gzipped").unwrap();
    let gz = enc.finish().unwrap();
    let mut bytes = vec![0u8; 3 * SECTOR_SIZE];
    bytes[2] = 2;
    bytes[3] = 1;
    let len = (gz.len() + 1) as u32;
    bytes[8192..8196].copy_from_slice(&len.to_be_bytes());
    bytes[8196] = 1;
    bytes[8197..8197 + gz.len()].copy_from_slice(&gz);
    let back = decode_region(&bytes).unwrap();
    assert_eq!(back.len(), 1);
    assert_eq!(back[0].data, b"gzipped".to_vec());
}

#[test]
fn container_filenames() {
    assert_eq!(parse_mca_filename(b"r.1.2.mca"), Some((1, 2)));
    assert_eq!(parse_mca_filename(b"r.-3.-44.mca"), Some((-3, -44)));
    assert_eq!(parse_mca_filename(b"r.0.0.mca"), Some((0, 0)));
    assert_eq!(parse_mca_filename(b"x.1.2.mca"), None);
    assert_eq!(parse_mca_filename(b"r.1.2.mcax"), None);
    assert_eq!(parse_mca_filename(b"r.+1.2.mca"), None);
    assert_eq!(parse_mca_filename(b"r.1x.2.mca"), None);
    assert_eq!(parse_mca_filename(b"r..2.mca"), None);
    assert_eq!(parse_mca_filename(b"r.99999999999.0.mca"), None);
    assert_eq!(parse_mca_filename(b"r.1.2.json"), None);
}

#[test]
fn slice_filenames() {
    assert_eq!(parse_slice_filename(b"r.1.2.0.json"), Some((1, 2)));
    assert_eq!(parse_slice_filename(b"r.-9.4.17.json"), Some((-9, 4)));
    assert_eq!(parse_slice_filename(b"r.1.2.json"), None);
    assert_eq!(parse_slice_filename(b"r.1.2.-1.json"), None);
    assert_eq!(parse_slice_filename(b"r.1.2.0.mca"), None);
}
