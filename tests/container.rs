use aim::container::{deserialize, serialize, CURRENT_VERSION};

/// A record encoded as one length byte followed by that many payload bytes.
fn encode_record(payload: &[u8]) -> Vec<u8> {
    let mut v = vec![payload.len() as u8];
    v.extend_from_slice(payload);
    v
}

fn decode_record(b: &Vec<u8>, pos: usize) -> Option<(Vec<u8>, usize)> {
    if pos >= b.len() {
        return None;
    }
    let n = b[pos] as usize;
    if pos + 1 + n > b.len() {
        return None;
    }
    Some((b[pos + 1..pos + 1 + n].to_vec(), 1 + n))
}

fn sample_records() -> Vec<Vec<u8>> {
    vec![vec![10, 20], vec![30], vec![40, 50, 60]]
}

#[test]
fn serialize_empty_writes_headers_only() {
    let out = serialize(&Vec::new());
    assert_eq!(out, vec![1, 0, 0, 0, 0, 0, 0, 0]);
    assert_eq!(CURRENT_VERSION, 1);
}

#[test]
fn serialize_writes_version_count_and_records() {
    let encs = vec![vec![7, 8], vec![9]];
    let out = serialize(&encs);
    assert_eq!(out, vec![1, 0, 0, 0, 2, 0, 0, 0, 7, 8, 9]);
}

#[test]
fn serialize_counts_empty_encoding() {
    let encs = vec![vec![5], vec![], vec![6]];
    let out = serialize(&encs);
    assert_eq!(out, vec![1, 0, 0, 0, 3, 0, 0, 0, 5, 6]);
}

#[test]
fn round_trip_restores_records() {
    let recs = sample_records();
    let encs: Vec<Vec<u8>> = recs.iter().map(|r| encode_record(r)).collect();
    let bytes = serialize(&encs);
    let back = deserialize(&bytes, |b: &Vec<u8>, p: usize| decode_record(b, p));
    assert_eq!(back, recs);
}

#[test]
fn round_trip_of_no_records() {
    let bytes = serialize(&Vec::new());
    let back = deserialize(&bytes, |b: &Vec<u8>, p: usize| decode_record(b, p));
    assert!(back.is_empty());
}

#[test]
fn other_version_yields_nothing() {
    let recs = sample_records();
    let encs: Vec<Vec<u8>> = recs.iter().map(|r| encode_record(r)).collect();
    let mut bytes = serialize(&encs);
    bytes[0] = 2;
    let back = deserialize(&bytes, |b: &Vec<u8>, p: usize| decode_record(b, p));
    assert!(back.is_empty());
    bytes[0] = 1;
    bytes[3] = 1;
    let back = deserialize(&bytes, |b: &Vec<u8>, p: usize| decode_record(b, p));
    assert!(back.is_empty());
}

#[test]
fn short_buffer_yields_nothing() {
    for n in 0..8usize {
        let bytes: Vec<u8> = vec![1, 0, 0, 0, 0, 0, 0][..n.min(7)].to_vec();
        let back = deserialize(&bytes, |b: &Vec<u8>, p: usize| decode_record(b, p));
        assert!(back.is_empty());
    }
}

#[test]
fn truncated_container_keeps_whole_records() {
    let recs = sample_records();
    let encs: Vec<Vec<u8>> = recs.iter().map(|r| encode_record(r)).collect();
    let bytes = serialize(&encs);
    // Cut after the first record: 8 header bytes and 3 record bytes.
    let cut = bytes[..11].to_vec();
    let back = deserialize(&cut, |b: &Vec<u8>, p: usize| decode_record(b, p));
    assert_eq!(back, vec![vec![10, 20]]);
    // Cut in the middle of the second record.
    let cut = bytes[..12].to_vec();
    let back = deserialize(&cut, |b: &Vec<u8>, p: usize| decode_record(b, p));
    assert_eq!(back, vec![vec![10, 20]]);
    // Headers only.
    let cut = bytes[..8].to_vec();
    let back = deserialize(&cut, |b: &Vec<u8>, p: usize| decode_record(b, p));
    assert!(back.is_empty());
}

#[test]
fn decoder_consuming_nothing_stops_reading() {
    let bytes = vec![1, 0, 0, 0, 3, 0, 0, 0, 9, 9, 9];
    let back = deserialize(&bytes, |_b: &Vec<u8>, _p: usize| Some((0u8, 0usize)));
    assert!(back.is_empty());
}

#[test]
fn decoder_overclaiming_stops_reading() {
    let bytes = vec![1, 0, 0, 0, 3, 0, 0, 0, 9, 9, 9];
    let back = deserialize(&bytes, |_b: &Vec<u8>, p: usize| {
        if p == 8 {
            Some((1u8, 2usize))
        } else {
            Some((2u8, 5usize))
        }
    });
    assert_eq!(back, vec![1u8]);
}

#[test]
fn reading_stops_at_declared_count() {
    let recs = sample_records();
    let encs: Vec<Vec<u8>> = recs.iter().map(|r| encode_record(r)).collect();
    let mut bytes = serialize(&encs);
    bytes[4] = 2;
    let back = deserialize(&bytes, |b: &Vec<u8>, p: usize| decode_record(b, p));
    assert_eq!(back, vec![vec![10, 20], vec![30]]);
}
