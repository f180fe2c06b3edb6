use aim::store::ChartMetaData;

fn encode_record(payload: &Vec<u8>) -> Vec<u8> {
    let mut v = vec![payload.len() as u8];
    v.extend_from_slice(payload);
    v
}

fn decode_record(b: &Vec<u8>, pos: usize) -> Option<(Vec<u8>, usize)> {
    if pos >= b.len() {
        return None;
    }
    let n = b[pos] as usize;
    if pos + 1 + n > b.len() {
        return None;
    }
    Some((b[pos + 1..pos + 1 + n].to_vec(), 1 + n))
}

#[test]
fn new_keeps_records_in_order() {
    let store = ChartMetaData::new(vec![vec![3u8], vec![1u8], vec![2u8]]);
    assert_eq!(store.charts(), &vec![vec![3u8], vec![1u8], vec![2u8]]);
}

#[test]
fn save_writes_container() {
    let store = ChartMetaData::new(vec![vec![1u8, 2], vec![9u8]]);
    let bytes = store.save(|r: &Vec<u8>| encode_record(r));
    assert_eq!(bytes, vec![1, 0, 0, 0, 2, 0, 0, 0, 2, 1, 2, 1, 9]);
}

#[test]
fn load_reads_what_save_wrote() {
    let store = ChartMetaData::new(vec![vec![1u8, 2], vec![9u8], vec![]]);
    let bytes = store.save(|r: &Vec<u8>| encode_record(r));
    let loaded = ChartMetaData::load(&bytes, |b: &Vec<u8>, p: usize| decode_record(b, p));
    assert_eq!(loaded.charts(), store.charts());
}

#[test]
fn load_of_garbage_is_empty() {
    let loaded = ChartMetaData::load(&vec![7, 7, 7], |b: &Vec<u8>, p: usize| decode_record(b, p));
    assert!(loaded.charts().is_empty());
    let loaded = ChartMetaData::load(&vec![2, 0, 0, 0, 1, 0, 0, 0, 0], |b: &Vec<u8>, p: usize| {
        decode_record(b, p)
    });
    assert!(loaded.charts().is_empty());
}

#[test]
fn fingerprint_of_empty_store_is_offset_basis() {
    let store: ChartMetaData<Vec<u8>> = ChartMetaData::new(Vec::new());
    assert_eq!(store.get_md5(|r: &Vec<u8>| r.clone()), "cbf29ce484222325");
}

#[test]
fn fingerprint_matches_fnv1a() {
    let store = ChartMetaData::new(vec![b"a".to_vec()]);
    assert_eq!(store.get_md5(|r: &Vec<u8>| r.clone()), "af63dc4c8601ec8c");
    let store = ChartMetaData::new(vec![b"a".to_vec(), b"b".to_vec()]);
    assert_eq!(store.get_md5(|r: &Vec<u8>| r.clone()), "089c4407b545986a");
}

#[test]
fn fingerprint_is_deterministic() {
    let a = ChartMetaData::new(vec![vec![1u8, 2], vec![9u8]]);
    let b = ChartMetaData::new(vec![vec![1u8, 2], vec![9u8]]);
    let fa = a.get_md5(|r: &Vec<u8>| encode_record(r));
    let fb = b.get_md5(|r: &Vec<u8>| encode_record(r));
    assert_eq!(fa, fb);
    assert_eq!(fa, "6f75cd25d367ede8");
    assert_eq!(fa.len(), 16);
}

#[test]
fn fingerprint_changes_with_one_byte() {
    let a = ChartMetaData::new(vec![vec![1u8, 2], vec![9u8]]);
    let b = ChartMetaData::new(vec![vec![1u8, 2], vec![8u8]]);
    let fa = a.get_md5(|r: &Vec<u8>| encode_record(r));
    let fb = b.get_md5(|r: &Vec<u8>| encode_record(r));
    assert_ne!(fa, fb);
    assert_eq!(fb, "6f75ce25d367ef9b");
}
