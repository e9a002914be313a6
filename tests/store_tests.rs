use electrs::schema::{DBFlush, DBRow};
use electrs::store::{
    check_compatibility, compatibility_bytes, load_blockhashes, prepare_write, Compatibility,
    ScanFilter,
};

#[test]
fn compatibility_marker_bytes() {
    assert_eq!(compatibility_bytes(false), vec![1, 0, 0, 0]);
    assert_eq!(compatibility_bytes(true), vec![1, 0, 0, 0, 1]);
}

#[test]
fn reopening_in_other_mode_requires_reindex() {
    match check_compatibility(None, true) {
        Compatibility::WriteMarker(m) => assert_eq!(m, vec![1, 0, 0, 0, 1]),
        _ => panic!("a new database gets a marker"),
    }
    assert!(matches!(check_compatibility(Some(vec![1, 0, 0, 0]), false), Compatibility::Compatible));
    assert!(matches!(check_compatibility(Some(vec![1, 0, 0, 0]), true), Compatibility::ReindexRequired));
    assert!(matches!(check_compatibility(Some(vec![1, 0, 0, 0, 1]), false), Compatibility::ReindexRequired));
}

#[test]
fn scan_stops_at_first_key_outside_prefix() {
    let mut f = ScanFilter::new(vec![b'D']);
    assert!(f.accept(b"D1"));
    assert!(f.accept(b"D2"));
    assert!(!f.accept(b"E1"));
    assert!(!f.accept(b"D3"));
}

#[test]
fn writes_are_sorted_by_key() {
    let rows = vec![
        DBRow { key: vec![3], value: vec![] },
        DBRow { key: vec![1, 9], value: vec![7] },
        DBRow { key: vec![1], value: vec![] },
    ];
    let batch = prepare_write(rows, DBFlush::Disable);
    let keys: Vec<Vec<u8>> = batch.rows.iter().map(|r| r.key.clone()).collect();
    assert_eq!(keys, vec![vec![1], vec![1, 9], vec![3]]);
    assert!(!batch.sync && batch.disable_wal);
    let batch = prepare_write(vec![], DBFlush::Enable);
    assert!(batch.sync && !batch.disable_wal);
}

#[test]
fn done_markers_name_block_hashes() {
    let mut key = vec![b'D'];
    key.extend_from_slice(&[5u8; 32]);
    let hashes = load_blockhashes(vec![DBRow { key, value: vec![] }]).unwrap();
    assert_eq!(hashes, vec![[5u8; 32]]);
    assert!(load_blockhashes(vec![DBRow { key: vec![b'D'], value: vec![] }]).is_err());
}
