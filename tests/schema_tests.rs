use electrs::chain::{OutPoint, Transaction, TxOut};
use electrs::schema::{
    BlockMeta, BlockRow, DBRow, FundingInfo, ScriptStats, SpendingInfo, StatsCacheRow,
    TxConfRow, TxEdgeRow, TxHistoryInfo, TxHistoryKey, TxHistoryRow, TxOutRow, TxRow,
    UtxoCacheRow,
};
use electrs::header::{BlockId, HeaderList};
use electrs::schema::{from_utxo_cache, make_utxo_cache, CachedUtxo};
use electrs::util::full_hash;

fn tx(txid: [u8; 32]) -> Transaction {
    Transaction { txid, raw: vec![1, 2, 3], input: vec![], output: vec![] }
}

fn history(height: u32, info: TxHistoryInfo) -> Vec<u8> {
    TxHistoryRow {
        key: TxHistoryKey { code: b'H', hash: [4u8; 32], confirmed_height: height, txinfo: info },
    }
    .into_row()
    .key
}

fn funding(height: u32) -> Vec<u8> {
    history(height, TxHistoryInfo::Funding(FundingInfo { txid: [1u8; 32], vout: 2, value: 300 }))
}

#[test]
fn full_hash_takes_first_32_bytes() {
    let bytes: Vec<u8> = (0..40).collect();
    let h = full_hash(&bytes);
    assert_eq!(h.to_vec(), (0..32).collect::<Vec<u8>>());
}

#[test]
fn tx_row_layout() {
    let row = TxRow::new(&tx([9u8; 32])).into_row();
    let mut key = vec![b'T'];
    key.extend_from_slice(&[9u8; 32]);
    assert_eq!(row.key, key);
    assert_eq!(row.value, vec![1, 2, 3]);
    assert_eq!(TxRow::key(&[9, 9]), vec![b'T', 9, 9]);
}

#[test]
fn conf_row_layout_and_round_trip() {
    let row = TxConfRow::new(&tx([1u8; 32]), [2u8; 32]).into_row();
    assert_eq!(row.key.len(), 65);
    assert_eq!(row.key[0], b'C');
    assert_eq!(&row.key[1..33], &[1u8; 32]);
    assert_eq!(&row.key[33..], &[2u8; 32]);
    assert!(row.value.is_empty());
    let back = TxConfRow::from_row(row).unwrap();
    assert_eq!(back.key.txid, [1u8; 32]);
    assert_eq!(back.key.blockhash, [2u8; 32]);
    assert!(TxConfRow::from_row(DBRow { key: vec![b'C'], value: vec![] }).is_none());
    assert_eq!(TxConfRow::filter(&[5]), vec![b'C', 5]);
}

#[test]
fn txout_key_is_little_endian_u16() {
    let out = TxOut { value: 1, script_pubkey: vec![], raw: vec![8, 8] };
    let row = TxOutRow::new(&[3u8; 32], 0x0102, &out).into_row();
    assert_eq!(row.key.len(), 35);
    assert_eq!(row.key[0], b'O');
    assert_eq!(&row.key[33..], &[0x02, 0x01]);
    assert_eq!(row.value, vec![8, 8]);
    let key = TxOutRow::key(&OutPoint { txid: [3u8; 32], vout: 0x0102 });
    assert_eq!(key, row.key);
}

#[test]
fn block_rows_layout() {
    let hash = [6u8; 32];
    let done = BlockRow::new_done(hash).into_row();
    assert_eq!(done.key[0], b'D');
    assert!(done.value.is_empty());
    let txids = BlockRow::new_txids(hash, &[[1u8; 32], [2u8; 32]]).into_row();
    assert_eq!(txids.key[0], b'X');
    assert_eq!(&txids.value[..8], &[2, 0, 0, 0, 0, 0, 0, 0]);
    assert_eq!(txids.value.len(), 8 + 64);
    let meta = BlockRow::new_meta(hash, &BlockMeta { tx_count: 2, size: 300, weight: 1200 })
        .into_row();
    assert_eq!(meta.value, vec![2, 0, 0, 0, 0x2c, 1, 0, 0, 0xb0, 4, 0, 0]);
    assert_eq!(BlockRow::header_filter(), vec![b'B']);
    assert_eq!(BlockRow::done_filter(), vec![b'D']);
    assert_eq!(BlockRow::txids_key(hash)[0], b'X');
    assert_eq!(BlockRow::meta_key(hash)[0], b'M');
    let back = BlockRow::from_row(done).unwrap();
    assert_eq!(back.key.code, b'D');
    assert_eq!(back.key.hash, hash);
}

#[test]
fn history_key_height_is_big_endian() {
    let key = funding(0x0102_0304);
    assert_eq!(key.len(), 80);
    assert_eq!(key[0], b'H');
    assert_eq!(&key[33..37], &[1, 2, 3, 4]);
    assert_eq!(key[37], b'F');
    assert_eq!(&key[70..72], &[0, 2]);
    assert_eq!(&key[72..80], &[0, 0, 0, 0, 0, 0, 1, 0x2c]);
}

#[test]
fn history_keys_sort_by_height() {
    let heights = [0u32, 1, 250, 251, 256, 65535, 70000, 16777216, u32::MAX];
    let keys: Vec<Vec<u8>> = heights.iter().map(|h| funding(*h)).collect();
    for w in keys.windows(2) {
        assert!(w[0] < w[1]);
    }
    let spend = history(
        5,
        TxHistoryInfo::Spending(SpendingInfo {
            txid: [0u8; 32],
            vin: 0,
            prev_txid: [0u8; 32],
            prev_vout: 0,
            value: 0,
        }),
    );
    assert!(funding(4) < spend);
    assert!(spend < funding(6));
    let mut reversed = keys.clone();
    reversed.sort();
    reversed.reverse();
    let heights_back: Vec<u32> = reversed
        .into_iter()
        .map(|k| TxHistoryRow::from_row(DBRow { key: k, value: vec![] }).unwrap().key.confirmed_height)
        .collect();
    let mut expected = heights.to_vec();
    expected.reverse();
    assert_eq!(heights_back, expected);
}

#[test]
fn history_row_round_trip() {
    let info = TxHistoryInfo::Spending(SpendingInfo {
        txid: [1u8; 32],
        vin: 3,
        prev_txid: [2u8; 32],
        prev_vout: 4,
        value: 5,
    });
    let key = history(77, info);
    assert_eq!(key.len(), 114);
    let back = TxHistoryRow::from_row(DBRow { key, value: vec![] }).unwrap();
    assert_eq!(back.key.confirmed_height, 77);
    assert_eq!(back.get_txid(), [1u8; 32]);
    let o = back.get_funded_outpoint();
    assert_eq!(o.txid, [2u8; 32]);
    assert_eq!(o.vout, 4);
    assert!(TxHistoryRow::from_row(DBRow { key: vec![b'H'; 50], value: vec![] }).is_none());
}

#[test]
fn history_row_new_hashes_the_script() {
    let row = TxHistoryRow::new(
        &vec![0x51],
        9,
        TxHistoryInfo::Funding(FundingInfo { txid: [0u8; 32], vout: 0, value: 1 }),
    );
    assert_eq!(row.key.hash, electrs::chain::compute_script_hash(&vec![0x51]));
    assert_ne!(row.key.hash, [0u8; 32]);
    assert_eq!(row.key.code, b'H');
}

#[test]
fn sha256_of_empty_script() {
    assert_eq!(
        hex::encode(electrs::chain::compute_script_hash(&vec![])),
        "e3b0c44298fc1c149afbf4c8996fb92427ae41e4649b934ca495991b7852b855"
    );
}

#[test]
fn history_prefixes() {
    assert_eq!(TxHistoryRow::filter(b'H', &[1, 2]), vec![b'H', 1, 2]);
    let end = TxHistoryRow::prefix_end(b'H', &[4u8; 32]);
    assert_eq!(&end[33..], &[0xff, 0xff, 0xff, 0xff]);
    let at = TxHistoryRow::prefix_height(b'H', &[4u8; 32], 258);
    assert_eq!(&at[33..], &[0, 0, 1, 2]);
    assert!(at < funding(258) && funding(257) < at);
}

#[test]
fn edge_row_layout_and_round_trip() {
    let row = TxEdgeRow::new([1u8; 32], 2, [3u8; 32], 4).into_row();
    assert_eq!(row.key.len(), 69);
    assert_eq!(row.key[0], b'S');
    assert_eq!(&row.key[33..35], &[2, 0]);
    assert_eq!(&row.key[67..], &[4, 0]);
    let filter = TxEdgeRow::filter(&OutPoint { txid: [1u8; 32], vout: 2 });
    assert!(row.key.starts_with(&filter));
    let back = TxEdgeRow::from_row(row).unwrap();
    assert_eq!(back.key.spending_txid, [3u8; 32]);
    assert_eq!(back.key.spending_vin, 4);
    assert!(TxEdgeRow::from_row(DBRow { key: vec![], value: vec![] }).is_none());
}

#[test]
fn cache_rows_layout() {
    let stats = ScriptStats { tx_count: 1, funded_txo_count: 2, spend_txo_count: 3, funded_txo_sum: 4 };
    let row = StatsCacheRow::new(&[7u8; 32], &stats, &[8u8; 32]).into_row();
    assert_eq!(row.key[0], b'A');
    assert_eq!(row.value.len(), 32 + 32);
    assert_eq!(&row.value[24..32], &[4, 0, 0, 0, 0, 0, 0, 0]);
    assert_eq!(StatsCacheRow::key(&[7]), vec![b'A', 7]);
    assert_eq!(UtxoCacheRow::key(&[7]), vec![b'U', 7]);
}

#[test]
fn utxo_cache_keeps_heights_only() {
    let utxos = vec![(
        OutPoint { txid: [1u8; 32], vout: 2 },
        BlockId { height: 7, hash: [9u8; 32], time: 5 },
        1000u64,
    )];
    let cache = make_utxo_cache(&utxos);
    assert_eq!(cache.len(), 1);
    assert_eq!(cache[0].height, 7);
    assert_eq!(cache[0].value, 1000);
    let row = UtxoCacheRow::new(&[3u8; 32], &utxos, &[4u8; 32]).into_row();
    assert_eq!(row.key[0], b'U');
    let mut expected = vec![1, 0, 0, 0, 0, 0, 0, 0];
    expected.extend_from_slice(&[1u8; 32]);
    expected.extend_from_slice(&[2, 0, 0, 0, 7, 0, 0, 0]);
    expected.extend_from_slice(&1000u64.to_le_bytes());
    expected.extend_from_slice(&[4u8; 32]);
    assert_eq!(row.value, expected);
}

#[test]
fn utxo_cache_read_back_needs_the_headers() {
    let cache = vec![CachedUtxo { outpoint: OutPoint { txid: [1u8; 32], vout: 0 }, height: 0, value: 5 }];
    let empty = HeaderList::empty();
    assert!(from_utxo_cache(&cache, &empty).is_none());
    assert_eq!(from_utxo_cache(&vec![], &empty).unwrap().len(), 0);
}
