use electrs::chain::{compute_script_hash, Block, OutPoint, Transaction, TxIn, TxOut};
use electrs::fetch::BlockEntry;
use electrs::header::HeaderEntry;
use electrs::indexer::{
    add_blocks, all_done, get_previous_txos, headers_not_done, index_blocks, lookup_txos, IndexError,
    IndexerConfig,
};
use electrs::chain::Network;
use electrs::schema::{DBRow, TxHistoryRow, TxHistoryInfo};

const P2PKH: [u8; 3] = [0x76, 0xa9, 0x14];

fn cfg(light_mode: bool) -> IndexerConfig {
    IndexerConfig { light_mode, address_search: false, index_unspendables: false, network: Network::Regtest }
}

fn output(value: u64, script: Vec<u8>) -> TxOut {
    let raw = bitcoin::consensus::serialize(&bitcoin::TxOut {
        value,
        script_pubkey: bitcoin::Script::from(script.clone()),
    });
    TxOut { value, script_pubkey: script, raw }
}

fn coinbase(tag: u8) -> Transaction {
    Transaction {
        txid: [tag; 32],
        raw: vec![tag],
        input: vec![TxIn { previous_output: OutPoint { txid: [0u8; 32], vout: u32::MAX } }],
        output: vec![output(50, P2PKH.to_vec())],
    }
}

fn spend(tag: u8, prev: [u8; 32]) -> Transaction {
    Transaction {
        txid: [tag; 32],
        raw: vec![tag, tag],
        input: vec![TxIn { previous_output: OutPoint { txid: prev, vout: 0 } }],
        output: vec![output(49, vec![0x51])],
    }
}

fn block(height: usize, hash: u8, txs: Vec<Transaction>) -> BlockEntry {
    let header = vec![hash; 80];
    BlockEntry {
        block: Block { header: header.clone(), txdata: txs, size: 200, weight: 800 },
        entry: HeaderEntry { height, hash: [hash; 32], header },
        size: 200,
    }
}

fn codes(rows: &[DBRow]) -> Vec<u8> {
    rows.iter().map(|r| r.key[0]).collect()
}

#[test]
fn genesis_add_pass_rows() {
    let rows = add_blocks(&[block(0, 0xaa, vec![coinbase(1)])], &cfg(false));
    assert_eq!(codes(&rows), b"CTOXMBD".to_vec());
    let light = add_blocks(&[block(0, 0xaa, vec![coinbase(1)])], &cfg(true));
    assert_eq!(codes(&light), b"COBD".to_vec());
    let o = &light[1];
    assert_eq!(&o.key[1..33], &[1u8; 32]);
    assert_eq!(&o.key[33..], &[0, 0]);
    assert_eq!(o.value, coinbase(1).output[0].raw);
    assert_eq!(&light[3].key[1..], &[0xaa; 32]);
}

#[test]
fn genesis_index_pass_rows() {
    let blocks = [block(0, 0xaa, vec![coinbase(1)])];
    assert!(get_previous_txos(&blocks).is_empty());
    let rows = index_blocks(&blocks, &vec![], &cfg(false));
    assert_eq!(codes(&rows), b"HD".to_vec());
    let h = TxHistoryRow::from_row(rows[0].clone()).unwrap();
    assert_eq!(h.key.hash, compute_script_hash(&P2PKH.to_vec()));
    assert_eq!(h.key.confirmed_height, 0);
    match h.key.txinfo {
        TxHistoryInfo::Funding(f) => {
            assert_eq!(f.txid, [1u8; 32]);
            assert_eq!(f.vout, 0);
            assert_eq!(f.value, 50);
        }
        _ => panic!("expected a funding row"),
    }
}

#[test]
fn light_mode_omits_t_x_m_only() {
    let blocks = [block(0, 1, vec![coinbase(1)]), block(1, 2, vec![coinbase(2), spend(3, [1u8; 32])])];
    let full = add_blocks(&blocks, &cfg(false));
    let light = add_blocks(&blocks, &cfg(true));
    let filtered: Vec<(Vec<u8>, Vec<u8>)> = full
        .iter()
        .filter(|r| !matches!(r.key[0], b'T' | b'X' | b'M'))
        .map(|r| (r.key.clone(), r.value.clone()))
        .collect();
    let light: Vec<(Vec<u8>, Vec<u8>)> = light.iter().map(|r| (r.key.clone(), r.value.clone())).collect();
    assert_eq!(filtered, light);
    assert!(full.iter().any(|r| r.key[0] == b'T'));
}

#[test]
fn unspendable_outputs_get_no_output_row() {
    let mut tx = coinbase(1);
    tx.output.push(output(0, vec![0x6a, 0x04, 1, 2, 3, 4]));
    let rows = add_blocks(&[block(0, 9, vec![tx.clone()])], &cfg(true));
    assert_eq!(codes(&rows), b"COBD".to_vec());
    let history = index_blocks(&[block(0, 9, vec![tx.clone()])], &vec![], &cfg(true));
    assert_eq!(codes(&history), b"HD".to_vec());
    let mut all = cfg(true);
    all.index_unspendables = true;
    let history = index_blocks(&[block(0, 9, vec![tx])], &vec![], &all);
    assert_eq!(codes(&history), b"HHD".to_vec());
}

#[test]
fn chain_of_spends_index_rows() {
    // block 1: coinbase cb1; block 2: coinbase cb2 and tx2 spending cb1:0
    let cb1 = coinbase(1);
    let blocks = [block(1, 0x11, vec![cb1.clone()]), block(2, 0x22, vec![coinbase(2), spend(3, [1u8; 32])])];
    let prev = get_previous_txos(&blocks);
    assert_eq!(prev.len(), 1);
    assert_eq!(prev[0].txid, [1u8; 32]);
    assert_eq!(prev[0].vout, 0);
    let stored = vec![Some(cb1.output[0].raw.clone())];
    let found = lookup_txos(&prev, &stored, false).unwrap();
    assert_eq!(found[0].0.txid, [1u8; 32]);
    let prevouts: Vec<TxOut> = found.into_iter().map(|(_, t)| t).collect();
    assert_eq!(prevouts[0].value, 50);
    assert_eq!(prevouts[0].script_pubkey, P2PKH.to_vec());
    let rows = index_blocks(&blocks, &prevouts, &cfg(false));
    // block 1: H D; block 2: H (cb2) H (tx2 funding) H (tx2 spending) S D
    assert_eq!(codes(&rows), b"HDHHHSD".to_vec());
    let mut edge = vec![b'S'];
    edge.extend_from_slice(&[1u8; 32]);
    edge.extend_from_slice(&[0, 0]);
    edge.extend_from_slice(&[3u8; 32]);
    edge.extend_from_slice(&[0, 0]);
    assert!(rows.iter().any(|r| r.key == edge));
    let spending = TxHistoryRow::from_row(rows[4].clone()).unwrap();
    assert_eq!(spending.key.hash, compute_script_hash(&P2PKH.to_vec()));
    assert_eq!(spending.key.confirmed_height, 2);
    let funding = TxHistoryRow::from_row(rows[0].clone()).unwrap();
    assert_eq!(funding.key.hash, spending.key.hash);
    assert_eq!(funding.get_funded_outpoint().txid, spending.get_funded_outpoint().txid);
    assert_eq!(funding.get_funded_outpoint().vout, spending.get_funded_outpoint().vout);
    assert!(funding.key.confirmed_height <= spending.key.confirmed_height);
}

#[test]
fn lookup_reports_missing_and_undecodable_outputs() {
    let prev = vec![OutPoint { txid: [7u8; 32], vout: 1 }];
    match lookup_txos(&prev, &vec![None], false) {
        Err(IndexError::MissingTxo(o)) => assert_eq!(o.txid, [7u8; 32]),
        _ => panic!("expected a missing output"),
    }
    match lookup_txos(&prev, &vec![Some(vec![1, 2])], true) {
        Err(IndexError::InvalidTxo(o)) => assert_eq!(o.vout, 1),
        _ => panic!("expected an undecodable output"),
    }
}

#[test]
fn not_done_headers_in_order() {
    let e = |h: usize| HeaderEntry { height: h, hash: [h as u8; 32], header: vec![] };
    let hs = vec![e(0), e(1), e(2), e(3)];
    let left = headers_not_done(&hs, &vec![true, false, true, false]);
    assert_eq!(left.iter().map(|x| x.height).collect::<Vec<_>>(), vec![1, 3]);
    assert!(headers_not_done(&hs, &vec![true; 4]).is_empty());
}

#[test]
fn address_rows_when_searching() {
    let mut c = cfg(false);
    c.address_search = true;
    let p2pkh = {
        let mut s = vec![0x76, 0xa9, 0x14];
        s.extend_from_slice(&[0x11; 20]);
        s.extend_from_slice(&[0x88, 0xac]);
        s
    };
    let tx = Transaction {
        txid: [5u8; 32],
        raw: vec![],
        input: vec![],
        output: vec![output(10, p2pkh), output(10, vec![0x51])],
    };
    let rows = index_blocks(&[block(3, 1, vec![tx])], &vec![], &c);
    assert_eq!(codes(&rows), b"HaHD".to_vec());
    assert!(String::from_utf8(rows[1].key[1..].to_vec()).unwrap().starts_with('m')
        || String::from_utf8(rows[1].key[1..].to_vec()).unwrap().starts_with('n'));
}

#[test]
fn two_in_two_out_transaction_rows() {
    let cb1 = coinbase(1);
    let cb2 = coinbase(2);
    let tx = Transaction {
        txid: [3u8; 32],
        raw: vec![3],
        input: vec![
            TxIn { previous_output: OutPoint { txid: [1u8; 32], vout: 0 } },
            TxIn { previous_output: OutPoint { txid: [2u8; 32], vout: 0 } },
        ],
        output: vec![output(60, vec![0x51]), output(39, P2PKH.to_vec())],
    };
    let blocks = [block(3, 0x33, vec![coinbase(4), tx])];
    let prev = get_previous_txos(&blocks);
    assert_eq!(prev.len(), 2);
    let stored = vec![Some(cb1.output[0].raw.clone()), Some(cb2.output[0].raw.clone())];
    let prevouts: Vec<TxOut> = lookup_txos(&prev, &stored, false).unwrap().into_iter().map(|(_, t)| t).collect();
    let rows = index_blocks(&blocks, &prevouts, &cfg(false));
    // coinbase: H; tx: H H (funding), H S H S (spending), then D
    assert_eq!(codes(&rows), b"HHHHSHSD".to_vec());
    let kinds: Vec<bool> = rows[1..6]
        .iter()
        .filter(|r| r.key[0] == b'H')
        .map(|r| matches!(TxHistoryRow::from_row((*r).clone()).unwrap().key.txinfo, TxHistoryInfo::Funding(_)))
        .collect();
    assert_eq!(kinds, vec![true, true, false, false]);
}

#[test]
fn allowed_missing_outputs_are_skipped() {
    let prev = vec![OutPoint { txid: [7u8; 32], vout: 1 }, OutPoint { txid: [8u8; 32], vout: 0 }];
    let stored = vec![None, Some(coinbase(1).output[0].raw.clone())];
    let found = lookup_txos(&prev, &stored, true).unwrap();
    assert_eq!(found.len(), 1);
    assert_eq!(found[0].0.txid, [8u8; 32]);
    assert_eq!(found[0].1.value, 50);
    assert!(lookup_txos(&prev, &stored, false).is_err());
}

#[test]
fn every_block_must_be_added_before_indexing() {
    assert!(all_done(&vec![true, true]));
    assert!(!all_done(&vec![true, false]));
    assert!(all_done(&vec![]));
}
