use electrs::chain::{Block, Network};
use electrs::fetch::{fetch_from, FetchFrom, chunk_ranges, parse_blk_records, zip_entries, BlkRouter, FetchError, BLK_BATCH, RPC_BATCH};
use electrs::header::HeaderEntry;
use electrs::util::SyncChannel;

fn record(magic: u32, body: &[u8]) -> Vec<u8> {
    let mut r = magic.to_le_bytes().to_vec();
    r.extend_from_slice(&(body.len() as u32).to_le_bytes());
    r.extend_from_slice(body);
    r
}

fn blk(tag: u8) -> Block {
    Block { header: vec![tag; 80], txdata: vec![], size: tag as u32, weight: 4 }
}

fn entry(h: usize) -> HeaderEntry {
    HeaderEntry { height: h, hash: [h as u8; 32], header: vec![h as u8; 80] }
}

#[test]
fn chunks_of_a_hundred() {
    assert_eq!(RPC_BATCH, 100);
    assert_eq!(chunk_ranges(250, RPC_BATCH), vec![(0, 100), (100, 200), (200, 250)]);
    assert_eq!(chunk_ranges(100, RPC_BATCH), vec![(0, 100)]);
    assert!(chunk_ranges(0, RPC_BATCH).is_empty());
}

#[test]
fn fetched_blocks_keep_header_order() {
    let out = zip_entries(vec![blk(1), blk(2), blk(3)], &[entry(7), entry(8), entry(9)]).unwrap();
    assert_eq!(out.iter().map(|b| b.entry.height).collect::<Vec<_>>(), vec![7, 8, 9]);
    assert_eq!(out.iter().map(|b| b.block.header[0]).collect::<Vec<_>>(), vec![1, 2, 3]);
    assert_eq!(out[1].size, 2);
}

#[test]
fn wrong_block_count_is_refused() {
    assert_eq!(zip_entries(vec![blk(1)], &[entry(1), entry(2)]).unwrap_err(), FetchError::WrongBlockCount);
}

#[test]
fn block_file_with_padding_and_foreign_magic() {
    let magic = Network::Regtest.magic();
    let foreign = Network::Bitcoin.magic();
    let mut data = record(magic, &[1, 2, 3, 4, 5]);
    data.extend_from_slice(&[0u8; 23]);
    data.extend_from_slice(&record(foreign, &[9, 9, 9, 9, 9, 9]));
    data.extend_from_slice(&record(magic, &[6, 7, 8, 9, 10, 11]));
    let blocks = parse_blk_records(&data, magic);
    assert_eq!(blocks, vec![vec![1, 2, 3, 4, 5], vec![6, 7, 8, 9, 10, 11]]);
}

#[test]
fn block_file_truncated_record_ends_scan() {
    let magic = Network::Regtest.magic();
    let mut data = record(magic, &[1, 2, 3, 4, 5]);
    let mut cut = record(magic, &[1, 2, 3, 4, 5, 6, 7, 8]);
    cut.truncate(12);
    data.extend_from_slice(&cut);
    assert_eq!(parse_blk_records(&data, magic), vec![vec![1, 2, 3, 4, 5]]);
    assert!(parse_blk_records(&[], magic).is_empty());
}

#[test]
fn block_file_header_without_block_is_skipped() {
    let magic = Network::Regtest.magic();
    let mut data = magic.to_le_bytes().to_vec();
    data.extend_from_slice(&100u32.to_le_bytes());
    data.extend_from_slice(&record(magic, &[4, 4, 4, 4]));
    assert_eq!(parse_blk_records(&data, magic), vec![vec![4, 4, 4, 4]]);
}

#[test]
fn fetch_channel_has_capacity_one() {
    let chan: SyncChannel<u32> = SyncChannel::new(1);
    assert_eq!(chan.capacity(), 1);
    let tx = chan.sender();
    tx.send(5).unwrap();
    assert!(tx.try_send(6).is_err());
    assert_eq!(chan.receiver().recv().unwrap(), 5);
}

#[test]
fn router_batches_wanted_blocks_and_skips_others() {
    let wanted: Vec<HeaderEntry> = (0..(BLK_BATCH + 2)).map(entry).collect();
    let mut router = BlkRouter::new(wanted);
    assert!(router.route([200u8; 32], blk(9), 9).is_none());
    let mut batches = vec![];
    for h in 0..(BLK_BATCH + 2) {
        if let Some(b) = router.route([h as u8; 32], blk(h as u8), h as u32) {
            batches.push(b);
        }
    }
    // a block met twice is routed once
    assert!(router.route([0u8; 32], blk(0), 0).is_none());
    assert_eq!(batches.len(), 1);
    assert_eq!(batches[0].len(), BLK_BATCH);
    assert_eq!(batches[0][5].entry.height, 5);
    assert_eq!(batches[0][5].block.header[0], 5);
    let rest = router.finish();
    assert_eq!(rest.iter().map(|b| b.entry.height).collect::<Vec<_>>(), vec![BLK_BATCH, BLK_BATCH + 1]);
}

#[test]
fn first_sync_reads_block_files() {
    assert_eq!(fetch_from(false, false), FetchFrom::BlkFiles);
    assert_eq!(fetch_from(false, true), FetchFrom::Bitcoind);
    assert_eq!(fetch_from(true, false), FetchFrom::Bitcoind);
}
