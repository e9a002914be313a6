use electrs::chain::header_hash;
use electrs::daemon::HeaderWalk;
use electrs::header::{BlockId, HeaderError, HeaderList};
use electrs::schema::DBRow;

fn make_header(prev: [u8; 32], time: u32) -> Vec<u8> {
    let mut h = vec![1u8, 0, 0, 0];
    h.extend_from_slice(&prev);
    h.extend_from_slice(&[7u8; 32]);
    h.extend_from_slice(&time.to_le_bytes());
    h.extend_from_slice(&[0xff, 0xff, 0x7f, 0x20]);
    h.extend_from_slice(&[0u8; 4]);
    assert_eq!(h.len(), 80);
    h
}

/// A chain of `n` headers starting at genesis.
fn make_chain(n: usize, salt: u32) -> Vec<Vec<u8>> {
    let mut out = vec![];
    let mut prev = [0u8; 32];
    for i in 0..n {
        let h = make_header(prev, 1000 + salt + i as u32);
        prev = header_hash(&h);
        out.push(h);
    }
    out
}

#[test]
fn order_from_empty_list_numbers_from_zero() {
    let list = HeaderList::empty();
    let chain = make_chain(3, 0);
    let entries = list.order(&chain).unwrap();
    assert_eq!(entries.len(), 3);
    for (i, e) in entries.iter().enumerate() {
        assert_eq!(e.height(), i);
        assert_eq!(*e.hash(), header_hash(&chain[i]));
        assert_eq!(e.header(), &chain[i]);
    }
}

#[test]
fn order_of_no_headers_is_empty() {
    let list = HeaderList::empty();
    assert_eq!(list.order(&vec![]).unwrap().len(), 0);
}

#[test]
fn order_rejects_unknown_parent() {
    let mut list = HeaderList::empty();
    let chain = make_chain(2, 0);
    let entries = list.order(&chain).unwrap();
    list.apply(entries).unwrap();
    let orphan = make_header([9u8; 32], 5);
    let r1 = list.order(&vec![orphan.clone()]);
    let r2 = list.order(&vec![orphan]);
    assert_eq!(r1.unwrap_err(), HeaderError::NonConnecting);
    assert_eq!(r2.unwrap_err(), HeaderError::NonConnecting);
}

#[test]
fn order_rejects_unlinked_and_short_headers() {
    let list = HeaderList::empty();
    let a = make_header([0u8; 32], 1);
    let b = make_header([3u8; 32], 2);
    assert_eq!(list.order(&vec![a.clone(), b]).unwrap_err(), HeaderError::NotContiguous);
    assert_eq!(list.order(&vec![a, vec![0u8; 79]]).unwrap_err(), HeaderError::InvalidHeader);
}

#[test]
fn apply_extends_and_tracks_tip() {
    let mut list = HeaderList::empty();
    assert!(list.is_empty());
    assert_eq!(*list.tip(), [0u8; 32]);
    let chain = make_chain(4, 0);
    let entries = list.order(&chain[..2].to_vec()).unwrap();
    list.apply(entries).unwrap();
    let entries = list.order(&chain[2..].to_vec()).unwrap();
    assert_eq!(entries[0].height(), 2);
    list.apply(entries).unwrap();
    assert_eq!(list.len(), 4);
    assert_eq!(*list.tip(), header_hash(&chain[3]));
    assert_eq!(list.header_by_height(3).unwrap().hash(), &header_hash(&chain[3]));
    assert!(list.header_by_height(4).is_none());
    assert_eq!(list.header_by_blockhash(&header_hash(&chain[1])).unwrap().height(), 1);
    assert!(list.header_by_blockhash(&[5u8; 32]).is_none());
}

#[test]
fn apply_replaces_the_chain_above_a_fork() {
    let mut list = HeaderList::empty();
    let chain = make_chain(3, 0);
    list.apply(list.order(&chain).unwrap()).unwrap();
    let fork = make_header(header_hash(&chain[0]), 77);
    let entries = list.order(&vec![fork.clone()]).unwrap();
    assert_eq!(entries[0].height(), 1);
    list.apply(entries).unwrap();
    assert_eq!(list.len(), 2);
    assert_eq!(*list.tip(), header_hash(&fork));
}

#[test]
fn apply_rejects_entries_that_do_not_connect() {
    let mut list = HeaderList::empty();
    let chain = make_chain(2, 0);
    let other = make_chain(2, 50);
    let mut helper = HeaderList::empty();
    let entries = helper.order(&other).unwrap();
    helper.apply(helper.order(&other).unwrap()).unwrap();
    list.apply(list.order(&chain).unwrap()).unwrap();
    let mut late = entries;
    late.remove(0);
    assert!(list.apply(late).is_err());
    assert_eq!(list.len(), 2);
    assert_eq!(*list.tip(), header_hash(&chain[1]));
}

#[test]
fn blockid_reads_height_hash_and_time() {
    let mut list = HeaderList::empty();
    let chain = make_chain(2, 0);
    list.apply(list.order(&chain).unwrap()).unwrap();
    let b: BlockId = list.blockid_by_height(1).unwrap();
    assert_eq!(b.height, 1);
    assert_eq!(b.hash, header_hash(&chain[1]));
    assert_eq!(b.time, 1001);
    assert!(list.blockid_by_height(2).is_none());
}

fn header_rows(chain: &[Vec<u8>]) -> Vec<DBRow> {
    let mut rows: Vec<DBRow> = chain
        .iter()
        .map(|h| {
            let mut key = vec![b'B'];
            key.extend_from_slice(&header_hash(h));
            DBRow { key, value: h.clone() }
        })
        .collect();
    rows.sort_by(|a, b| a.key.cmp(&b.key));
    rows
}

#[test]
fn header_list_rebuilt_from_stored_rows() {
    let chain = make_chain(5, 0);
    let rows = header_rows(&chain);
    let tip = header_hash(&chain[4]);
    let list = HeaderList::new(&rows, &tip).unwrap();
    assert_eq!(list.len(), 5);
    assert_eq!(*list.tip(), tip);
    assert_eq!(list.header_by_height(0).unwrap().header(), &chain[0]);
}

#[test]
fn header_list_rebuild_fails_on_missing_header() {
    let chain = make_chain(3, 0);
    let rows = header_rows(&chain[1..]);
    let tip = header_hash(&chain[2]);
    assert_eq!(HeaderList::new(&rows, &tip).unwrap_err(), HeaderError::MissingHeader);
    assert!(HeaderList::new(&vec![], &[0u8; 32]).unwrap().is_empty());
}

#[test]
fn header_walk_stops_at_known_block() {
    let chain = make_chain(4, 0);
    let mut known = HeaderList::empty();
    known.apply(known.order(&chain[..2].to_vec()).unwrap()).unwrap();
    let mut walk = HeaderWalk::new(header_hash(&chain[3]));
    let mut fetched = 0;
    while let Some(h) = walk.wanted(&known) {
        let idx = chain.iter().position(|c| header_hash(c) == h).unwrap();
        walk.push(chain[idx].clone()).unwrap();
        fetched += 1;
    }
    assert_eq!(fetched, 2);
    let headers = walk.finish();
    assert_eq!(headers, vec![chain[2].clone(), chain[3].clone()]);
    let entries = known.order(&headers).unwrap();
    assert_eq!(entries[0].height(), 2);
}

#[test]
fn header_walk_refuses_short_header() {
    let mut walk = HeaderWalk::new([1u8; 32]);
    assert!(walk.push(vec![0u8; 10]).is_err());
    assert_eq!(walk.finish().len(), 0);
}

#[test]
fn header_walk_refuses_header_of_another_block() {
    let chain = make_chain(2, 0);
    let mut walk = HeaderWalk::new(header_hash(&chain[1]));
    assert_eq!(walk.push(chain[0].clone()).unwrap_err(), HeaderError::NotContiguous);
    assert!(walk.push(chain[1].clone()).is_ok());
}
