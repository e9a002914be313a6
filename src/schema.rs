//! The byte layout of every row the indexer writes: row keys, row values, and
//! the prefixes used to scan them. All keys are a one-byte code followed by
//! fixed-width fields; history keys are big-endian so that a scan returns a
//! script's rows in height order, all other integers are little-endian.
use vstd::prelude::*;
use crate::chain::{compute_script_hash, sha256_of, OutPoint, Transaction, TxOut};
use crate::codec::{
    lex_lt, lemma_be_order, lemma_lex_lt_concat,
    be_bytes, le_bytes, lemma_be_bytes_of_value, lemma_be_len,
    lemma_be_round_trip, lemma_le_bytes_of_value, pow256,
    push_all, push_be, push_le, read_be, read_le, lemma_be_value_bound,
    lemma_le_value_bound,
};
use crate::fetch::BlockEntry;
use crate::util::{full_hash, Bytes, FullHash};

verus! {

/// A key-value pair as stored.
#[derive(Debug, Clone)]
pub struct DBRow {
    pub key: Vec<u8>,
    pub value: Vec<u8>,
}

/// Whether a batch write is made durable (synced, with write-ahead log) or not.
#[derive(Copy, Clone, Debug, PartialEq, Eq, Structural)]
pub enum DBFlush {
    Disable,
    Enable,
}

pub const CODE_TX: u8 = 0x54;           // 'T'
pub const CODE_CONF: u8 = 0x43;         // 'C'
pub const CODE_TXOUT: u8 = 0x4f;        // 'O'
pub const CODE_HEADER: u8 = 0x42;       // 'B'
pub const CODE_TXIDS: u8 = 0x58;        // 'X'
pub const CODE_META: u8 = 0x4d;         // 'M'
pub const CODE_DONE: u8 = 0x44;         // 'D'
pub const CODE_HISTORY: u8 = 0x48;      // 'H'
pub const CODE_EDGE: u8 = 0x53;         // 'S'
pub const CODE_STATS: u8 = 0x41;        // 'A'
pub const CODE_UTXO: u8 = 0x55;         // 'U'
pub const CODE_ADDRESS: u8 = 0x61;      // 'a'
pub const TAG_FUNDING: u8 = 0x46;       // 'F'
pub const TAG_SPENDING: u8 = 0x53;      // 'S'

/// `code` followed by `rest`.
pub fn prefixed(code: u8, rest: &[u8]) -> (r: Bytes)
    ensures
        r@ == seq![code] + rest@,
{
    let mut r: Vec<u8> = Vec::new();
    r.push(code);
    push_all(&mut r, rest);
    assert(r@ =~= seq![code] + rest@);
    r
}

/// Key of a raw transaction row.
#[derive(Debug)]
pub struct TxRowKey {
    pub code: u8,
    pub txid: FullHash,
}

/// `T{txid}` -> consensus-serialized transaction.
pub struct TxRow {
    pub key: TxRowKey,
    pub value: Bytes,
}

impl TxRowKey {
    pub open spec fn spec_bytes(self) -> Seq<u8> {
        seq![self.code] + self.txid@
    }
}

impl TxRow {
    pub fn new(txn: &Transaction) -> (r: TxRow)
        ensures
            r.key.code == CODE_TX,
            r.key.txid == txn.txid,
            r.value@ == txn.raw@,
    {
        TxRow { key: TxRowKey { code: CODE_TX, txid: txn.txid }, value: txn.raw.clone() }
    }

    /// Scan prefix of the raw transactions whose txid starts with `prefix`.
    pub fn key(prefix: &[u8]) -> (r: Bytes)
        ensures
            r@ == seq![CODE_TX] + prefix@,
    {
        prefixed(CODE_TX, prefix)
    }

    pub fn into_row(self) -> (r: DBRow)
        ensures
            r.key@ == self.key.spec_bytes(),
            r.value@ == self.value@,
    {
        DBRow { key: prefixed(self.key.code, self.key.txid.as_slice()), value: self.value }
    }
}

/// Key of a confirmation record.
#[derive(Debug)]
pub struct TxConfKey {
    pub code: u8,
    pub txid: FullHash,
    pub blockhash: FullHash,
}

/// `C{txid}{blockhash}` -> empty: the transaction is confirmed in that block.
pub struct TxConfRow {
    pub key: TxConfKey,
}

impl TxConfKey {
    pub open spec fn spec_bytes(self) -> Seq<u8> {
        seq![self.code] + self.txid@ + self.blockhash@
    }
}

impl TxConfRow {
    pub fn new(txn: &Transaction, blockhash: FullHash) -> (r: TxConfRow)
        ensures
            r.key.code == CODE_CONF,
            r.key.txid == txn.txid,
            r.key.blockhash == blockhash,
    {
        TxConfRow { key: TxConfKey { code: CODE_CONF, txid: txn.txid, blockhash } }
    }

    /// Scan prefix of the confirmations of the transactions whose txid starts with `prefix`.
    pub fn filter(prefix: &[u8]) -> (r: Bytes)
        ensures
            r@ == seq![CODE_CONF] + prefix@,
    {
        prefixed(CODE_CONF, prefix)
    }

    pub fn into_row(self) -> (r: DBRow)
        ensures
            r.key@ == self.key.spec_bytes(),
            r.value@ == Seq::<u8>::empty(),
    {
        let mut key = prefixed(self.key.code, self.key.txid.as_slice());
        push_all(&mut key, self.key.blockhash.as_slice());
        assert(key@ =~= self.key.spec_bytes());
        DBRow { key, value: Vec::new() }
    }

    /// Reads a confirmation record back; `None` when the key does not have its layout.
    pub fn from_row(row: DBRow) -> (r: Option<TxConfRow>)
        ensures
            r.is_some() <==> row.key@.len() == 65,
            r.is_some() ==> r.unwrap().key.spec_bytes() == row.key@,
    {
        if row.key.len() != 65 {
            return None;
        }
        let k = row.key.as_slice();
        let txid = full_hash(slice_from(k, 1));
        let blockhash = full_hash(slice_from(k, 33));
        let key = TxConfKey { code: k[0], txid, blockhash };
        assert(key.spec_bytes() =~= row.key@);
        Some(TxConfRow { key })
    }
}

/// The bytes of `s` from `start` on.
pub fn slice_from(s: &[u8], start: usize) -> (r: &[u8])
    requires
        start <= s@.len(),
    ensures
        r@ == s@.subrange(start as int, s@.len() as int),
{
    let (_, tail) = s.split_at(start);
    tail
}

/// Key of an output row.
pub struct TxOutKey {
    pub code: u8,
    pub txid: FullHash,
    pub vout: u16,
}

/// `O{txid}{vout:u16}` -> consensus-serialized output.
pub struct TxOutRow {
    pub key: TxOutKey,
    pub value: Bytes,
}

impl TxOutKey {
    pub open spec fn spec_bytes(self) -> Seq<u8> {
        seq![self.code] + self.txid@ + le_bytes(self.vout as nat, 2)
    }
}

/// The bytes of the output-row key of `{txid, vout}` (the index is kept to 16 bits).
pub open spec fn txout_key_bytes(txid: Seq<u8>, vout: nat) -> Seq<u8> {
    seq![CODE_TXOUT] + txid + le_bytes(vout % 65536, 2)
}

impl TxOutRow {
    pub fn new(txid: &FullHash, vout: usize, txout: &TxOut) -> (r: TxOutRow)
        ensures
            r.key.code == CODE_TXOUT,
            r.key.txid == *txid,
            r.key.vout as nat == vout as nat % 65536,
            r.value@ == txout.raw@,
    {
        TxOutRow {
            key: TxOutKey { code: CODE_TXOUT, txid: *txid, vout: (vout % 65536) as u16 },
            value: txout.raw.clone(),
        }
    }

    /// The key under which the output `outpoint` is stored.
    pub fn key(outpoint: &OutPoint) -> (r: Bytes)
        ensures
            r@ == txout_key_bytes(outpoint.txid@, outpoint.vout as nat),
    {
        let mut r = prefixed(CODE_TXOUT, outpoint.txid.as_slice());
        push_le(&mut r, (outpoint.vout % 65536) as u64, 2);
        r
    }

    pub fn into_row(self) -> (r: DBRow)
        ensures
            r.key@ == self.key.spec_bytes(),
            r.value@ == self.value@,
    {
        let mut key = prefixed(self.key.code, self.key.txid.as_slice());
        push_le(&mut key, self.key.vout as u64, 2);
        DBRow { key, value: self.value }
    }
}

/// Per-block statistics stored under `M{blockhash}`.
#[derive(Debug, Copy, Clone)]
pub struct BlockMeta {
    pub tx_count: u32,
    pub size: u32,
    pub weight: u32,
}

impl BlockMeta {
    pub open spec fn spec_bytes(self) -> Seq<u8> {
        le_bytes(self.tx_count as nat, 4) + le_bytes(self.size as nat, 4) + le_bytes(
            self.weight as nat,
            4,
        )
    }
}

/// Key of a per-block row.
pub struct BlockKey {
    pub code: u8,
    pub hash: FullHash,
}

impl BlockKey {
    pub open spec fn spec_bytes(self) -> Seq<u8> {
        seq![self.code] + self.hash@
    }
}

/// A per-block row: `B` header, `X` txids, `M` meta or `D` done marker.
pub struct BlockRow {
    pub key: BlockKey,
    pub value: Bytes,
}

/// The value of an `X` row: the count as 8 little-endian bytes, then each txid.
pub open spec fn txids_bytes(txids: Seq<FullHash>) -> Seq<u8>
    decreases txids.len(),
{
    if txids.len() == 0 {
        Seq::empty()
    } else {
        txids_bytes(txids.drop_last()) + txids.last()@
    }
}

impl BlockRow {
    /// `B{blockhash}` -> the block's serialized header.
    pub fn new_header(block_entry: &BlockEntry) -> (r: BlockRow)
        ensures
            r.key.code == CODE_HEADER,
            r.key.hash == block_entry.entry.hash,
            r.value@ == block_entry.block.header@,
    {
        BlockRow {
            key: BlockKey { code: CODE_HEADER, hash: block_entry.entry.hash },
            value: block_entry.block.header.clone(),
        }
    }

    /// `X{blockhash}` -> the block's txids in order.
    pub fn new_txids(hash: FullHash, txids: &[FullHash]) -> (r: BlockRow)
        ensures
            r.key.code == CODE_TXIDS,
            r.key.hash == hash,
            r.value@ == le_bytes(txids@.len() as nat, 8) + txids_bytes(txids@),
    {
        let mut value: Vec<u8> = Vec::new();
        push_le(&mut value, txids.len() as u64, 8);
        let ghost start = value@;
        let mut i: usize = 0;
        while i < txids.len()
            invariant
                i <= txids@.len(),
                value@ == start + txids_bytes(txids@.subrange(0, i as int)),
            decreases txids@.len() - i,
        {
            push_all(&mut value, txids[i].as_slice());
            proof {
                let s = txids@.subrange(0, i + 1);
                assert(s.drop_last() =~= txids@.subrange(0, i as int));
            }
            i = i + 1;
            assert(value@ =~= start + txids_bytes(txids@.subrange(0, i as int)));
        }
        assert(txids@.subrange(0, txids@.len() as int) =~= txids@);
        BlockRow { key: BlockKey { code: CODE_TXIDS, hash }, value }
    }

    /// `M{blockhash}` -> tx count, size and weight.
    pub fn new_meta(hash: FullHash, meta: &BlockMeta) -> (r: BlockRow)
        ensures
            r.key.code == CODE_META,
            r.key.hash == hash,
            r.value@ == meta.spec_bytes(),
    {
        let mut value: Vec<u8> = Vec::new();
        push_le(&mut value, meta.tx_count as u64, 4);
        push_le(&mut value, meta.size as u64, 4);
        push_le(&mut value, meta.weight as u64, 4);
        assert(value@ =~= meta.spec_bytes());
        BlockRow { key: BlockKey { code: CODE_META, hash }, value }
    }

    /// `D{blockhash}` -> empty: every row of the block is in this database.
    pub fn new_done(hash: FullHash) -> (r: BlockRow)
        ensures
            r.key.code == CODE_DONE,
            r.key.hash == hash,
            r.value@ == Seq::<u8>::empty(),
    {
        BlockRow { key: BlockKey { code: CODE_DONE, hash }, value: Vec::new() }
    }

    pub fn header_filter() -> (r: Bytes)
        ensures
            r@ == seq![CODE_HEADER],
    {
        let mut r: Vec<u8> = Vec::new();
        r.push(CODE_HEADER);
        assert(r@ =~= seq![CODE_HEADER]);
        r
    }

    pub fn txids_key(hash: FullHash) -> (r: Bytes)
        ensures
            r@ == seq![CODE_TXIDS] + hash@,
    {
        prefixed(CODE_TXIDS, hash.as_slice())
    }

    pub fn meta_key(hash: FullHash) -> (r: Bytes)
        ensures
            r@ == seq![CODE_META] + hash@,
    {
        prefixed(CODE_META, hash.as_slice())
    }

    pub fn done_filter() -> (r: Bytes)
        ensures
            r@ == seq![CODE_DONE],
    {
        let mut r: Vec<u8> = Vec::new();
        r.push(CODE_DONE);
        assert(r@ =~= seq![CODE_DONE]);
        r
    }

    pub fn into_row(self) -> (r: DBRow)
        ensures
            r.key@ == self.key.spec_bytes(),
            r.value@ == self.value@,
    {
        DBRow { key: prefixed(self.key.code, self.key.hash.as_slice()), value: self.value }
    }

    /// Reads a per-block row back; `None` when the key is not a code and a hash.
    pub fn from_row(row: DBRow) -> (r: Option<BlockRow>)
        ensures
            r.is_some() <==> row.key@.len() == 33,
            r.is_some() ==> r.unwrap().key.spec_bytes() == row.key@ && r.unwrap().value@
                == row.value@,
    {
        if row.key.len() != 33 {
            return None;
        }
        let hash = full_hash(slice_from(row.key.as_slice(), 1));
        let key = BlockKey { code: row.key[0], hash };
        assert(key.spec_bytes() =~= row.key@);
        Some(BlockRow { key, value: row.value })
    }
}

} // verus!

verus! {

/// A history entry that funds an output of `txid`.
#[derive(Debug, Copy, Clone)]
pub struct FundingInfo {
    pub txid: FullHash,
    pub vout: u16,
    pub value: u64,
}

/// A history entry where input `vin` of `txid` spends output `prev_vout` of `prev_txid`.
#[derive(Debug, Copy, Clone)]
pub struct SpendingInfo {
    pub txid: FullHash,
    pub vin: u16,
    pub prev_txid: FullHash,
    pub prev_vout: u16,
    pub value: u64,
}

#[derive(Debug, Copy, Clone)]
pub enum TxHistoryInfo {
    Funding(FundingInfo),
    Spending(SpendingInfo),
}

impl TxHistoryInfo {
    /// Tag byte, then the fields, integers big-endian.
    pub open spec fn spec_bytes(self) -> Seq<u8> {
        match self {
            TxHistoryInfo::Funding(f) => seq![TAG_FUNDING] + f.txid@ + be_bytes(f.vout as nat, 2)
                + be_bytes(f.value as nat, 8),
            TxHistoryInfo::Spending(s) => seq![TAG_SPENDING] + s.txid@ + be_bytes(s.vin as nat, 2)
                + s.prev_txid@ + be_bytes(s.prev_vout as nat, 2) + be_bytes(s.value as nat, 8),
        }
    }

    pub open spec fn spec_txid(self) -> FullHash {
        match self {
            TxHistoryInfo::Funding(f) => f.txid,
            TxHistoryInfo::Spending(s) => s.txid,
        }
    }

    pub open spec fn spec_funded_outpoint(self) -> OutPoint {
        match self {
            TxHistoryInfo::Funding(f) => OutPoint { txid: f.txid, vout: f.vout as u32 },
            TxHistoryInfo::Spending(s) => OutPoint { txid: s.prev_txid, vout: s.prev_vout as u32 },
        }
    }

    /// The transaction the entry belongs to (the funding or the spending one).
    pub fn get_txid(&self) -> (r: FullHash)
        ensures
            r == self.spec_txid(),
    {
        match self {
            TxHistoryInfo::Funding(f) => f.txid,
            TxHistoryInfo::Spending(s) => s.txid,
        }
    }

    /// For funding rows, the funded output; for spending rows, the spent previous output.
    pub fn get_funded_outpoint(&self) -> (r: OutPoint)
        ensures
            r == self.spec_funded_outpoint(),
    {
        match self {
            TxHistoryInfo::Funding(f) => OutPoint { txid: f.txid, vout: f.vout as u32 },
            TxHistoryInfo::Spending(s) => OutPoint { txid: s.prev_txid, vout: s.prev_vout as u32 },
        }
    }
}

/// Key of a script-history row.
pub struct TxHistoryKey {
    pub code: u8,
    pub hash: FullHash,
    pub confirmed_height: u32,
    pub txinfo: TxHistoryInfo,
}

impl TxHistoryKey {
    /// `{code}{hash}{height: 4 bytes big-endian}{txinfo}`.
    pub open spec fn spec_bytes(self) -> Seq<u8> {
        seq![self.code] + self.hash@ + be_bytes(self.confirmed_height as nat, 4)
            + self.txinfo.spec_bytes()
    }
}

/// `H{scripthash}{height}F{txid}{vout}{value}` or
/// `H{scripthash}{height}S{txid}{vin}{prev_txid}{prev_vout}{value}` -> empty.
pub struct TxHistoryRow {
    pub key: TxHistoryKey,
}

/// Appends `hash`.
fn push_hash(out: &mut Vec<u8>, hash: &FullHash)
    ensures
        final(out)@ == old(out)@ + hash@,
{
    push_all(out, hash.as_slice());
}

impl TxHistoryRow {
    pub fn new(script: &Vec<u8>, confirmed_height: u32, txinfo: TxHistoryInfo) -> (r: TxHistoryRow)
        ensures
            r.key.code == CODE_HISTORY,
            r.key.hash@ == sha256_of(script@),
            r.key.confirmed_height == confirmed_height,
            r.key.txinfo == txinfo,
    {
        let key = TxHistoryKey {
            code: CODE_HISTORY,
            hash: compute_script_hash(script),
            confirmed_height,
            txinfo,
        };
        TxHistoryRow { key }
    }

    /// `{code}{hash_prefix}`: scan prefix of the history of the scripts whose hash
    /// starts with `hash_prefix`.
    pub fn filter(code: u8, hash_prefix: &[u8]) -> (r: Bytes)
        ensures
            r@ == seq![code] + hash_prefix@,
    {
        prefixed(code, hash_prefix)
    }

    /// `{code}{hash}{u32::MAX little-endian}`: the end of a script's history.
    pub fn prefix_end(code: u8, hash: &[u8]) -> (r: Bytes)
        requires
            hash@.len() >= 32,
        ensures
            r@ == seq![code] + hash@.subrange(0, 32) + le_bytes(0xffff_ffff, 4),
    {
        let h = full_hash(hash);
        let mut r = prefixed(code, h.as_slice());
        push_le(&mut r, 0xffff_ffffu64, 4);
        r
    }

    /// `{code}{hash}{height big-endian}`: where a script's history at `height` starts.
    pub fn prefix_height(code: u8, hash: &[u8], height: u32) -> (r: Bytes)
        requires
            hash@.len() >= 32,
        ensures
            r@ == seq![code] + hash@.subrange(0, 32) + be_bytes(height as nat, 4),
    {
        let h = full_hash(hash);
        let mut r = prefixed(code, h.as_slice());
        push_be(&mut r, height as u64, 4);
        r
    }

    pub fn into_row(self) -> (r: DBRow)
        ensures
            r.key@ == self.key.spec_bytes(),
            r.value@ == Seq::<u8>::empty(),
    {
        let mut key = prefixed(self.key.code, self.key.hash.as_slice());
        push_be(&mut key, self.key.confirmed_height as u64, 4);
        match self.key.txinfo {
            TxHistoryInfo::Funding(f) => {
                key.push(TAG_FUNDING);
                push_hash(&mut key, &f.txid);
                push_be(&mut key, f.vout as u64, 2);
                push_be(&mut key, f.value, 8);
            },
            TxHistoryInfo::Spending(s) => {
                key.push(TAG_SPENDING);
                push_hash(&mut key, &s.txid);
                push_be(&mut key, s.vin as u64, 2);
                push_hash(&mut key, &s.prev_txid);
                push_be(&mut key, s.prev_vout as u64, 2);
                push_be(&mut key, s.value, 8);
            },
        }
        assert(key@ =~= self.key.spec_bytes());
        DBRow { key, value: Vec::new() }
    }

    /// Reads a history row back; `None` when the key is not a history key.
    #[verifier::rlimit(50)]
    pub fn from_row(row: DBRow) -> (r: Option<TxHistoryRow>)
        ensures
            r.is_some() <==> exists|k: TxHistoryKey| k.spec_bytes() == row.key@,
            r.is_some() ==> r.unwrap().key.spec_bytes() == row.key@,
    {
        let k = row.key.as_slice();
        proof {
            assert forall|hk: TxHistoryKey| hk.spec_bytes() == k@ implies {
                &&& (k@.len() == 80 && k@[37] == TAG_FUNDING) || (k@.len() == 114 && k@[37]
                    == TAG_SPENDING)
            } by {
                lemma_history_key_shape(hk);
            }
        }
        if k.len() < 38 {
            return None;
        }
        let tag = k[37];
        if !((k.len() == 80 && tag == TAG_FUNDING) || (k.len() == 114 && tag == TAG_SPENDING)) {
            return None;
        }
        proof {
            lemma_be_value_bound(k@.subrange(33, 37));
            lemma_be_value_bound(k@.subrange(70, 72));
            lemma_be_value_bound(k@.subrange(104, 106));
            reveal_with_fuel(pow256, 5);
        }
        let hash = full_hash(slice_from(k, 1));
        let height = read_be(k, 33, 4) as u32;
        let txid = full_hash(slice_from(k, 38));
        let n = read_be(k, 70, 2) as u16;
        let txinfo = if tag == TAG_FUNDING {
            let value = read_be(k, 72, 8);
            TxHistoryInfo::Funding(FundingInfo { txid, vout: n, value })
        } else {
            let prev_txid = full_hash(slice_from(k, 72));
            let prev_vout = read_be(k, 104, 2) as u16;
            let value = read_be(k, 106, 8);
            TxHistoryInfo::Spending(SpendingInfo { txid, vin: n, prev_txid, prev_vout, value })
        };
        let key = TxHistoryKey { code: k[0], hash, confirmed_height: height, txinfo };
        proof {
            lemma_be_bytes_of_value(k@.subrange(33, 37));
            lemma_be_bytes_of_value(k@.subrange(70, 72));
            lemma_be_bytes_of_value(k@.subrange(72, 80));
            if tag == TAG_SPENDING {
                lemma_be_bytes_of_value(k@.subrange(104, 106));
                lemma_be_bytes_of_value(k@.subrange(106, 114));
            }
            assert(key.spec_bytes() =~= k@);
        }
        Some(TxHistoryRow { key })
    }

    pub fn get_txid(&self) -> (r: FullHash)
        ensures
            r == self.key.txinfo.spec_txid(),
    {
        self.key.txinfo.get_txid()
    }

    pub fn get_funded_outpoint(&self) -> (r: OutPoint)
        ensures
            r == self.key.txinfo.spec_funded_outpoint(),
    {
        self.key.txinfo.get_funded_outpoint()
    }
}

/// Every history key is 80 (funding) or 114 (spending) bytes, with its tag at byte 37.
pub proof fn lemma_history_key_shape(k: TxHistoryKey)
    ensures
        ({
            let b = k.spec_bytes();
            match k.txinfo {
                TxHistoryInfo::Funding(_) => b.len() == 80 && b[37] == TAG_FUNDING,
                TxHistoryInfo::Spending(_) => b.len() == 114 && b[37] == TAG_SPENDING,
            }
        }),
{
    lemma_be_len(k.confirmed_height as nat, 4);
    match k.txinfo {
        TxHistoryInfo::Funding(f) => {
            lemma_be_len(f.vout as nat, 2);
            lemma_be_len(f.value as nat, 8);
        },
        TxHistoryInfo::Spending(s) => {
            lemma_be_len(s.vin as nat, 2);
            lemma_be_len(s.prev_vout as nat, 2);
            lemma_be_len(s.value as nat, 8);
        },
    }
}

} // verus!

verus! {

/// Key of a spend edge.
pub struct TxEdgeKey {
    pub code: u8,
    pub funding_txid: FullHash,
    pub funding_vout: u16,
    pub spending_txid: FullHash,
    pub spending_vin: u16,
}

impl TxEdgeKey {
    /// `{code}{funding_txid}{funding_vout LE}{spending_txid}{spending_vin LE}`.
    pub open spec fn spec_bytes(self) -> Seq<u8> {
        seq![self.code] + self.funding_txid@ + le_bytes(self.funding_vout as nat, 2)
            + self.spending_txid@ + le_bytes(self.spending_vin as nat, 2)
    }
}

/// `S{funding_txid}{funding_vout}{spending_txid}{spending_vin}` -> empty: the
/// output is spent by that input.
pub struct TxEdgeRow {
    pub key: TxEdgeKey,
}

impl TxEdgeRow {
    pub fn new(
        funding_txid: FullHash,
        funding_vout: u16,
        spending_txid: FullHash,
        spending_vin: u16,
    ) -> (r: TxEdgeRow)
        ensures
            r.key == (TxEdgeKey {
                code: CODE_EDGE,
                funding_txid,
                funding_vout,
                spending_txid,
                spending_vin,
            }),
    {
        let key = TxEdgeKey { code: CODE_EDGE, funding_txid, funding_vout, spending_txid, spending_vin };
        TxEdgeRow { key }
    }

    /// Scan prefix of the edges that spend `outpoint` (the index is kept to 16 bits).
    pub fn filter(outpoint: &OutPoint) -> (r: Bytes)
        ensures
            r@ == seq![CODE_EDGE] + outpoint.txid@ + le_bytes(outpoint.vout as nat % 65536, 2),
    {
        let mut r = prefixed(CODE_EDGE, outpoint.txid.as_slice());
        push_le(&mut r, (outpoint.vout % 65536) as u64, 2);
        r
    }

    pub fn into_row(self) -> (r: DBRow)
        ensures
            r.key@ == self.key.spec_bytes(),
            r.value@ == Seq::<u8>::empty(),
    {
        let mut key = prefixed(self.key.code, self.key.funding_txid.as_slice());
        push_le(&mut key, self.key.funding_vout as u64, 2);
        push_hash(&mut key, &self.key.spending_txid);
        push_le(&mut key, self.key.spending_vin as u64, 2);
        DBRow { key, value: Vec::new() }
    }

    /// Reads a spend edge back; `None` when the key is not 69 bytes long.
    pub fn from_row(row: DBRow) -> (r: Option<TxEdgeRow>)
        ensures
            r.is_some() <==> row.key@.len() == 69,
            r.is_some() ==> r.unwrap().key.spec_bytes() == row.key@,
    {
        let k = row.key.as_slice();
        if k.len() != 69 {
            return None;
        }
        proof {
            lemma_le_value_bound(k@.subrange(33, 35));
            lemma_le_value_bound(k@.subrange(67, 69));
            reveal_with_fuel(pow256, 3);
        }
        let funding_txid = full_hash(slice_from(k, 1));
        let funding_vout = read_le(k, 33, 2) as u16;
        let spending_txid = full_hash(slice_from(k, 35));
        let spending_vin = read_le(k, 67, 2) as u16;
        let key = TxEdgeKey { code: k[0], funding_txid, funding_vout, spending_txid, spending_vin };
        proof {
            lemma_le_bytes_of_value(k@.subrange(33, 35));
            lemma_le_bytes_of_value(k@.subrange(67, 69));
            assert(key.spec_bytes() =~= k@);
        }
        Some(TxEdgeRow { key })
    }
}

/// Per-script statistics cached under `A{scripthash}`.
#[derive(Debug, Default, Copy, Clone)]
pub struct ScriptStats {
    pub tx_count: usize,
    pub funded_txo_count: usize,
    pub spend_txo_count: usize,
    pub funded_txo_sum: u64,
}

impl ScriptStats {
    /// Each field as 8 little-endian bytes.
    pub open spec fn spec_bytes(self) -> Seq<u8> {
        le_bytes(self.tx_count as nat, 8) + le_bytes(self.funded_txo_count as nat, 8) + le_bytes(
            self.spend_txo_count as nat,
            8,
        ) + le_bytes(self.funded_txo_sum as nat, 8)
    }
}

/// Key of a per-script cache row.
pub struct ScriptCacheKey {
    pub code: u8,
    pub scripthash: FullHash,
}

impl ScriptCacheKey {
    pub open spec fn spec_bytes(self) -> Seq<u8> {
        seq![self.code] + self.scripthash@
    }
}

/// `A{scripthash}` -> statistics and the block hash they were computed at.
pub struct StatsCacheRow {
    pub key: ScriptCacheKey,
    pub value: Bytes,
}

impl StatsCacheRow {
    pub fn new(scripthash: &[u8], stats: &ScriptStats, blockhash: &FullHash) -> (r: StatsCacheRow)
        requires
            scripthash@.len() >= 32,
        ensures
            r.key.code == CODE_STATS,
            r.key.scripthash@ == scripthash@.subrange(0, 32),
            r.value@ == stats.spec_bytes() + blockhash@,
    {
        let mut value: Vec<u8> = Vec::new();
        push_le(&mut value, stats.tx_count as u64, 8);
        push_le(&mut value, stats.funded_txo_count as u64, 8);
        push_le(&mut value, stats.spend_txo_count as u64, 8);
        push_le(&mut value, stats.funded_txo_sum, 8);
        push_hash(&mut value, blockhash);
        assert(value@ =~= stats.spec_bytes() + blockhash@);
        StatsCacheRow {
            key: ScriptCacheKey { code: CODE_STATS, scripthash: full_hash(scripthash) },
            value,
        }
    }

    pub fn key(scripthash: &[u8]) -> (r: Bytes)
        ensures
            r@ == seq![CODE_STATS] + scripthash@,
    {
        prefixed(CODE_STATS, scripthash)
    }

    pub fn into_row(self) -> (r: DBRow)
        ensures
            r.key@ == self.key.spec_bytes(),
            r.value@ == self.value@,
    {
        DBRow { key: prefixed(self.key.code, self.key.scripthash.as_slice()), value: self.value }
    }
}

/// `U{scripthash}` -> the cached unspent outputs of a script.
pub struct UtxoCacheRow {
    pub key: ScriptCacheKey,
    pub value: Bytes,
}

impl UtxoCacheRow {
    pub fn key(scripthash: &[u8]) -> (r: Bytes)
        ensures
            r@ == seq![CODE_UTXO] + scripthash@,
    {
        prefixed(CODE_UTXO, scripthash)
    }

    pub fn into_row(self) -> (r: DBRow)
        ensures
            r.key@ == self.key.spec_bytes(),
            r.value@ == self.value@,
    {
        DBRow { key: prefixed(self.key.code, self.key.scripthash.as_slice()), value: self.value }
    }
}

/// Within one script's history (same code, same script hash), a row at a lower
/// height has a key that sorts strictly before any row at a higher height,
/// whatever the rest of the two keys: so a forward prefix scan meets the rows
/// in non-decreasing height order, and a reverse scan in non-increasing order.
#[verifier::rlimit(50)]
pub proof fn history_keys_sort_by_height(a: TxHistoryKey, b: TxHistoryKey)
    requires
        a.code == b.code,
        a.hash == b.hash,
        a.confirmed_height < b.confirmed_height,
    ensures
        lex_lt(a.spec_bytes(), b.spec_bytes()),
{
    let p = seq![a.code] + a.hash@;
    let ea = be_bytes(a.confirmed_height as nat, 4);
    let eb = be_bytes(b.confirmed_height as nat, 4);
    lemma_be_len(a.confirmed_height as nat, 4);
    lemma_be_len(b.confirmed_height as nat, 4);
    reveal_with_fuel(pow256, 5);
    lemma_be_round_trip(a.confirmed_height as nat, 4);
    lemma_be_round_trip(b.confirmed_height as nat, 4);
    lemma_be_order(ea, eb);
    lemma_lex_lt_concat(p, ea, eb, a.txinfo.spec_bytes(), b.txinfo.spec_bytes());
    assert(a.spec_bytes() =~= p + ea + a.txinfo.spec_bytes());
    assert(b.spec_bytes() =~= p + eb + b.txinfo.spec_bytes());
}

/// Writing a history row and reading it back gives the same key.
pub proof fn history_row_round_trip(k: TxHistoryKey)
    ensures
        forall|row: DBRow| row.key@ == k.spec_bytes() ==> #[trigger] spec_history_decodes(row, k),
{
    assert forall|row: DBRow| row.key@ == k.spec_bytes() implies #[trigger] spec_history_decodes(
        row,
        k,
    ) by {
        history_key_injective(k, k);
    }
}

/// Reading the row back yields `k`.
pub open spec fn spec_history_decodes(row: DBRow, k: TxHistoryKey) -> bool {
    forall|k2: TxHistoryKey| #[trigger] k2.spec_bytes() == row.key@ ==> k2 == k
}

/// Two history keys with the same bytes are the same key.
#[verifier::rlimit(50)]
pub proof fn history_key_injective(a: TxHistoryKey, b: TxHistoryKey)
    ensures
        forall|k2: TxHistoryKey| #[trigger] k2.spec_bytes() == a.spec_bytes() ==> k2 == a,
{
    assert forall|k2: TxHistoryKey| #[trigger] k2.spec_bytes() == a.spec_bytes() implies k2
        == a by {
        lemma_history_key_shape(a);
        lemma_history_key_shape(k2);
        let x = a.spec_bytes();
        reveal_with_fuel(pow256, 9);
        assert(k2.hash@ =~= x.subrange(1, 33));
        assert(a.hash@ =~= x.subrange(1, 33));
        assert(k2.hash =~= a.hash);
        assert(k2.code == x[0] && a.code == x[0]);
        lemma_be_len(a.confirmed_height as nat, 4);
        lemma_be_len(k2.confirmed_height as nat, 4);
        assert(be_bytes(a.confirmed_height as nat, 4) =~= x.subrange(33, 37));
        assert(be_bytes(k2.confirmed_height as nat, 4) =~= x.subrange(33, 37));
        lemma_be_round_trip(a.confirmed_height as nat, 4);
        lemma_be_round_trip(k2.confirmed_height as nat, 4);
        assert(k2.confirmed_height == a.confirmed_height);
        match (a.txinfo, k2.txinfo) {
            (TxHistoryInfo::Funding(f), TxHistoryInfo::Funding(g)) => {
                lemma_be_len(f.vout as nat, 2);
                lemma_be_len(g.vout as nat, 2);
                lemma_be_len(f.value as nat, 8);
                lemma_be_len(g.value as nat, 8);
                assert(f.txid@ =~= x.subrange(38, 70));
                assert(g.txid@ =~= x.subrange(38, 70));
                assert(f.txid =~= g.txid);
                assert(be_bytes(f.vout as nat, 2) =~= x.subrange(70, 72));
                assert(be_bytes(g.vout as nat, 2) =~= x.subrange(70, 72));
                assert(be_bytes(f.value as nat, 8) =~= x.subrange(72, 80));
                assert(be_bytes(g.value as nat, 8) =~= x.subrange(72, 80));
                lemma_be_round_trip(f.vout as nat, 2);
                lemma_be_round_trip(g.vout as nat, 2);
                lemma_be_round_trip(f.value as nat, 8);
                lemma_be_round_trip(g.value as nat, 8);
                assert(f == g);
            },
            (TxHistoryInfo::Spending(f), TxHistoryInfo::Spending(g)) => {
                lemma_be_len(f.vin as nat, 2);
                lemma_be_len(g.vin as nat, 2);
                lemma_be_len(f.prev_vout as nat, 2);
                lemma_be_len(g.prev_vout as nat, 2);
                lemma_be_len(f.value as nat, 8);
                lemma_be_len(g.value as nat, 8);
                assert(f.txid@ =~= x.subrange(38, 70));
                assert(g.txid@ =~= x.subrange(38, 70));
                assert(f.txid =~= g.txid);
                assert(be_bytes(f.vin as nat, 2) =~= x.subrange(70, 72));
                assert(be_bytes(g.vin as nat, 2) =~= x.subrange(70, 72));
                assert(f.prev_txid@ =~= x.subrange(72, 104));
                assert(g.prev_txid@ =~= x.subrange(72, 104));
                assert(f.prev_txid =~= g.prev_txid);
                assert(be_bytes(f.prev_vout as nat, 2) =~= x.subrange(104, 106));
                assert(be_bytes(g.prev_vout as nat, 2) =~= x.subrange(104, 106));
                assert(be_bytes(f.value as nat, 8) =~= x.subrange(106, 114));
                assert(be_bytes(g.value as nat, 8) =~= x.subrange(106, 114));
                lemma_be_round_trip(f.vin as nat, 2);
                lemma_be_round_trip(g.vin as nat, 2);
                lemma_be_round_trip(f.prev_vout as nat, 2);
                lemma_be_round_trip(g.prev_vout as nat, 2);
                lemma_be_round_trip(f.value as nat, 8);
                lemma_be_round_trip(g.value as nat, 8);
                assert(f == g);
            },
            _ => {},
        }
    }
}

} // verus!

verus! {

/// An unspent output of a script: where it is, the height of its block, its value.
#[derive(Debug, Copy, Clone)]
pub struct CachedUtxo {
    pub outpoint: OutPoint,
    pub height: u32,
    pub value: u64,
}

/// One cached output: txid, index (4 bytes), height (4 bytes), value (8 bytes),
/// little-endian.
pub open spec fn cached_utxo_bytes(u: CachedUtxo) -> Seq<u8> {
    u.outpoint.txid@ + le_bytes(u.outpoint.vout as nat, 4) + le_bytes(u.height as nat, 4) + le_bytes(
        u.value as nat,
        8,
    )
}

pub open spec fn cached_utxos_bytes(us: Seq<CachedUtxo>) -> Seq<u8>
    decreases us.len(),
{
    if us.len() == 0 {
        Seq::empty()
    } else {
        cached_utxos_bytes(us.drop_last()) + cached_utxo_bytes(us.last())
    }
}

/// The cache form of a script's unspent outputs, given with the block id of
/// each: the block height alone is kept (the rest is read back from the headers).
pub fn make_utxo_cache(utxos: &Vec<(OutPoint, crate::header::BlockId, u64)>) -> (r: Vec<CachedUtxo>)
    ensures
        r@.len() == utxos@.len(),
        forall|i: int|
            0 <= i < r@.len() ==> (#[trigger] r@[i]).outpoint == utxos@[i].0 && r@[i].height as nat
                == utxos@[i].1.height as nat % 0x1_0000_0000 && r@[i].value == utxos@[i].2,
{
    let mut r: Vec<CachedUtxo> = Vec::new();
    let mut i: usize = 0;
    while i < utxos.len()
        invariant
            i <= utxos@.len(),
            r@.len() == i,
            forall|k: int|
                0 <= k < i ==> (#[trigger] r@[k]).outpoint == utxos@[k].0 && r@[k].height as nat
                    == utxos@[k].1.height as nat % 0x1_0000_0000 && r@[k].value == utxos@[k].2,
        decreases utxos@.len() - i,
    {
        let (outpoint, blockid, value) = utxos[i];
        let height = (blockid.height as u64 % 0x1_0000_0000u64) as u32;
        r.push(CachedUtxo { outpoint, height, value });
        i = i + 1;
    }
    r
}

impl UtxoCacheRow {
    /// `U{scripthash}` -> the count (8 bytes, little-endian), each cached output,
    /// then the block hash the cache was computed at.
    pub fn new(scripthash: &[u8], utxos: &Vec<(OutPoint, crate::header::BlockId, u64)>, blockhash: &FullHash) -> (r: UtxoCacheRow)
        requires
            scripthash@.len() >= 32,
        ensures
            r.key.code == CODE_UTXO,
            r.key.scripthash@ == scripthash@.subrange(0, 32),
            exists|cache: Seq<CachedUtxo>|
                cache.len() == utxos@.len() && (forall|i: int|
                    0 <= i < cache.len() ==> (#[trigger] cache[i]).outpoint == utxos@[i].0
                        && cache[i].height as nat == utxos@[i].1.height as nat % 0x1_0000_0000
                        && cache[i].value == utxos@[i].2) && r.value@ == le_bytes(
                    cache.len() as nat,
                    8,
                ) + cached_utxos_bytes(cache) + blockhash@,
    {
        let cache = make_utxo_cache(utxos);
        let mut value: Vec<u8> = Vec::new();
        push_le(&mut value, cache.len() as u64, 8);
        let ghost start = value@;
        let mut i: usize = 0;
        while i < cache.len()
            invariant
                i <= cache@.len(),
                value@ == start + cached_utxos_bytes(cache@.subrange(0, i as int)),
            decreases cache@.len() - i,
        {
            let u = cache[i];
            push_hash(&mut value, &u.outpoint.txid);
            push_le(&mut value, u.outpoint.vout as u64, 4);
            push_le(&mut value, u.height as u64, 4);
            push_le(&mut value, u.value, 8);
            proof {
                let s = cache@.subrange(0, i + 1);
                assert(s.drop_last() =~= cache@.subrange(0, i as int));
            }
            i = i + 1;
            assert(value@ =~= start + cached_utxos_bytes(cache@.subrange(0, i as int)));
        }
        assert(cache@.subrange(0, cache@.len() as int) =~= cache@);
        push_hash(&mut value, blockhash);
        assert(value@ =~= le_bytes(cache@.len() as nat, 8) + cached_utxos_bytes(cache@) + blockhash@);
        UtxoCacheRow {
            key: ScriptCacheKey { code: CODE_UTXO, scripthash: full_hash(scripthash) },
            value,
        }
    }
}

} // verus!

verus! {

/// Rebuilds the unspent outputs of a cache row, reading each one's block id
/// back from the headers; `None` when a height is above the chain.
pub fn from_utxo_cache(cache: &Vec<CachedUtxo>, chain: &crate::header::HeaderList) -> (r: Option<
    Vec<(OutPoint, crate::header::BlockId, u64)>,
>)
    requires
        chain.wf(),
    ensures
        r is None <==> exists|i: int|
            0 <= i < cache@.len() && (#[trigger] cache@[i]).height as nat >= chain.headers@.len(),
        r matches Some(v) ==> v@.len() == cache@.len() && forall|i: int|
            0 <= i < v@.len() ==> (#[trigger] v@[i]).0 == cache@[i].outpoint && v@[i].1.height
                == cache@[i].height as usize && v@[i].1.hash == chain.headers@[cache@[i].height as int].hash
                && v@[i].2 == cache@[i].value,
{
    let mut out: Vec<(OutPoint, crate::header::BlockId, u64)> = Vec::new();
    let mut i: usize = 0;
    while i < cache.len()
        invariant
            chain.wf(),
            i <= cache@.len(),
            out@.len() == i,
            forall|k: int| 0 <= k < i ==> ((#[trigger] cache@[k]).height as nat) < chain.headers@.len(),
            forall|k: int|
                0 <= k < i ==> (#[trigger] out@[k]).0 == cache@[k].outpoint && out@[k].1.height
                    == cache@[k].height as usize && out@[k].1.hash == chain.headers@[cache@[k].height as int].hash
                    && out@[k].2 == cache@[k].value,
        decreases cache@.len() - i,
    {
        let u = cache[i];
        match chain.blockid_by_height(u.height as usize) {
            Some(b) => out.push((u.outpoint, b, u.value)),
            None => {
                return None;
            },
        }
        i = i + 1;
    }
    Some(out)
}

} // verus!
