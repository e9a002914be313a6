//! The two indexing passes. The add pass turns each block into its
//! transaction-store rows; the index pass turns each block, with the outputs
//! its inputs spend, into its history rows.
use vstd::prelude::*;
use crate::chain::{
    has_prevout, is_spendable, sha256_of, spec_has_prevout, spec_is_spendable,
    Network, OutPoint, Transaction, TxIn, TxOut,
};
use crate::codec::{be_bytes, le_bytes};
use crate::fetch::BlockEntry;
use crate::header::HeaderEntry;
use crate::schema::{
    txids_bytes, txout_key_bytes, BlockMeta, BlockRow, DBRow, FundingInfo, SpendingInfo,
    TxConfRow, TxEdgeRow, TxHistoryInfo, TxHistoryRow, TxOutRow, TxRow, CODE_ADDRESS, CODE_CONF,
    CODE_DONE, CODE_EDGE, CODE_HEADER, CODE_HISTORY, CODE_META, CODE_TX, CODE_TXIDS,
    TAG_FUNDING, TAG_SPENDING,
};
use crate::util::FullHash;

verus! {

/// What the indexer is configured to write.
#[derive(Debug, Copy, Clone)]
pub struct IndexerConfig {
    /// Skip the raw transaction (`T`), txids (`X`) and meta (`M`) rows.
    pub light_mode: bool,
    /// Also write an `a{address}` row for each funded address.
    pub address_search: bool,
    /// Also index the outputs that can never be spent.
    pub index_unspendables: bool,
    pub network: Network,
}

/// A row as a pair of byte sequences.
pub type RowView = (Seq<u8>, Seq<u8>);

pub open spec fn row_view(r: DBRow) -> RowView {
    (r.key@, r.value@)
}

pub open spec fn rows_view(rows: Seq<DBRow>) -> Seq<RowView> {
    rows.map_values(|r: DBRow| row_view(r))
}

/// Appends `row`.
pub fn push_row(rows: &mut Vec<DBRow>, row: DBRow)
    ensures
        rows_view(final(rows)@) == rows_view(old(rows)@).push(row_view(row)),
{
    rows.push(row);
    assert(rows_view(rows@) =~= rows_view(old(rows)@).push(row_view(row)));
}

// ---------------------------------------------------------------- add pass

/// The `O` rows of the spendable outputs among `outs`, in output order.
pub open spec fn spec_txout_rows(txid: Seq<u8>, outs: Seq<TxOut>) -> Seq<RowView>
    decreases outs.len(),
{
    if outs.len() == 0 {
        Seq::empty()
    } else {
        let prev = spec_txout_rows(txid, outs.drop_last());
        if spec_is_spendable(outs.last()) {
            prev.push((txout_key_bytes(txid, (outs.len() - 1) as nat), outs.last().raw@))
        } else {
            prev
        }
    }
}

/// The transaction-store rows of one transaction: its confirmation record, its
/// raw bytes (unless in light mode), and its spendable outputs.
pub open spec fn spec_add_tx_rows(tx: Transaction, blockhash: Seq<u8>, light: bool) -> Seq<RowView> {
    seq![(seq![CODE_CONF] + tx.txid@ + blockhash, Seq::<u8>::empty())] + (if light {
        Seq::empty()
    } else {
        seq![(seq![CODE_TX] + tx.txid@, tx.raw@)]
    }) + spec_txout_rows(tx.txid@, tx.output@)
}

pub open spec fn spec_add_txs_rows(txs: Seq<Transaction>, blockhash: Seq<u8>, light: bool) -> Seq<
    RowView,
>
    decreases txs.len(),
{
    if txs.len() == 0 {
        Seq::empty()
    } else {
        spec_add_txs_rows(txs.drop_last(), blockhash, light) + spec_add_tx_rows(
            txs.last(),
            blockhash,
            light,
        )
    }
}

pub open spec fn spec_txids(txs: Seq<Transaction>) -> Seq<FullHash> {
    txs.map_values(|t: Transaction| t.txid)
}

/// The block's statistics row value: tx count, size and weight.
pub open spec fn spec_meta(b: BlockEntry) -> BlockMeta {
    BlockMeta {
        tx_count: (b.block.txdata@.len() % 0x1_0000_0000) as u32,
        size: b.size,
        weight: b.block.weight,
    }
}

/// The transaction-store rows of one block: those of its transactions, then
/// (unless in light mode) its txids and statistics, then its header and its
/// done marker.
pub open spec fn spec_add_block_rows(b: BlockEntry, light: bool) -> Seq<RowView> {
    let bh = b.entry.hash@;
    spec_add_txs_rows(b.block.txdata@, bh, light) + (if light {
        Seq::empty()
    } else {
        seq![
            (seq![CODE_TXIDS] + bh, le_bytes(b.block.txdata@.len() as nat, 8) + txids_bytes(spec_txids(b.block.txdata@))),
            (seq![CODE_META] + bh, spec_meta(b).spec_bytes()),
        ]
    }) + seq![(seq![CODE_HEADER] + bh, b.block.header@), (seq![CODE_DONE] + bh, Seq::<u8>::empty())]
}

pub open spec fn spec_add_rows(blocks: Seq<BlockEntry>, light: bool) -> Seq<RowView>
    decreases blocks.len(),
{
    if blocks.len() == 0 {
        Seq::empty()
    } else {
        spec_add_rows(blocks.drop_last(), light) + spec_add_block_rows(blocks.last(), light)
    }
}

/// Appends the transaction-store rows of `tx` confirmed in block `blockhash`.
#[verifier::rlimit(50)]
pub fn add_transaction(
    tx: &Transaction,
    blockhash: FullHash,
    rows: &mut Vec<DBRow>,
    iconfig: &IndexerConfig,
)
    ensures
        rows_view(final(rows)@) == rows_view(old(rows)@) + spec_add_tx_rows(
            *tx,
            blockhash@,
            iconfig.light_mode,
        ),
{
    let ghost start = rows_view(rows@);
    push_row(rows, TxConfRow::new(tx, blockhash).into_row());
    if !iconfig.light_mode {
        push_row(rows, TxRow::new(tx).into_row());
    }
    let ghost mid = rows_view(rows@);
    let txid = tx.txid;
    let mut i: usize = 0;
    while i < tx.output.len()
        invariant
            i <= tx.output@.len(),
            txid == tx.txid,
            rows_view(rows@) == mid + spec_txout_rows(txid@, tx.output@.subrange(0, i as int)),
        decreases tx.output@.len() - i,
    {
        let txo = &tx.output[i];
        proof {
            let s = tx.output@.subrange(0, i + 1);
            assert(s.drop_last() =~= tx.output@.subrange(0, i as int));
            assert(s.last() == tx.output@[i as int]);
        }
        if is_spendable(txo) {
            push_row(rows, TxOutRow::new(&txid, i, txo).into_row());
            proof {
                let s = tx.output@.subrange(0, i + 1);
                assert(rows_view(rows@) =~= mid + spec_txout_rows(txid@, s));
            }
        }
        i = i + 1;
    }
    assert(tx.output@.subrange(0, tx.output@.len() as int) =~= tx.output@);
    assert(rows_view(rows@) =~= start + spec_add_tx_rows(*tx, blockhash@, iconfig.light_mode));
}

/// The txids of `txs`, in order.
pub fn collect_txids(txs: &Vec<Transaction>) -> (r: Vec<FullHash>)
    ensures
        r@ == spec_txids(txs@),
{
    let mut r: Vec<FullHash> = Vec::new();
    let mut i: usize = 0;
    while i < txs.len()
        invariant
            i <= txs@.len(),
            r@ == spec_txids(txs@.subrange(0, i as int)),
        decreases txs@.len() - i,
    {
        r.push(txs[i].txid);
        i = i + 1;
        assert(r@ =~= spec_txids(txs@.subrange(0, i as int)));
    }
    assert(txs@.subrange(0, txs@.len() as int) =~= txs@);
    r
}

/// The statistics of a fetched block.
pub fn block_meta(b: &BlockEntry) -> (r: BlockMeta)
    ensures
        r == spec_meta(*b),
{
    BlockMeta {
        tx_count: (b.block.txdata.len() as u64 % 0x1_0000_0000u64) as u32,
        size: b.size,
        weight: b.block.weight,
    }
}

/// Appends the transaction-store rows of one block.
#[verifier::rlimit(50)]
pub fn add_block(b: &BlockEntry, rows: &mut Vec<DBRow>, iconfig: &IndexerConfig)
    ensures
        rows_view(final(rows)@) == rows_view(old(rows)@) + spec_add_block_rows(
            *b,
            iconfig.light_mode,
        ),
{
    let ghost start = rows_view(rows@);
    let blockhash = b.entry.hash;
    let txs = &b.block.txdata;
    let mut i: usize = 0;
    while i < txs.len()
        invariant
            i <= txs@.len(),
            *txs == b.block.txdata,
            blockhash == b.entry.hash,
            rows_view(rows@) == start + spec_add_txs_rows(
                txs@.subrange(0, i as int),
                blockhash@,
                iconfig.light_mode,
            ),
        decreases txs@.len() - i,
    {
        add_transaction(&txs[i], blockhash, rows, iconfig);
        proof {
            let s = txs@.subrange(0, i + 1);
            assert(s.drop_last() =~= txs@.subrange(0, i as int));
        }
        i = i + 1;
    }
    assert(txs@.subrange(0, txs@.len() as int) =~= txs@);
    let ghost mid = rows_view(rows@);
    if !iconfig.light_mode {
        let txids = collect_txids(txs);
        push_row(rows, BlockRow::new_txids(blockhash, txids.as_slice()).into_row());
        push_row(rows, BlockRow::new_meta(blockhash, &block_meta(b)).into_row());
    }
    push_row(rows, BlockRow::new_header(b).into_row());
    push_row(rows, BlockRow::new_done(blockhash).into_row());
    assert(rows_view(rows@) =~= start + spec_add_block_rows(*b, iconfig.light_mode));
}

/// The transaction-store rows of a batch of blocks, block after block.
#[verifier::rlimit(50)]
pub fn add_blocks(block_entries: &[BlockEntry], iconfig: &IndexerConfig) -> (r: Vec<DBRow>)
    ensures
        rows_view(r@) == spec_add_rows(block_entries@, iconfig.light_mode),
{
    let mut rows: Vec<DBRow> = Vec::new();
    let mut i: usize = 0;
    assert(rows_view(rows@) =~= Seq::<RowView>::empty());
    while i < block_entries.len()
        invariant
            i <= block_entries@.len(),
            rows_view(rows@) == spec_add_rows(
                block_entries@.subrange(0, i as int),
                iconfig.light_mode,
            ),
        decreases block_entries@.len() - i,
    {
        add_block(&block_entries[i], &mut rows, iconfig);
        proof {
            let s = block_entries@.subrange(0, i + 1);
            assert(s.drop_last() =~= block_entries@.subrange(0, i as int));
        }
        i = i + 1;
    }
    assert(block_entries@.subrange(0, block_entries@.len() as int) =~= block_entries@);
    rows
}

} // verus!

verus! {

// -------------------------------------------------------------- index pass

/// The address string of a script on a network, if the script pays to one
/// (what bitcoin's `Address::from_script` renders).
pub uninterp spec fn address_of(script: Seq<u8>, network: Network) -> Option<Seq<u8>>;

/// Relies on bitcoin's `Address::from_script` and the address's `Display`: the
/// address a script pays to, as a string, or `None` for a script that has none.
#[verifier::external_body]
fn script_to_address(script: &Vec<u8>, network: Network) -> (r: Option<Vec<u8>>)
    ensures
        r matches Some(a) ==> address_of(script@, network) == Some(a@),
        r is None ==> address_of(script@, network) is None,
{
    let net = match network {
        Network::Bitcoin => bitcoin::Network::Bitcoin,
        Network::Testnet => bitcoin::Network::Testnet,
        Network::Regtest => bitcoin::Network::Regtest,
        Network::Signet => bitcoin::Network::Signet,
    };
    let script = bitcoin::Script::from(script.clone());
    bitcoin::Address::from_script(&script, net).ok().map(|a| a.to_string().into_bytes())
}

/// `a{address}` -> empty, for a script that pays to an address.
pub fn addr_search_row(spk: &Vec<u8>, network: Network) -> (r: Option<DBRow>)
    ensures
        match address_of(spk@, network) {
            Some(a) => r matches Some(row) && row_view(row) == (seq![CODE_ADDRESS] + a, Seq::<u8>::empty()),
            None => r is None,
        },
{
    match script_to_address(spk, network) {
        Some(address) => {
            let key = crate::schema::prefixed(CODE_ADDRESS, address.as_slice());
            Some(DBRow { key, value: Vec::new() })
        },
        None => None,
    }
}

/// Key bytes of a funding history row.
pub open spec fn funding_key_bytes(
    scripthash: Seq<u8>,
    height: u32,
    txid: Seq<u8>,
    vout: nat,
    value: u64,
) -> Seq<u8> {
    seq![CODE_HISTORY] + scripthash + be_bytes(height as nat, 4) + (seq![TAG_FUNDING] + txid
        + be_bytes(vout % 65536, 2) + be_bytes(value as nat, 8))
}

/// Key bytes of a spending history row.
pub open spec fn spending_key_bytes(
    scripthash: Seq<u8>,
    height: u32,
    txid: Seq<u8>,
    vin: nat,
    prev: OutPoint,
    value: u64,
) -> Seq<u8> {
    seq![CODE_HISTORY] + scripthash + be_bytes(height as nat, 4) + (seq![TAG_SPENDING] + txid
        + be_bytes(vin % 65536, 2) + prev.txid@ + be_bytes(prev.vout as nat % 65536, 2)
        + be_bytes(value as nat, 8))
}

/// Key bytes of a spend edge.
pub open spec fn edge_key_bytes(prev: OutPoint, txid: Seq<u8>, vin: nat) -> Seq<u8> {
    seq![CODE_EDGE] + prev.txid@ + le_bytes(prev.vout as nat % 65536, 2) + txid + le_bytes(
        vin % 65536,
        2,
    )
}

/// Whether an output gets a funding row.
pub open spec fn spec_indexed_output(txo: TxOut, cfg: IndexerConfig) -> bool {
    spec_is_spendable(txo) || cfg.index_unspendables
}

/// The funding rows (and address rows) of the outputs `outs` of `txid`.
pub open spec fn spec_funding_rows(
    txid: Seq<u8>,
    outs: Seq<TxOut>,
    height: u32,
    cfg: IndexerConfig,
) -> Seq<RowView>
    decreases outs.len(),
{
    if outs.len() == 0 {
        Seq::empty()
    } else {
        let prev = spec_funding_rows(txid, outs.drop_last(), height, cfg);
        let i = (outs.len() - 1) as nat;
        let txo = outs.last();
        if spec_indexed_output(txo, cfg) {
            let h = (
                funding_key_bytes(sha256_of(txo.script_pubkey@), height, txid, i, txo.value),
                Seq::<u8>::empty(),
            );
            let with_h = prev.push(h);
            if cfg.address_search {
                match address_of(txo.script_pubkey@, cfg.network) {
                    Some(a) => with_h.push((seq![CODE_ADDRESS] + a, Seq::<u8>::empty())),
                    None => with_h,
                }
            } else {
                with_h
            }
        } else {
            prev
        }
    }
}

/// The number of inputs among `ins` that spend a previous output.
pub open spec fn spec_prevout_count(ins: Seq<TxIn>) -> nat
    decreases ins.len(),
{
    if ins.len() == 0 {
        0
    } else {
        spec_prevout_count(ins.drop_last()) + if spec_has_prevout(ins.last()) {
            1nat
        } else {
            0nat
        }
    }
}

/// The spending rows and spend edges of the inputs `ins` of `txid`; the previous
/// outputs they spend are `prevouts[start..]`, one for each input that has one.
pub open spec fn spec_spending_rows(
    txid: Seq<u8>,
    ins: Seq<TxIn>,
    prevouts: Seq<TxOut>,
    start: int,
    height: u32,
) -> Seq<RowView>
    decreases ins.len(),
{
    if ins.len() == 0 {
        Seq::empty()
    } else {
        let d = ins.drop_last();
        let prev = spec_spending_rows(txid, d, prevouts, start, height);
        let i = (ins.len() - 1) as nat;
        let txin = ins.last();
        if spec_has_prevout(txin) {
            let p = prevouts[start + spec_prevout_count(d)];
            let o = txin.previous_output;
            prev.push(
                (spending_key_bytes(sha256_of(p.script_pubkey@), height, txid, i, o, p.value), Seq::<u8>::empty()),
            ).push((edge_key_bytes(o, txid, i), Seq::<u8>::empty()))
        } else {
            prev
        }
    }
}

/// The history rows of one transaction confirmed at `height`.
pub open spec fn spec_index_tx_rows(
    tx: Transaction,
    height: u32,
    prevouts: Seq<TxOut>,
    start: int,
    cfg: IndexerConfig,
) -> Seq<RowView> {
    spec_funding_rows(tx.txid@, tx.output@, height, cfg) + spec_spending_rows(
        tx.txid@,
        tx.input@,
        prevouts,
        start,
        height,
    )
}

/// Appends the history rows of `tx`, confirmed at `confirmed_height`, whose
/// inputs spend `prevouts[start..]` in order.
#[verifier::rlimit(50)]
pub fn index_transaction(
    tx: &Transaction,
    confirmed_height: u32,
    prevouts: &[TxOut],
    start: usize,
    rows: &mut Vec<DBRow>,
    iconfig: &IndexerConfig,
)
    requires
        start + spec_prevout_count(tx.input@) <= prevouts@.len(),
    ensures
        rows_view(final(rows)@) == rows_view(old(rows)@) + spec_index_tx_rows(
            *tx,
            confirmed_height,
            prevouts@,
            start as int,
            *iconfig,
        ),
{
    let ghost start_rows = rows_view(rows@);
    let txid = tx.txid;
    let mut i: usize = 0;
    while i < tx.output.len()
        invariant
            i <= tx.output@.len(),
            txid == tx.txid,
            rows_view(rows@) == start_rows + spec_funding_rows(
                txid@,
                tx.output@.subrange(0, i as int),
                confirmed_height,
                *iconfig,
            ),
        decreases tx.output@.len() - i,
    {
        let txo = &tx.output[i];
        proof {
            let s = tx.output@.subrange(0, i + 1);
            assert(s.drop_last() =~= tx.output@.subrange(0, i as int));
        }
        if is_spendable(txo) || iconfig.index_unspendables {
            let history = TxHistoryRow::new(
                &txo.script_pubkey,
                confirmed_height,
                TxHistoryInfo::Funding(
                    FundingInfo { txid, vout: (i % 65536) as u16, value: txo.value },
                ),
            );
            let row = history.into_row();
            proof {
                assert(row.key@ =~= funding_key_bytes(
                    sha256_of(txo.script_pubkey@),
                    confirmed_height,
                    txid@,
                    i as nat,
                    txo.value,
                ));
            }
            push_row(rows, row);
            if iconfig.address_search {
                match addr_search_row(&txo.script_pubkey, iconfig.network) {
                    Some(row) => push_row(rows, row),
                    None => {},
                }
            }
        }
        i = i + 1;
    }
    assert(tx.output@.subrange(0, tx.output@.len() as int) =~= tx.output@);
    let ghost mid = rows_view(rows@);
    let mut j: usize = 0;
    let mut cursor: usize = start;
    while j < tx.input.len()
        invariant
            j <= tx.input@.len(),
            txid == tx.txid,
            start + spec_prevout_count(tx.input@) <= prevouts@.len(),
            cursor == start + spec_prevout_count(tx.input@.subrange(0, j as int)),
            rows_view(rows@) == mid + spec_spending_rows(
                txid@,
                tx.input@.subrange(0, j as int),
                prevouts@,
                start as int,
                confirmed_height,
            ),
        decreases tx.input@.len() - j,
    {
        let txi = &tx.input[j];
        proof {
            let s = tx.input@.subrange(0, j + 1);
            assert(s.drop_last() =~= tx.input@.subrange(0, j as int));
            lemma_prevout_count_prefix(tx.input@, j + 1);
        }
        if has_prevout(txi) {
            let prev_txo = &prevouts[cursor];
            let o = txi.previous_output;
            let history = TxHistoryRow::new(
                &prev_txo.script_pubkey,
                confirmed_height,
                TxHistoryInfo::Spending(
                    SpendingInfo {
                        txid,
                        vin: (j % 65536) as u16,
                        prev_txid: o.txid,
                        prev_vout: (o.vout % 65536) as u16,
                        value: prev_txo.value,
                    },
                ),
            );
            let row = history.into_row();
            proof {
                assert(row.key@ =~= spending_key_bytes(
                    sha256_of(prev_txo.script_pubkey@),
                    confirmed_height,
                    txid@,
                    j as nat,
                    o,
                    prev_txo.value,
                ));
            }
            push_row(rows, row);
            let edge = TxEdgeRow::new(o.txid, (o.vout % 65536) as u16, txid, (j % 65536) as u16);
            let erow = edge.into_row();
            proof {
                assert(erow.key@ =~= edge_key_bytes(o, txid@, j as nat));
            }
            push_row(rows, erow);
            cursor = cursor + 1;
        }
        j = j + 1;
    }
    assert(tx.input@.subrange(0, tx.input@.len() as int) =~= tx.input@);
    assert(rows_view(rows@) =~= start_rows + spec_index_tx_rows(
        *tx,
        confirmed_height,
        prevouts@,
        start as int,
        *iconfig,
    ));
}

/// The count over a prefix is at most the count over the whole.
pub proof fn lemma_prevout_count_prefix(ins: Seq<TxIn>, j: int)
    requires
        0 <= j <= ins.len(),
    ensures
        spec_prevout_count(ins.subrange(0, j)) <= spec_prevout_count(ins),
    decreases ins.len() - j,
{
    if j < ins.len() {
        lemma_prevout_count_prefix(ins, j + 1);
        let s = ins.subrange(0, j + 1);
        assert(s.drop_last() =~= ins.subrange(0, j));
    } else {
        assert(ins.subrange(0, j) =~= ins);
    }
}

} // verus!

verus! {

pub open spec fn spec_txs_prevout_count(txs: Seq<Transaction>) -> nat
    decreases txs.len(),
{
    if txs.len() == 0 {
        0
    } else {
        spec_txs_prevout_count(txs.drop_last()) + spec_prevout_count(txs.last().input@)
    }
}

pub open spec fn spec_blocks_prevout_count(blocks: Seq<BlockEntry>) -> nat
    decreases blocks.len(),
{
    if blocks.len() == 0 {
        0
    } else {
        spec_blocks_prevout_count(blocks.drop_last()) + spec_txs_prevout_count(
            blocks.last().block.txdata@,
        )
    }
}

/// The height a block's history rows are keyed by.
pub open spec fn spec_block_height(b: BlockEntry) -> u32 {
    (b.entry.height as nat % 0x1_0000_0000) as u32
}

pub open spec fn spec_index_txs_rows(
    txs: Seq<Transaction>,
    height: u32,
    prevouts: Seq<TxOut>,
    start: int,
    cfg: IndexerConfig,
) -> Seq<RowView>
    decreases txs.len(),
{
    if txs.len() == 0 {
        Seq::empty()
    } else {
        let d = txs.drop_last();
        spec_index_txs_rows(d, height, prevouts, start, cfg) + spec_index_tx_rows(
            txs.last(),
            height,
            prevouts,
            start + spec_txs_prevout_count(d),
            cfg,
        )
    }
}

/// The history rows of one block: those of its transactions, then its done marker.
pub open spec fn spec_index_block_rows(
    b: BlockEntry,
    prevouts: Seq<TxOut>,
    start: int,
    cfg: IndexerConfig,
) -> Seq<RowView> {
    spec_index_txs_rows(b.block.txdata@, spec_block_height(b), prevouts, start, cfg).push(
        (seq![CODE_DONE] + b.entry.hash@, Seq::<u8>::empty()),
    )
}

/// The history rows of a batch, where `prevouts` lists the outputs spent by the
/// batch's inputs in block, transaction and input order.
pub open spec fn spec_index_rows(blocks: Seq<BlockEntry>, prevouts: Seq<TxOut>, cfg: IndexerConfig) -> Seq<
    RowView,
>
    decreases blocks.len(),
{
    if blocks.len() == 0 {
        Seq::empty()
    } else {
        let d = blocks.drop_last();
        spec_index_rows(d, prevouts, cfg) + spec_index_block_rows(
            blocks.last(),
            prevouts,
            spec_blocks_prevout_count(d) as int,
            cfg,
        )
    }
}

/// The history rows of a batch of blocks, block after block.
#[verifier::rlimit(50)]
pub fn index_blocks(block_entries: &[BlockEntry], prevouts: &Vec<TxOut>, iconfig: &IndexerConfig) -> (r: Vec<DBRow>)
    requires
        spec_blocks_prevout_count(block_entries@) == prevouts@.len(),
    ensures
        rows_view(r@) == spec_index_rows(block_entries@, prevouts@, *iconfig),
{
    let mut rows: Vec<DBRow> = Vec::new();
    assert(rows_view(rows@) =~= Seq::<RowView>::empty());
    let plen = prevouts.len();
    let mut cursor: usize = 0;
    let mut i: usize = 0;
    while i < block_entries.len()
        invariant
            i <= block_entries@.len(),
            spec_blocks_prevout_count(block_entries@) == prevouts@.len(),
            plen == prevouts@.len(),
            cursor == spec_blocks_prevout_count(block_entries@.subrange(0, i as int)),
            rows_view(rows@) == spec_index_rows(
                block_entries@.subrange(0, i as int),
                prevouts@,
                *iconfig,
            ),
        decreases block_entries@.len() - i,
    {
        let b = &block_entries[i];
        proof {
            let s = block_entries@.subrange(0, i + 1);
            assert(s.drop_last() =~= block_entries@.subrange(0, i as int));
            lemma_blocks_count_prefix(block_entries@, i + 1);
        }
        let height = (b.entry.height as u64 % 0x1_0000_0000u64) as u32;
        let ghost block_start = rows_view(rows@);
        let txs = &b.block.txdata;
        let mut k: usize = 0;
        let ghost c0 = cursor as int;
        while k < txs.len()
            invariant
                k <= txs@.len(),
                *txs == b.block.txdata,
                *b == block_entries@[i as int],
                i < block_entries@.len(),
                height == spec_block_height(*b),
                c0 + spec_txs_prevout_count(txs@) <= prevouts@.len(),
                plen == prevouts@.len(),
                cursor == c0 + spec_txs_prevout_count(txs@.subrange(0, k as int)),
                rows_view(rows@) == block_start + spec_index_txs_rows(
                    txs@.subrange(0, k as int),
                    height,
                    prevouts@,
                    c0,
                    *iconfig,
                ),
            decreases txs@.len() - k,
        {
            proof {
                let s = txs@.subrange(0, k + 1);
                assert(s.drop_last() =~= txs@.subrange(0, k as int));
                assert(s.last() == txs@[k as int]);
                lemma_txs_count_prefix(txs@, k + 1);
            }
            index_transaction(&txs[k], height, prevouts.as_slice(), cursor, &mut rows, iconfig);
            cursor = cursor + prevout_count(&txs[k].input);
            k = k + 1;
        }
        assert(txs@.subrange(0, txs@.len() as int) =~= txs@);
        push_row(&mut rows, BlockRow::new_done(b.entry.hash).into_row());
        i = i + 1;
    }
    assert(block_entries@.subrange(0, block_entries@.len() as int) =~= block_entries@);
    rows
}

/// The number of inputs that spend a previous output.
pub fn prevout_count(ins: &Vec<TxIn>) -> (r: usize)
    ensures
        r == spec_prevout_count(ins@),
{
    let mut n: usize = 0;
    let mut i: usize = 0;
    while i < ins.len()
        invariant
            i <= ins@.len(),
            n == spec_prevout_count(ins@.subrange(0, i as int)),
            n <= i,
        decreases ins@.len() - i,
    {
        proof {
            let s = ins@.subrange(0, i + 1);
            assert(s.drop_last() =~= ins@.subrange(0, i as int));
        }
        if has_prevout(&ins[i]) {
            n = n + 1;
        }
        i = i + 1;
    }
    assert(ins@.subrange(0, ins@.len() as int) =~= ins@);
    n
}

pub proof fn lemma_txs_count_prefix(txs: Seq<Transaction>, j: int)
    requires
        0 <= j <= txs.len(),
    ensures
        spec_txs_prevout_count(txs.subrange(0, j)) <= spec_txs_prevout_count(txs),
    decreases txs.len() - j,
{
    if j < txs.len() {
        lemma_txs_count_prefix(txs, j + 1);
        let s = txs.subrange(0, j + 1);
        assert(s.drop_last() =~= txs.subrange(0, j));
    } else {
        assert(txs.subrange(0, j) =~= txs);
    }
}

pub proof fn lemma_blocks_count_prefix(blocks: Seq<BlockEntry>, j: int)
    requires
        0 <= j <= blocks.len(),
    ensures
        spec_blocks_prevout_count(blocks.subrange(0, j)) <= spec_blocks_prevout_count(blocks),
    decreases blocks.len() - j,
{
    if j < blocks.len() {
        lemma_blocks_count_prefix(blocks, j + 1);
        let s = blocks.subrange(0, j + 1);
        assert(s.drop_last() =~= blocks.subrange(0, j));
    } else {
        assert(blocks.subrange(0, j) =~= blocks);
    }
}

} // verus!

verus! {

/// The outputs spent by `ins`, in input order.
pub open spec fn spec_prev_outpoints(ins: Seq<TxIn>) -> Seq<OutPoint>
    decreases ins.len(),
{
    if ins.len() == 0 {
        Seq::empty()
    } else {
        let prev = spec_prev_outpoints(ins.drop_last());
        if spec_has_prevout(ins.last()) {
            prev.push(ins.last().previous_output)
        } else {
            prev
        }
    }
}

pub open spec fn spec_txs_prev_outpoints(txs: Seq<Transaction>) -> Seq<OutPoint>
    decreases txs.len(),
{
    if txs.len() == 0 {
        Seq::empty()
    } else {
        spec_txs_prev_outpoints(txs.drop_last()) + spec_prev_outpoints(txs.last().input@)
    }
}

/// The outputs spent by a batch, in block, transaction and input order.
pub open spec fn spec_blocks_prev_outpoints(blocks: Seq<BlockEntry>) -> Seq<OutPoint>
    decreases blocks.len(),
{
    if blocks.len() == 0 {
        Seq::empty()
    } else {
        spec_blocks_prev_outpoints(blocks.drop_last()) + spec_txs_prev_outpoints(
            blocks.last().block.txdata@,
        )
    }
}

/// The previous outputs that the inputs of a batch spend (coinbase inputs
/// excluded), in block, transaction and input order: the order in which
/// `index_blocks` consumes them.
#[verifier::rlimit(50)]
pub fn get_previous_txos(block_entries: &[BlockEntry]) -> (r: Vec<OutPoint>)
    ensures
        r@ == spec_blocks_prev_outpoints(block_entries@),
        r@.len() == spec_blocks_prevout_count(block_entries@),
{
    let mut r: Vec<OutPoint> = Vec::new();
    let mut i: usize = 0;
    while i < block_entries.len()
        invariant
            i <= block_entries@.len(),
            r@ == spec_blocks_prev_outpoints(block_entries@.subrange(0, i as int)),
        decreases block_entries@.len() - i,
    {
        let txs = &block_entries[i].block.txdata;
        let ghost before = r@;
        let mut k: usize = 0;
        while k < txs.len()
            invariant
                k <= txs@.len(),
                r@ == before + spec_txs_prev_outpoints(txs@.subrange(0, k as int)),
            decreases txs@.len() - k,
        {
            let ins = &txs[k].input;
            let ghost before_tx = r@;
            let mut j: usize = 0;
            while j < ins.len()
                invariant
                    j <= ins@.len(),
                    r@ == before_tx + spec_prev_outpoints(ins@.subrange(0, j as int)),
                decreases ins@.len() - j,
            {
                proof {
                    let s = ins@.subrange(0, j + 1);
                    assert(s.drop_last() =~= ins@.subrange(0, j as int));
                }
                if has_prevout(&ins[j]) {
                    r.push(ins[j].previous_output);
                }
                j = j + 1;
                assert(r@ =~= before_tx + spec_prev_outpoints(ins@.subrange(0, j as int)));
            }
            assert(ins@.subrange(0, ins@.len() as int) =~= ins@);
            proof {
                let s = txs@.subrange(0, k + 1);
                assert(s.drop_last() =~= txs@.subrange(0, k as int));
            }
            k = k + 1;
            assert(r@ =~= before + spec_txs_prev_outpoints(txs@.subrange(0, k as int)));
        }
        assert(txs@.subrange(0, txs@.len() as int) =~= txs@);
        proof {
            let s = block_entries@.subrange(0, i + 1);
            assert(s.drop_last() =~= block_entries@.subrange(0, i as int));
        }
        i = i + 1;
        assert(r@ =~= spec_blocks_prev_outpoints(block_entries@.subrange(0, i as int)));
    }
    assert(block_entries@.subrange(0, block_entries@.len() as int) =~= block_entries@);
    proof {
        lemma_blocks_prev_outpoints_len(block_entries@);
    }
    r
}

pub proof fn lemma_prev_outpoints_len(ins: Seq<TxIn>)
    ensures
        spec_prev_outpoints(ins).len() == spec_prevout_count(ins),
    decreases ins.len(),
{
    if ins.len() > 0 {
        lemma_prev_outpoints_len(ins.drop_last());
    }
}

pub proof fn lemma_txs_prev_outpoints_len(txs: Seq<Transaction>)
    ensures
        spec_txs_prev_outpoints(txs).len() == spec_txs_prevout_count(txs),
    decreases txs.len(),
{
    if txs.len() > 0 {
        lemma_txs_prev_outpoints_len(txs.drop_last());
        lemma_prev_outpoints_len(txs.last().input@);
    }
}

pub proof fn lemma_blocks_prev_outpoints_len(blocks: Seq<BlockEntry>)
    ensures
        spec_blocks_prev_outpoints(blocks).len() == spec_blocks_prevout_count(blocks),
    decreases blocks.len(),
{
    if blocks.len() > 0 {
        lemma_blocks_prev_outpoints_len(blocks.drop_last());
        lemma_txs_prev_outpoints_len(blocks.last().block.txdata@);
    }
}

/// What bitcoin's consensus decoding of a transaction output yields: its value
/// and its script, or `None` for bytes that are not exactly one output.
pub uninterp spec fn txout_decoding(raw: Seq<u8>) -> Option<(u64, Seq<u8>)>;

/// Relies on bitcoin's `consensus::deserialize::<TxOut>`, which fails unless the
/// bytes are exactly one serialized output.
#[verifier::external_body]
fn decode_txout(raw: &Vec<u8>) -> (r: Option<TxOut>)
    ensures
        match txout_decoding(raw@) {
            Some((v, s)) => r matches Some(t) && t.value == v && t.script_pubkey@ == s && t.raw@
                == raw@,
            None => r is None,
        },
{
    bitcoin::consensus::deserialize::<bitcoin::TxOut>(raw).ok().map(
        |t| TxOut { value: t.value, script_pubkey: t.script_pubkey.into_bytes(), raw: raw.clone() },
    )
}

/// `t` is what the stored value `stored` decodes to.
pub open spec fn spec_stored_txo(stored: Option<Vec<u8>>, t: TxOut) -> bool {
    match stored {
        Some(v) => txout_decoding(v@) == Some((t.value, t.script_pubkey@)) && t.raw@ == v@,
        None => false,
    }
}

/// A value was found and it decodes to an output.
pub open spec fn spec_decodes(stored: Option<Vec<u8>>) -> bool {
    match stored {
        Some(v) => txout_decoding(v@) is Some,
        None => false,
    }
}

/// Why the index pass could not go on.
#[derive(Debug, Copy, Clone)]
pub enum IndexError {
    /// A spent output is not in the transaction store.
    MissingTxo(OutPoint),
    /// A stored output does not decode.
    InvalidTxo(OutPoint),
}

/// The positions of `stored` where a value was found, in order.
pub open spec fn spec_found(stored: Seq<Option<Vec<u8>>>) -> Seq<int>
    decreases stored.len(),
{
    if stored.len() == 0 {
        Seq::empty()
    } else {
        let p = spec_found(stored.drop_last());
        if stored.last() is Some {
            p.push(stored.len() - 1)
        } else {
            p
        }
    }
}

/// Turns the stored values found for `outpoints` (`None` where no row was
/// found) into the outputs they hold, each with its outpoint, in order. A
/// missing output is skipped when `allow_missing` is set and fails the lookup
/// otherwise; one that does not decode always fails it.
#[verifier::rlimit(50)]
pub fn lookup_txos(outpoints: &Vec<OutPoint>, stored: &Vec<Option<Vec<u8>>>, allow_missing: bool) -> (r:
    Result<Vec<(OutPoint, TxOut)>, IndexError>)
    requires
        stored@.len() == outpoints@.len(),
    ensures
        match r {
            Ok(v) => v@.len() == spec_found(stored@).len() && forall|k: int|
                0 <= k < v@.len() ==> (#[trigger] v@[k]).0 == outpoints@[spec_found(stored@)[k]]
                    && spec_stored_txo(stored@[spec_found(stored@)[k]], v@[k].1),
            Err(IndexError::MissingTxo(o)) => !allow_missing && exists|i: int|
                0 <= i < outpoints@.len() && outpoints@[i] == o && stored@[i] is None,
            Err(IndexError::InvalidTxo(o)) => exists|i: int|
                0 <= i < outpoints@.len() && outpoints@[i] == o && stored@[i] is Some
                    && !spec_decodes(stored@[i]),
        },
        !allow_missing ==> (r matches Ok(v) ==> v@.len() == outpoints@.len() && forall|k: int|
            0 <= k < v@.len() ==> (#[trigger] v@[k]).0 == outpoints@[k] && spec_stored_txo(
                stored@[k],
                v@[k].1,
            )),
        (forall|i: int| 0 <= i < stored@.len() ==> (#[trigger] stored@[i]) is None || spec_decodes(stored@[i]))
            && (allow_missing || forall|i: int| 0 <= i < stored@.len() ==> (#[trigger] stored@[i]) is Some)
            ==> r is Ok,
{
    let mut found: Vec<(OutPoint, TxOut)> = Vec::new();
    let mut i: usize = 0;
    while i < outpoints.len()
        invariant
            stored@.len() == outpoints@.len(),
            i <= outpoints@.len(),
            found@.len() == spec_found(stored@.subrange(0, i as int)).len(),
            forall|k: int|
                0 <= k < found@.len() ==> (#[trigger] found@[k]).0 == outpoints@[spec_found(
                    stored@.subrange(0, i as int),
                )[k]] && spec_stored_txo(stored@[spec_found(stored@.subrange(0, i as int))[k]], found@[k].1),
            forall|k: int| 0 <= k < spec_found(stored@.subrange(0, i as int)).len() ==> 0 <= #[trigger] spec_found(stored@.subrange(0, i as int))[k] < i,
            !allow_missing ==> spec_found(stored@.subrange(0, i as int)).len() == i && forall|k: int|
                0 <= k < i ==> #[trigger] spec_found(stored@.subrange(0, i as int))[k] == k,
        decreases outpoints@.len() - i,
    {
        let ghost pre = spec_found(stored@.subrange(0, i as int));
        proof {
            let s = stored@.subrange(0, i + 1);
            assert(s.drop_last() =~= stored@.subrange(0, i as int));
            assert(s.last() == stored@[i as int]);
        }
        match &stored[i] {
            None => {
                if !allow_missing {
                    return Err(IndexError::MissingTxo(outpoints[i]));
                }
            },
            Some(v) => match decode_txout(v) {
                Some(t) => {
                    found.push((outpoints[i], t));
                },
                None => {
                    return Err(IndexError::InvalidTxo(outpoints[i]));
                },
            },
        }
        i = i + 1;
    }
    assert(stored@.subrange(0, stored@.len() as int) =~= stored@);
    Ok(found)
}

/// Whether every block of a batch is marked done (the add pass must have
/// stored a block before the index pass may read its outputs).
pub fn all_done(done: &Vec<bool>) -> (r: bool)
    ensures
        r == forall|i: int| 0 <= i < done@.len() ==> #[trigger] done@[i],
{
    let mut i: usize = 0;
    while i < done.len()
        invariant
            i <= done@.len(),
            forall|k: int| 0 <= k < i ==> #[trigger] done@[k],
        decreases done@.len() - i,
    {
        if !done[i] {
            return false;
        }
        i = i + 1;
    }
    true
}

/// The entries of `new_headers` whose flag in `done` is false, in order: the
/// blocks still to be added (or indexed) when `done[i]` says whether
/// `new_headers[i]` already was.
pub open spec fn spec_not_done(new_headers: Seq<HeaderEntry>, done: Seq<bool>) -> Seq<HeaderEntry>
    decreases new_headers.len(),
{
    if new_headers.len() == 0 {
        Seq::empty()
    } else {
        let prev = spec_not_done(new_headers.drop_last(), done);
        if done[new_headers.len() - 1] {
            prev
        } else {
            prev.push(new_headers.last())
        }
    }
}

/// The headers of `new_headers` that are not yet done, in order.
#[verifier::rlimit(50)]
pub fn headers_not_done(new_headers: &[HeaderEntry], done: &Vec<bool>) -> (r: Vec<HeaderEntry>)
    requires
        done@.len() == new_headers@.len(),
    ensures
        r@.len() == spec_not_done(new_headers@, done@).len(),
        forall|i: int|
            0 <= i < r@.len() ==> (#[trigger] r@[i]).height == spec_not_done(new_headers@, done@)[i].height
                && r@[i].hash == spec_not_done(new_headers@, done@)[i].hash && r@[i].header@
                == spec_not_done(new_headers@, done@)[i].header@,
{
    let mut r: Vec<HeaderEntry> = Vec::new();
    let mut i: usize = 0;
    while i < new_headers.len()
        invariant
            done@.len() == new_headers@.len(),
            i <= new_headers@.len(),
            r@.len() == spec_not_done(new_headers@.subrange(0, i as int), done@).len(),
            forall|k: int|
                0 <= k < r@.len() ==> (#[trigger] r@[k]).height == spec_not_done(
                    new_headers@.subrange(0, i as int),
                    done@,
                )[k].height && r@[k].hash == spec_not_done(new_headers@.subrange(0, i as int), done@)[k].hash
                    && r@[k].header@ == spec_not_done(new_headers@.subrange(0, i as int), done@)[k].header@,
        decreases new_headers@.len() - i,
    {
        proof {
            let s = new_headers@.subrange(0, i + 1);
            assert(s.drop_last() =~= new_headers@.subrange(0, i as int));
        }
        if !done[i] {
            let e = &new_headers[i];
            r.push(HeaderEntry { height: e.height, hash: e.hash, header: e.header.clone() });
        }
        i = i + 1;
    }
    assert(new_headers@.subrange(0, new_headers@.len() as int) =~= new_headers@);
    r
}

} // verus!

verus! {

// ------------------------------------------------------------------- laws

/// Rows that light mode keeps: all but the `T`, `X` and `M` rows.
pub open spec fn kept_in_light_mode(r: RowView) -> bool {
    r.0.len() > 0 && r.0[0] != CODE_TX && r.0[0] != CODE_TXIDS && r.0[0] != CODE_META
}

#[verifier::rlimit(50)]
proof fn lemma_txout_rows_kept(txid: Seq<u8>, outs: Seq<TxOut>)
    ensures
        spec_txout_rows(txid, outs).filter(|r: RowView| kept_in_light_mode(r)) == spec_txout_rows(
            txid,
            outs,
        ),
    decreases outs.len(),
{
    reveal(Seq::filter);
    if outs.len() > 0 {
        lemma_txout_rows_kept(txid, outs.drop_last());
        let all = spec_txout_rows(txid, outs);
        let prev = spec_txout_rows(txid, outs.drop_last());
        if spec_is_spendable(outs.last()) {
            let key = txout_key_bytes(txid, (outs.len() - 1) as nat);
            assert(key[0] == crate::schema::CODE_TXOUT);
            assert(all.drop_last() =~= prev);
            assert(kept_in_light_mode(all.last()));
        }
    }
}

#[verifier::rlimit(50)]
proof fn lemma_light_tx(tx: Transaction, bh: Seq<u8>)
    ensures
        spec_add_tx_rows(tx, bh, false).filter(|r: RowView| kept_in_light_mode(r)) == spec_add_tx_rows(
            tx,
            bh,
            true,
        ),
{
    let f = |r: RowView| kept_in_light_mode(r);
    let c = seq![(seq![CODE_CONF] + tx.txid@ + bh, Seq::<u8>::empty())];
    let t = seq![(seq![CODE_TX] + tx.txid@, tx.raw@)];
    let o = spec_txout_rows(tx.txid@, tx.output@);
    reveal(Seq::filter);
    Seq::filter_distributes_over_add(c + t, o, f);
    Seq::filter_distributes_over_add(c, t, f);
    assert(c.filter(f) =~= c) by {
        reveal_with_fuel(Seq::filter, 2);
        assert(c.drop_last() =~= Seq::<RowView>::empty());
    }
    assert(t.filter(f) =~= Seq::<RowView>::empty()) by {
        reveal_with_fuel(Seq::filter, 2);
        assert(t.drop_last() =~= Seq::<RowView>::empty());
    }
    lemma_txout_rows_kept(tx.txid@, tx.output@);
    assert(spec_add_tx_rows(tx, bh, false) =~= c + t + o);
    assert(spec_add_tx_rows(tx, bh, true) =~= c + o);
}

#[verifier::rlimit(50)]
proof fn lemma_light_txs(txs: Seq<Transaction>, bh: Seq<u8>)
    ensures
        spec_add_txs_rows(txs, bh, false).filter(|r: RowView| kept_in_light_mode(r)) == spec_add_txs_rows(
            txs,
            bh,
            true,
        ),
    decreases txs.len(),
{
    if txs.len() > 0 {
        lemma_light_txs(txs.drop_last(), bh);
        lemma_light_tx(txs.last(), bh);
        Seq::filter_distributes_over_add(
            spec_add_txs_rows(txs.drop_last(), bh, false),
            spec_add_tx_rows(txs.last(), bh, false),
            |r: RowView| kept_in_light_mode(r),
        );
    } else {
        reveal(Seq::filter);
    }
}

#[verifier::spinoff_prover]
proof fn lemma_light_block(b: BlockEntry)
    ensures
        spec_add_block_rows(b, false).filter(|r: RowView| kept_in_light_mode(r)) == spec_add_block_rows(
            b,
            true,
        ),
{
    let f = |r: RowView| kept_in_light_mode(r);
    let bh = b.entry.hash@;
    let txs = spec_add_txs_rows(b.block.txdata@, bh, false);
    let xm = seq![
        (seq![CODE_TXIDS] + bh, le_bytes(b.block.txdata@.len() as nat, 8) + txids_bytes(spec_txids(b.block.txdata@))),
        (seq![CODE_META] + bh, spec_meta(b).spec_bytes()),
    ];
    let bd = seq![(seq![CODE_HEADER] + bh, b.block.header@), (seq![CODE_DONE] + bh, Seq::<u8>::empty())];
    lemma_light_txs(b.block.txdata@, bh);
    Seq::filter_distributes_over_add(txs + xm, bd, f);
    Seq::filter_distributes_over_add(txs, xm, f);
    assert(xm.filter(f) =~= Seq::<RowView>::empty()) by {
        reveal_with_fuel(Seq::filter, 3);
        assert(xm.drop_last().drop_last() =~= Seq::<RowView>::empty());
    }
    assert(bd.filter(f) =~= bd) by {
        reveal_with_fuel(Seq::filter, 3);
        assert(bd.drop_last().drop_last() =~= Seq::<RowView>::empty());
        assert(bd.drop_last() =~= seq![bd[0]]);
    }
    assert(spec_add_block_rows(b, false) =~= txs + xm + bd);
    assert(spec_add_block_rows(b, true) =~= spec_add_txs_rows(b.block.txdata@, bh, true) + bd);
}

/// Light mode writes exactly the rows of full mode less those whose key starts
/// with `T`, `X` or `M`, in the same order.
#[verifier::spinoff_prover]
pub proof fn light_mode_omits_exactly_t_x_m(blocks: Seq<BlockEntry>)
    ensures
        spec_add_rows(blocks, true) == spec_add_rows(blocks, false).filter(
            |r: RowView| kept_in_light_mode(r),
        ),
    decreases blocks.len(),
{
    if blocks.len() > 0 {
        light_mode_omits_exactly_t_x_m(blocks.drop_last());
        lemma_light_block(blocks.last());
        Seq::filter_distributes_over_add(
            spec_add_rows(blocks.drop_last(), false),
            spec_add_block_rows(blocks.last(), false),
            |r: RowView| kept_in_light_mode(r),
        );
    } else {
        reveal(Seq::filter);
    }
}

#[verifier::rlimit(50)]
proof fn lemma_txout_rows_contain(txid: Seq<u8>, outs: Seq<TxOut>, i: int)
    requires
        0 <= i < outs.len(),
        spec_is_spendable(outs[i]),
    ensures
        spec_txout_rows(txid, outs).contains((txout_key_bytes(txid, i as nat), outs[i].raw@)),
    decreases outs.len(),
{
    let row = (txout_key_bytes(txid, i as nat), outs[i].raw@);
    if i == outs.len() - 1 {
        assert(spec_txout_rows(txid, outs).last() == row);
    } else {
        lemma_txout_rows_contain(txid, outs.drop_last(), i);
        let prev = spec_txout_rows(txid, outs.drop_last());
        let k = choose|k: int| 0 <= k < prev.len() && prev[k] == row;
        assert(spec_txout_rows(txid, outs)[k] == row);
    }
}

#[verifier::rlimit(50)]
proof fn lemma_funding_rows_contain(txid: Seq<u8>, outs: Seq<TxOut>, height: u32, cfg: IndexerConfig, i: int)
    requires
        0 <= i < outs.len(),
        spec_indexed_output(outs[i], cfg),
    ensures
        spec_funding_rows(txid, outs, height, cfg).contains(
            (
                funding_key_bytes(sha256_of(outs[i].script_pubkey@), height, txid, i as nat, outs[i].value),
                Seq::<u8>::empty(),
            ),
        ),
    decreases outs.len(),
{
    let row = (
        funding_key_bytes(sha256_of(outs[i].script_pubkey@), height, txid, i as nat, outs[i].value),
        Seq::<u8>::empty(),
    );
    let all = spec_funding_rows(txid, outs, height, cfg);
    let prev = spec_funding_rows(txid, outs.drop_last(), height, cfg);
    if i == outs.len() - 1 {
        assert(all[prev.len() as int] == row);
    } else {
        lemma_funding_rows_contain(txid, outs.drop_last(), height, cfg, i);
        let k = choose|k: int| 0 <= k < prev.len() && prev[k] == row;
        assert(all[k] == row);
    }
}

/// Every funding row has its output row: for an output that is spendable, the
/// add pass writes `O{txid}{vout}` holding the output, the index pass writes a
/// funding row for it, and (where the stored bytes are that output's encoding)
/// they decode to a script whose SHA-256 is the row's script hash and to the
/// row's value.
#[verifier::spinoff_prover]
pub proof fn funding_row_has_output_row(
    tx: Transaction,
    blockhash: Seq<u8>,
    height: u32,
    prevouts: Seq<TxOut>,
    start: int,
    cfg: IndexerConfig,
    vout: int,
)
    requires
        0 <= vout < tx.output@.len(),
        spec_is_spendable(tx.output@[vout]),
        txout_decoding(tx.output@[vout].raw@) == Some(
            (tx.output@[vout].value, tx.output@[vout].script_pubkey@),
        ),
    ensures
        ({
            let out = tx.output@[vout];
            let sh = sha256_of(out.script_pubkey@);
            &&& spec_add_tx_rows(tx, blockhash, cfg.light_mode).contains(
                (txout_key_bytes(tx.txid@, vout as nat), out.raw@),
            )
            &&& spec_index_tx_rows(tx, height, prevouts, start, cfg).contains(
                (funding_key_bytes(sh, height, tx.txid@, vout as nat, out.value), Seq::<u8>::empty()),
            )
            &&& txout_decoding(out.raw@) matches Some((v, s)) && sha256_of(s) == sh && v == out.value
        }),
{
    let out = tx.output@[vout];
    lemma_txout_rows_contain(tx.txid@, tx.output@, vout);
    lemma_funding_rows_contain(tx.txid@, tx.output@, height, cfg, vout);
    let c = seq![(seq![CODE_CONF] + tx.txid@ + blockhash, Seq::<u8>::empty())] + (if cfg.light_mode {
        Seq::empty()
    } else {
        seq![(seq![CODE_TX] + tx.txid@, tx.raw@)]
    });
    let o = spec_txout_rows(tx.txid@, tx.output@);
    let row = (txout_key_bytes(tx.txid@, vout as nat), out.raw@);
    let k = choose|k: int| 0 <= k < o.len() && o[k] == row;
    assert((c + o)[c.len() + k] == row);
    let f = spec_funding_rows(tx.txid@, tx.output@, height, cfg);
    let s = spec_spending_rows(tx.txid@, tx.input@, prevouts, start, height);
    let frow = (
        funding_key_bytes(sha256_of(out.script_pubkey@), height, tx.txid@, vout as nat, out.value),
        Seq::<u8>::empty(),
    );
    let m = choose|m: int| 0 <= m < f.len() && f[m] == frow;
    assert((f + s)[m] == frow);
}

#[verifier::rlimit(50)]
proof fn lemma_spending_rows_contain(
    txid: Seq<u8>,
    ins: Seq<TxIn>,
    prevouts: Seq<TxOut>,
    start: int,
    height: u32,
    j: int,
)
    requires
        0 <= j < ins.len(),
        spec_has_prevout(ins[j]),
    ensures
        ({
            let p = prevouts[start + spec_prevout_count(ins.subrange(0, j))];
            spec_spending_rows(txid, ins, prevouts, start, height).contains(
                (
                    spending_key_bytes(
                        sha256_of(p.script_pubkey@),
                        height,
                        txid,
                        j as nat,
                        ins[j].previous_output,
                        p.value,
                    ),
                    Seq::<u8>::empty(),
                ),
            )
        }),
    decreases ins.len(),
{
    let d = ins.drop_last();
    let all = spec_spending_rows(txid, ins, prevouts, start, height);
    let prev = spec_spending_rows(txid, d, prevouts, start, height);
    if j == ins.len() - 1 {
        assert(ins.subrange(0, j) =~= d);
        assert(all[prev.len() as int] == all[all.len() - 2]);
    } else {
        lemma_spending_rows_contain(txid, d, prevouts, start, height, j);
        assert(d.subrange(0, j) =~= ins.subrange(0, j));
        let p = prevouts[start + spec_prevout_count(ins.subrange(0, j))];
        let row = (
            spending_key_bytes(sha256_of(p.script_pubkey@), height, txid, j as nat, ins[j].previous_output, p.value),
            Seq::<u8>::empty(),
        );
        let k = choose|k: int| 0 <= k < prev.len() && prev[k] == row;
        assert(all[k] == row);
    }
}

/// Spending rows pair with funding rows: when input `vin` of `spender` spends
/// output `vout` of `funder`, and the previous output handed to the index pass
/// for that input is that output, the spending row and the funding row of the
/// output carry the same script hash, the same outpoint and the same value.
/// (That the funding row's height is at most the spending row's comes from the
/// chain, `funding_height <= spending_height`.)
#[verifier::spinoff_prover]
pub proof fn spending_row_matches_funding_row(
    funder: Transaction,
    funding_height: u32,
    spender: Transaction,
    spending_height: u32,
    prevouts: Seq<TxOut>,
    start: int,
    cfg: IndexerConfig,
    vin: int,
    fprevouts: Seq<TxOut>,
    fstart: int,
)
    requires
        0 <= vin < spender.input@.len(),
        spec_has_prevout(spender.input@[vin]),
        spender.input@[vin].previous_output.txid == funder.txid,
        spender.input@[vin].previous_output.vout < funder.output@.len(),
        spec_is_spendable(funder.output@[spender.input@[vin].previous_output.vout as int]),
        prevouts[start + spec_prevout_count(spender.input@.subrange(0, vin))] == funder.output@[spender.input@[vin].previous_output.vout as int],
        funding_height <= spending_height,
    ensures
        ({
            let o = spender.input@[vin].previous_output;
            let out = funder.output@[o.vout as int];
            let sh = sha256_of(out.script_pubkey@);
            &&& spec_index_tx_rows(spender, spending_height, prevouts, start, cfg).contains(
                (spending_key_bytes(sh, spending_height, spender.txid@, vin as nat, o, out.value), Seq::<u8>::empty()),
            )
            &&& spec_index_tx_rows(funder, funding_height, fprevouts, fstart, cfg).contains(
                (funding_key_bytes(sh, funding_height, o.txid@, o.vout as nat, out.value), Seq::<u8>::empty()),
            )
        }),
{
    let o = spender.input@[vin].previous_output;
    let vout = o.vout as int;
    let out = funder.output@[vout];
    lemma_spending_rows_contain(spender.txid@, spender.input@, prevouts, start, spending_height, vin);
    lemma_funding_rows_contain(funder.txid@, funder.output@, funding_height, cfg, vout);
    let f1 = spec_funding_rows(spender.txid@, spender.output@, spending_height, cfg);
    let s1 = spec_spending_rows(spender.txid@, spender.input@, prevouts, start, spending_height);
    let srow = (spending_key_bytes(sha256_of(out.script_pubkey@), spending_height, spender.txid@, vin as nat, o, out.value), Seq::<u8>::empty());
    let k = choose|k: int| 0 <= k < s1.len() && s1[k] == srow;
    assert((f1 + s1)[f1.len() + k] == srow);
    let f2 = spec_funding_rows(funder.txid@, funder.output@, funding_height, cfg);
    let s2 = spec_spending_rows(funder.txid@, funder.input@, fprevouts, fstart, funding_height);
    let frow = (funding_key_bytes(sha256_of(out.script_pubkey@), funding_height, funder.txid@, vout as nat, out.value), Seq::<u8>::empty());
    let m = choose|m: int| 0 <= m < f2.len() && f2[m] == frow;
    assert((f2 + s2)[m] == frow);
}

/// Once every block of `new_headers` is marked done, nothing is left to add or
/// index: a second run right after a successful one writes no rows.
pub proof fn rerun_after_success_is_noop(new_headers: Seq<HeaderEntry>, done: Seq<bool>)
    requires
        done.len() == new_headers.len(),
        forall|i: int| 0 <= i < done.len() ==> done[i],
    ensures
        spec_not_done(new_headers, done).len() == 0,
    decreases new_headers.len(),
{
    if new_headers.len() > 0 {
        rerun_after_success_is_noop(new_headers.drop_last(), done.subrange(0, done.len() - 1));
        lemma_not_done_prefix(new_headers.drop_last(), done);
    }
}

proof fn lemma_not_done_prefix(hs: Seq<HeaderEntry>, done: Seq<bool>)
    requires
        hs.len() < done.len(),
    ensures
        spec_not_done(hs, done) == spec_not_done(hs, done.subrange(0, done.len() - 1)),
    decreases hs.len(),
{
    if hs.len() > 0 {
        lemma_not_done_prefix(hs.drop_last(), done);
    }
}

} // verus!

verus! {

/// Rows whose key starts with `code`.
pub open spec fn has_code(r: RowView, code: u8) -> bool {
    r.0.len() > 0 && r.0[0] == code
}

/// One `(code{hash}, value)` row per block, in batch order.
pub open spec fn spec_block_marker_rows(blocks: Seq<BlockEntry>, code: u8) -> Seq<RowView>
    decreases blocks.len(),
{
    if blocks.len() == 0 {
        Seq::empty()
    } else {
        spec_block_marker_rows(blocks.drop_last(), code).push(
            (
                seq![code] + blocks.last().entry.hash@,
                if code == CODE_HEADER {
                    blocks.last().block.header@
                } else {
                    Seq::<u8>::empty()
                },
            ),
        )
    }
}

proof fn lemma_filter_none<A>(s: Seq<A>, f: spec_fn(A) -> bool)
    requires
        forall|i: int| 0 <= i < s.len() ==> !f(#[trigger] s[i]),
    ensures
        s.filter(f) == Seq::<A>::empty(),
    decreases s.len(),
{
    reveal(Seq::filter);
    if s.len() > 0 {
        lemma_filter_none(s.drop_last(), f);
    }
    assert(s.filter(f) =~= Seq::<A>::empty());
}

proof fn lemma_txout_rows_code(txid: Seq<u8>, outs: Seq<TxOut>)
    ensures
        forall|i: int|
            0 <= i < spec_txout_rows(txid, outs).len() ==> has_code(
                #[trigger] spec_txout_rows(txid, outs)[i],
                crate::schema::CODE_TXOUT,
            ),
    decreases outs.len(),
{
    if outs.len() > 0 {
        lemma_txout_rows_code(txid, outs.drop_last());
        let prev = spec_txout_rows(txid, outs.drop_last());
        let all = spec_txout_rows(txid, outs);
        if spec_is_spendable(outs.last()) {
            let key = txout_key_bytes(txid, (outs.len() - 1) as nat);
            assert(key[0] == crate::schema::CODE_TXOUT);
            assert forall|i: int| 0 <= i < all.len() implies has_code(
                #[trigger] all[i],
                crate::schema::CODE_TXOUT,
            ) by {
                if i < prev.len() {
                    assert(all[i] == prev[i]);
                }
            }
        }
    }
}

#[verifier::rlimit(50)]
proof fn lemma_add_txs_rows_codes(txs: Seq<Transaction>, bh: Seq<u8>, light: bool)
    ensures
        forall|i: int|
            0 <= i < spec_add_txs_rows(txs, bh, light).len() ==> {
                let r = #[trigger] spec_add_txs_rows(txs, bh, light)[i];
                has_code(r, CODE_CONF) || has_code(r, CODE_TX) || has_code(r, crate::schema::CODE_TXOUT)
            },
    decreases txs.len(),
{
    if txs.len() > 0 {
        lemma_add_txs_rows_codes(txs.drop_last(), bh, light);
        let tx = txs.last();
        lemma_txout_rows_code(tx.txid@, tx.output@);
        let prev = spec_add_txs_rows(txs.drop_last(), bh, light);
        let t = spec_add_tx_rows(tx, bh, light);
        let c = seq![(seq![CODE_CONF] + tx.txid@ + bh, Seq::<u8>::empty())] + (if light {
            Seq::empty()
        } else {
            seq![(seq![CODE_TX] + tx.txid@, tx.raw@)]
        });
        let o = spec_txout_rows(tx.txid@, tx.output@);
        assert(t =~= c + o);
        assert forall|i: int| 0 <= i < (prev + t).len() implies {
            let r = #[trigger] (prev + t)[i];
            has_code(r, CODE_CONF) || has_code(r, CODE_TX) || has_code(r, crate::schema::CODE_TXOUT)
        } by {
            if i >= prev.len() {
                let k = i - prev.len();
                if k >= c.len() {
                    assert(t[k] == o[k - c.len()]);
                }
            }
        }
    }
}

proof fn lemma_add_txs_no_marker(txs: Seq<Transaction>, bh: Seq<u8>, light: bool, code: u8)
    requires
        code == CODE_HEADER || code == CODE_DONE,
    ensures
        spec_add_txs_rows(txs, bh, light).filter(|r: RowView| has_code(r, code)) == Seq::<RowView>::empty(),
{
    let f = |r: RowView| has_code(r, code);
    let rows = spec_add_txs_rows(txs, bh, light);
    lemma_add_txs_rows_codes(txs, bh, light);
    assert forall|i: int| 0 <= i < rows.len() implies !f(#[trigger] rows[i]) by {
        let r = rows[i];
        assert(has_code(r, CODE_CONF) || has_code(r, CODE_TX) || has_code(r, crate::schema::CODE_TXOUT));
    }
    lemma_filter_none(rows, f);
}

proof fn lemma_block_stats_no_marker(b: BlockEntry, light: bool, code: u8)
    requires
        code == CODE_HEADER || code == CODE_DONE,
    ensures
        spec_block_stats_rows(b, light).filter(|r: RowView| has_code(r, code)) == Seq::<RowView>::empty(),
{
    let f = |r: RowView| has_code(r, code);
    let xm = spec_block_stats_rows(b, light);
    assert forall|i: int| 0 <= i < xm.len() implies !f(#[trigger] xm[i]) by {
        assert(xm[i].0[0] == CODE_TXIDS || xm[i].0[0] == CODE_META);
    }
    lemma_filter_none(xm, f);
}

/// The `X` and `M` rows of a block (none in light mode).
pub open spec fn spec_block_stats_rows(b: BlockEntry, light: bool) -> Seq<RowView> {
    if light {
        Seq::empty()
    } else {
        let bh = b.entry.hash@;
        seq![
            (seq![CODE_TXIDS] + bh, le_bytes(b.block.txdata@.len() as nat, 8) + txids_bytes(spec_txids(b.block.txdata@))),
            (seq![CODE_META] + bh, spec_meta(b).spec_bytes()),
        ]
    }
}

#[verifier::spinoff_prover]
#[verifier::rlimit(50)]
proof fn lemma_add_block_markers(b: BlockEntry, light: bool, code: u8)
    requires
        code == CODE_HEADER || code == CODE_DONE,
    ensures
        spec_add_block_rows(b, light).filter(|r: RowView| has_code(r, code)) == seq![
            (
                seq![code] + b.entry.hash@,
                if code == CODE_HEADER {
                    b.block.header@
                } else {
                    Seq::<u8>::empty()
                },
            ),
        ],
{
    let f = |r: RowView| has_code(r, code);
    let bh = b.entry.hash@;
    let txs = spec_add_txs_rows(b.block.txdata@, bh, light);
    let xm = spec_block_stats_rows(b, light);
    let bd = seq![(seq![CODE_HEADER] + bh, b.block.header@), (seq![CODE_DONE] + bh, Seq::<u8>::empty())];
    assert(spec_add_block_rows(b, light) =~= txs + xm + bd);
    lemma_add_txs_no_marker(b.block.txdata@, bh, light, code);
    lemma_block_stats_no_marker(b, light, code);
    Seq::filter_distributes_over_add(txs + xm, bd, f);
    Seq::filter_distributes_over_add(txs, xm, f);
    lemma_marker_pair_filter(bh, b.block.header@, code);
    assert(Seq::<RowView>::empty() + Seq::<RowView>::empty() + bd.filter(f) =~= bd.filter(f));
}

proof fn lemma_marker_pair_filter(bh: Seq<u8>, header: Seq<u8>, code: u8)
    requires
        code == CODE_HEADER || code == CODE_DONE,
    ensures
        seq![(seq![CODE_HEADER] + bh, header), (seq![CODE_DONE] + bh, Seq::<u8>::empty())].filter(
            |r: RowView| has_code(r, code),
        ) == seq![
            (
                seq![code] + bh,
                if code == CODE_HEADER {
                    header
                } else {
                    Seq::<u8>::empty()
                },
            ),
        ],
{
    let bd = seq![(seq![CODE_HEADER] + bh, header), (seq![CODE_DONE] + bh, Seq::<u8>::empty())];
    let f = |r: RowView| has_code(r, code);
    reveal_with_fuel(Seq::filter, 3);
    assert(bd.drop_last().drop_last() =~= Seq::<RowView>::empty());
    assert(bd.drop_last() =~= seq![bd[0]]);
    assert(bd.filter(f) =~= seq![
        (
            seq![code] + bh,
            if code == CODE_HEADER {
                header
            } else {
                Seq::<u8>::empty()
            },
        ),
    ]);
}

/// After the add pass over a batch, its `B` rows are exactly one header row per
/// block and its `D` rows exactly one done marker per block, in batch order
/// (whatever the mode): scanning `B` or `D` keys finds each block once.
#[verifier::spinoff_prover]
pub proof fn add_pass_marks_every_block(blocks: Seq<BlockEntry>, light: bool)
    ensures
        spec_add_rows(blocks, light).filter(|r: RowView| has_code(r, CODE_HEADER))
            == spec_block_marker_rows(blocks, CODE_HEADER),
        spec_add_rows(blocks, light).filter(|r: RowView| has_code(r, CODE_DONE))
            == spec_block_marker_rows(blocks, CODE_DONE),
    decreases blocks.len(),
{
    if blocks.len() > 0 {
        add_pass_marks_every_block(blocks.drop_last(), light);
        lemma_add_block_markers(blocks.last(), light, CODE_HEADER);
        lemma_add_block_markers(blocks.last(), light, CODE_DONE);
        Seq::filter_distributes_over_add(
            spec_add_rows(blocks.drop_last(), light),
            spec_add_block_rows(blocks.last(), light),
            |r: RowView| has_code(r, CODE_HEADER),
        );
        Seq::filter_distributes_over_add(
            spec_add_rows(blocks.drop_last(), light),
            spec_add_block_rows(blocks.last(), light),
            |r: RowView| has_code(r, CODE_DONE),
        );
        assert(spec_block_marker_rows(blocks, CODE_HEADER) =~= spec_block_marker_rows(blocks.drop_last(), CODE_HEADER) + seq![
            (seq![CODE_HEADER] + blocks.last().entry.hash@, blocks.last().block.header@),
        ]);
        assert(spec_block_marker_rows(blocks, CODE_DONE) =~= spec_block_marker_rows(blocks.drop_last(), CODE_DONE) + seq![
            (seq![CODE_DONE] + blocks.last().entry.hash@, Seq::<u8>::empty()),
        ]);
    } else {
        reveal(Seq::filter);
    }
}

} // verus!

verus! {

/// A history-database row other than a done marker.
pub open spec fn is_history_entry(r: RowView) -> bool {
    has_code(r, CODE_HISTORY) || has_code(r, CODE_ADDRESS) || has_code(r, CODE_EDGE)
}

#[verifier::rlimit(50)]
proof fn lemma_funding_rows_codes(txid: Seq<u8>, outs: Seq<TxOut>, height: u32, cfg: IndexerConfig)
    ensures
        forall|i: int|
            0 <= i < spec_funding_rows(txid, outs, height, cfg).len() ==> is_history_entry(
                #[trigger] spec_funding_rows(txid, outs, height, cfg)[i],
            ),
    decreases outs.len(),
{
    if outs.len() > 0 {
        lemma_funding_rows_codes(txid, outs.drop_last(), height, cfg);
        let prev = spec_funding_rows(txid, outs.drop_last(), height, cfg);
        let all = spec_funding_rows(txid, outs, height, cfg);
        assert forall|i: int| 0 <= i < all.len() implies is_history_entry(#[trigger] all[i]) by {
            if i < prev.len() {
                assert(all[i] == prev[i]);
            }
        }
    }
}

#[verifier::rlimit(50)]
proof fn lemma_spending_rows_codes(
    txid: Seq<u8>,
    ins: Seq<TxIn>,
    prevouts: Seq<TxOut>,
    start: int,
    height: u32,
)
    ensures
        forall|i: int|
            0 <= i < spec_spending_rows(txid, ins, prevouts, start, height).len() ==> is_history_entry(
                #[trigger] spec_spending_rows(txid, ins, prevouts, start, height)[i],
            ),
    decreases ins.len(),
{
    if ins.len() > 0 {
        lemma_spending_rows_codes(txid, ins.drop_last(), prevouts, start, height);
        let prev = spec_spending_rows(txid, ins.drop_last(), prevouts, start, height);
        let all = spec_spending_rows(txid, ins, prevouts, start, height);
        assert forall|i: int| 0 <= i < all.len() implies is_history_entry(#[trigger] all[i]) by {
            if i < prev.len() {
                assert(all[i] == prev[i]);
            }
        }
    }
}

#[verifier::spinoff_prover]
#[verifier::rlimit(50)]
proof fn lemma_index_txs_rows_codes(
    txs: Seq<Transaction>,
    height: u32,
    prevouts: Seq<TxOut>,
    start: int,
    cfg: IndexerConfig,
)
    ensures
        forall|i: int|
            0 <= i < spec_index_txs_rows(txs, height, prevouts, start, cfg).len() ==> is_history_entry(
                #[trigger] spec_index_txs_rows(txs, height, prevouts, start, cfg)[i],
            ),
    decreases txs.len(),
{
    if txs.len() > 0 {
        let d = txs.drop_last();
        let tx = txs.last();
        let st = start + spec_txs_prevout_count(d);
        lemma_index_txs_rows_codes(d, height, prevouts, start, cfg);
        lemma_funding_rows_codes(tx.txid@, tx.output@, height, cfg);
        lemma_spending_rows_codes(tx.txid@, tx.input@, prevouts, st, height);
        let prev = spec_index_txs_rows(d, height, prevouts, start, cfg);
        let f = spec_funding_rows(tx.txid@, tx.output@, height, cfg);
        let s = spec_spending_rows(tx.txid@, tx.input@, prevouts, st, height);
        let all = spec_index_txs_rows(txs, height, prevouts, start, cfg);
        assert(all =~= prev + (f + s));
        assert forall|i: int| 0 <= i < all.len() implies is_history_entry(#[trigger] all[i]) by {
            if i < prev.len() {
                assert(all[i] == prev[i]);
            } else if i < prev.len() + f.len() {
                assert(all[i] == f[i - prev.len()]);
            } else {
                assert(all[i] == s[i - prev.len() - f.len()]);
            }
        }
    }
}

#[verifier::spinoff_prover]
#[verifier::rlimit(50)]
proof fn lemma_index_block_marker(b: BlockEntry, prevouts: Seq<TxOut>, st: int, cfg: IndexerConfig)
    ensures
        spec_index_block_rows(b, prevouts, st, cfg).filter(|r: RowView| has_code(r, CODE_DONE))
            == seq![(seq![CODE_DONE] + b.entry.hash@, Seq::<u8>::empty())],
{
    let f = |r: RowView| has_code(r, CODE_DONE);
    let txs = spec_index_txs_rows(b.block.txdata@, spec_block_height(b), prevouts, st, cfg);
    lemma_index_txs_rows_codes(b.block.txdata@, spec_block_height(b), prevouts, st, cfg);
    assert forall|i: int| 0 <= i < txs.len() implies !f(#[trigger] txs[i]) by {
        assert(is_history_entry(txs[i]));
    }
    lemma_filter_none(txs, f);
    let dm = seq![(seq![CODE_DONE] + b.entry.hash@, Seq::<u8>::empty())];
    assert(spec_index_block_rows(b, prevouts, st, cfg) =~= txs + dm);
    Seq::filter_distributes_over_add(txs, dm, f);
    assert(dm.filter(f) =~= dm) by {
        reveal_with_fuel(Seq::filter, 2);
        assert(dm.drop_last() =~= Seq::<RowView>::empty());
    }
    assert(Seq::<RowView>::empty() + dm =~= dm);
}

/// After the index pass over a batch, its `D` rows are exactly one done marker
/// per block, in batch order: the same markers the add pass wrote.
#[verifier::spinoff_prover]
pub proof fn index_pass_marks_every_block(blocks: Seq<BlockEntry>, prevouts: Seq<TxOut>, cfg: IndexerConfig)
    ensures
        spec_index_rows(blocks, prevouts, cfg).filter(|r: RowView| has_code(r, CODE_DONE))
            == spec_block_marker_rows(blocks, CODE_DONE),
    decreases blocks.len(),
{
    let f = |r: RowView| has_code(r, CODE_DONE);
    if blocks.len() > 0 {
        let d = blocks.drop_last();
        let b = blocks.last();
        let st = spec_blocks_prevout_count(d) as int;
        index_pass_marks_every_block(d, prevouts, cfg);
        lemma_index_block_marker(b, prevouts, st, cfg);
        Seq::filter_distributes_over_add(
            spec_index_rows(d, prevouts, cfg),
            spec_index_block_rows(b, prevouts, st, cfg),
            f,
        );
        let dm = seq![(seq![CODE_DONE] + b.entry.hash@, Seq::<u8>::empty())];
        assert(spec_block_marker_rows(blocks, CODE_DONE) =~= spec_block_marker_rows(d, CODE_DONE) + dm);
    } else {
        reveal(Seq::filter);
    }
}

} // verus!

verus! {

/// The add pass is block by block: running it over `a` and then over `b` (as a
/// run interrupted after `a` and resumed does) writes the same rows as one run
/// over `a + b`.
#[verifier::rlimit(50)]
pub proof fn add_pass_splits(a: Seq<BlockEntry>, b: Seq<BlockEntry>, light: bool)
    ensures
        spec_add_rows(a + b, light) == spec_add_rows(a, light) + spec_add_rows(b, light),
    decreases b.len(),
{
    if b.len() == 0 {
        assert(a + b =~= a);
        assert(spec_add_rows(a, light) + spec_add_rows(b, light) =~= spec_add_rows(a, light));
    } else {
        add_pass_splits(a, b.drop_last(), light);
        assert((a + b).drop_last() =~= a + b.drop_last());
        assert((a + b).last() == b.last());
        assert(spec_add_rows(a + b, light) =~= spec_add_rows(a, light) + spec_add_rows(b, light));
    }
}

proof fn lemma_spending_rows_shift(
    txid: Seq<u8>,
    ins: Seq<TxIn>,
    pa: Seq<TxOut>,
    pb: Seq<TxOut>,
    start: int,
    height: u32,
)
    requires
        0 <= start,
        start + spec_prevout_count(ins) <= pb.len(),
    ensures
        spec_spending_rows(txid, ins, pa + pb, pa.len() + start, height) == spec_spending_rows(
            txid,
            ins,
            pb,
            start,
            height,
        ),
    decreases ins.len(),
{
    if ins.len() > 0 {
        lemma_spending_rows_shift(txid, ins.drop_last(), pa, pb, start, height);
        if spec_has_prevout(ins.last()) {
            let k = start + spec_prevout_count(ins.drop_last());
            assert((pa + pb)[pa.len() + k] == pb[k]);
        }
    }
}

proof fn lemma_index_txs_rows_shift(
    txs: Seq<Transaction>,
    height: u32,
    pa: Seq<TxOut>,
    pb: Seq<TxOut>,
    start: int,
    cfg: IndexerConfig,
)
    requires
        0 <= start,
        start + spec_txs_prevout_count(txs) <= pb.len(),
    ensures
        spec_index_txs_rows(txs, height, pa + pb, pa.len() + start, cfg) == spec_index_txs_rows(
            txs,
            height,
            pb,
            start,
            cfg,
        ),
    decreases txs.len(),
{
    if txs.len() > 0 {
        let d = txs.drop_last();
        lemma_index_txs_rows_shift(d, height, pa, pb, start, cfg);
        lemma_spending_rows_shift(
            txs.last().txid@,
            txs.last().input@,
            pa,
            pb,
            start + spec_txs_prevout_count(d),
            height,
        );
    }
}

proof fn lemma_index_rows_shift(blocks: Seq<BlockEntry>, pa: Seq<TxOut>, pb: Seq<TxOut>, cfg: IndexerConfig)
    requires
        spec_blocks_prevout_count(blocks) <= pb.len(),
    ensures
        spec_index_rows_from(blocks, pa + pb, pa.len() as int, cfg) == spec_index_rows_from(
            blocks,
            pb,
            0,
            cfg,
        ),
    decreases blocks.len(),
{
    if blocks.len() > 0 {
        let d = blocks.drop_last();
        lemma_index_rows_shift(d, pa, pb, cfg);
        let b = blocks.last();
        lemma_index_txs_rows_shift(
            b.block.txdata@,
            spec_block_height(b),
            pa,
            pb,
            spec_blocks_prevout_count(d) as int,
            cfg,
        );
    }
}

/// The history rows of `blocks` whose spent outputs start at `prevouts[start]`.
pub open spec fn spec_index_rows_from(
    blocks: Seq<BlockEntry>,
    prevouts: Seq<TxOut>,
    start: int,
    cfg: IndexerConfig,
) -> Seq<RowView>
    decreases blocks.len(),
{
    if blocks.len() == 0 {
        Seq::empty()
    } else {
        let d = blocks.drop_last();
        spec_index_rows_from(d, prevouts, start, cfg) + spec_index_block_rows(
            blocks.last(),
            prevouts,
            start + spec_blocks_prevout_count(d),
            cfg,
        )
    }
}

proof fn lemma_index_rows_from_zero(blocks: Seq<BlockEntry>, prevouts: Seq<TxOut>, cfg: IndexerConfig)
    ensures
        spec_index_rows_from(blocks, prevouts, 0, cfg) == spec_index_rows(blocks, prevouts, cfg),
    decreases blocks.len(),
{
    if blocks.len() > 0 {
        lemma_index_rows_from_zero(blocks.drop_last(), prevouts, cfg);
    }
}

#[verifier::rlimit(50)]
proof fn lemma_index_rows_from_split(
    a: Seq<BlockEntry>,
    b: Seq<BlockEntry>,
    prevouts: Seq<TxOut>,
    cfg: IndexerConfig,
)
    ensures
        spec_index_rows_from(a + b, prevouts, 0, cfg) == spec_index_rows_from(a, prevouts, 0, cfg)
            + spec_index_rows_from(b, prevouts, spec_blocks_prevout_count(a) as int, cfg),
        spec_blocks_prevout_count(a + b) == spec_blocks_prevout_count(a) + spec_blocks_prevout_count(b),
    decreases b.len(),
{
    if b.len() == 0 {
        assert(a + b =~= a);
        assert(spec_index_rows_from(a, prevouts, 0, cfg) + spec_index_rows_from(b, prevouts, spec_blocks_prevout_count(a) as int, cfg) =~= spec_index_rows_from(a, prevouts, 0, cfg));
    } else {
        lemma_index_rows_from_split(a, b.drop_last(), prevouts, cfg);
        assert((a + b).drop_last() =~= a + b.drop_last());
        assert((a + b).last() == b.last());
        assert(spec_index_rows_from(a + b, prevouts, 0, cfg) =~= spec_index_rows_from(a, prevouts, 0, cfg)
            + spec_index_rows_from(b, prevouts, spec_blocks_prevout_count(a) as int, cfg));
    }
}

/// The index pass is block by block too: indexing `a` with the outputs its
/// inputs spend, then `b` with its own, writes the same rows as one pass over
/// `a + b` with both lists of spent outputs.
#[verifier::rlimit(50)]
pub proof fn index_pass_splits(
    a: Seq<BlockEntry>,
    b: Seq<BlockEntry>,
    pa: Seq<TxOut>,
    pb: Seq<TxOut>,
    cfg: IndexerConfig,
)
    requires
        spec_blocks_prevout_count(a) == pa.len(),
        spec_blocks_prevout_count(b) == pb.len(),
    ensures
        spec_index_rows(a + b, pa + pb, cfg) == spec_index_rows(a, pa, cfg) + spec_index_rows(b, pb, cfg),
{
    lemma_index_rows_from_split(a, b, pa + pb, cfg);
    lemma_index_rows_from_zero(a + b, pa + pb, cfg);
    lemma_index_rows_from_zero(a, pa + pb, cfg);
    lemma_index_rows_from_zero(a, pa, cfg);
    lemma_index_rows_from_zero(b, pb, cfg);
    lemma_index_rows_shift(b, pa, pb, cfg);
    lemma_index_rows_prefix(a, pa, pb, cfg);
}

proof fn lemma_index_rows_prefix(blocks: Seq<BlockEntry>, pa: Seq<TxOut>, pb: Seq<TxOut>, cfg: IndexerConfig)
    requires
        spec_blocks_prevout_count(blocks) <= pa.len(),
    ensures
        spec_index_rows_from(blocks, pa + pb, 0, cfg) == spec_index_rows_from(blocks, pa, 0, cfg),
    decreases blocks.len(),
{
    if blocks.len() > 0 {
        let d = blocks.drop_last();
        lemma_blocks_count_prefix(blocks, blocks.len() - 1);
        assert(blocks.subrange(0, blocks.len() - 1) =~= d);
        lemma_index_rows_prefix(d, pa, pb, cfg);
        let b = blocks.last();
        lemma_index_txs_rows_prefix(
            b.block.txdata@,
            spec_block_height(b),
            pa,
            pb,
            spec_blocks_prevout_count(d) as int,
            cfg,
        );
    }
}

proof fn lemma_index_txs_rows_prefix(
    txs: Seq<Transaction>,
    height: u32,
    pa: Seq<TxOut>,
    pb: Seq<TxOut>,
    start: int,
    cfg: IndexerConfig,
)
    requires
        0 <= start,
        start + spec_txs_prevout_count(txs) <= pa.len(),
    ensures
        spec_index_txs_rows(txs, height, pa + pb, start, cfg) == spec_index_txs_rows(txs, height, pa, start, cfg),
    decreases txs.len(),
{
    if txs.len() > 0 {
        let d = txs.drop_last();
        lemma_index_txs_rows_prefix(d, height, pa, pb, start, cfg);
        lemma_spending_rows_prefix(
            txs.last().txid@,
            txs.last().input@,
            pa,
            pb,
            start + spec_txs_prevout_count(d),
            height,
        );
    }
}

proof fn lemma_spending_rows_prefix(
    txid: Seq<u8>,
    ins: Seq<TxIn>,
    pa: Seq<TxOut>,
    pb: Seq<TxOut>,
    start: int,
    height: u32,
)
    requires
        0 <= start,
        start + spec_prevout_count(ins) <= pa.len(),
    ensures
        spec_spending_rows(txid, ins, pa + pb, start, height) == spec_spending_rows(txid, ins, pa, start, height),
    decreases ins.len(),
{
    if ins.len() > 0 {
        lemma_spending_rows_prefix(txid, ins.drop_last(), pa, pb, start, height);
        if spec_has_prevout(ins.last()) {
            let k = start + spec_prevout_count(ins.drop_last());
            assert((pa + pb)[k] == pa[k]);
        }
    }
}

} // verus!

verus! {

proof fn lemma_add_txs_rows_contain_raw(txs: Seq<Transaction>, bh: Seq<u8>, k: int)
    requires
        0 <= k < txs.len(),
    ensures
        spec_add_txs_rows(txs, bh, false).contains((seq![CODE_TX] + txs[k].txid@, txs[k].raw@)),
    decreases txs.len(),
{
    let row = (seq![CODE_TX] + txs[k].txid@, txs[k].raw@);
    let prev = spec_add_txs_rows(txs.drop_last(), bh, false);
    let t = spec_add_tx_rows(txs.last(), bh, false);
    assert(spec_add_txs_rows(txs, bh, false) == prev + t);
    if k == txs.len() - 1 {
        assert(t[1] == row);
        assert((prev + t)[prev.len() as int + 1] == row);
    } else {
        lemma_add_txs_rows_contain_raw(txs.drop_last(), bh, k);
        let m = choose|m: int| 0 <= m < prev.len() && prev[m] == row;
        assert((prev + t)[m] == row);
    }
}

/// In full mode the add pass writes, for every block of the batch, its `X`
/// (txids) and `M` (statistics) rows, and for every transaction its `T` row
/// holding the raw transaction.
#[verifier::spinoff_prover]
#[verifier::rlimit(50)]
pub proof fn full_mode_writes_t_x_m(blocks: Seq<BlockEntry>, i: int, k: int)
    requires
        0 <= i < blocks.len(),
        0 <= k < blocks[i].block.txdata@.len(),
    ensures
        ({
            let b = blocks[i];
            let bh = b.entry.hash@;
            let rows = spec_add_rows(blocks, false);
            &&& rows.contains((seq![CODE_TX] + b.block.txdata@[k].txid@, b.block.txdata@[k].raw@))
            &&& rows.contains(
                (seq![CODE_TXIDS] + bh, le_bytes(b.block.txdata@.len() as nat, 8) + txids_bytes(spec_txids(b.block.txdata@))),
            )
            &&& rows.contains((seq![CODE_META] + bh, spec_meta(b).spec_bytes()))
        }),
    decreases blocks.len(),
{
    let b = blocks[i];
    let bh = b.entry.hash@;
    let prev = spec_add_rows(blocks.drop_last(), false);
    let last = spec_add_block_rows(blocks.last(), false);
    assert(spec_add_rows(blocks, false) == prev + last);
    let t = (seq![CODE_TX] + b.block.txdata@[k].txid@, b.block.txdata@[k].raw@);
    let x = (seq![CODE_TXIDS] + bh, le_bytes(b.block.txdata@.len() as nat, 8) + txids_bytes(spec_txids(b.block.txdata@)));
    let m = (seq![CODE_META] + bh, spec_meta(b).spec_bytes());
    if i == blocks.len() - 1 {
        let txs = spec_add_txs_rows(b.block.txdata@, bh, false);
        lemma_add_txs_rows_contain_raw(b.block.txdata@, bh, k);
        let j = choose|j: int| 0 <= j < txs.len() && txs[j] == t;
        assert(last[j] == t);
        assert(last[txs.len() as int] == x);
        assert(last[txs.len() as int + 1] == m);
        assert((prev + last)[prev.len() + j] == t);
        assert((prev + last)[prev.len() as int + txs.len() as int] == x);
        assert((prev + last)[prev.len() as int + txs.len() as int + 1] == m);
    } else {
        full_mode_writes_t_x_m(blocks.drop_last(), i, k);
        assert(blocks.drop_last()[i] == b);
        let jt = choose|j: int| 0 <= j < prev.len() && prev[j] == t;
        let jx = choose|j: int| 0 <= j < prev.len() && prev[j] == x;
        let jm = choose|j: int| 0 <= j < prev.len() && prev[j] == m;
        assert((prev + last)[jt] == t);
        assert((prev + last)[jx] == x);
        assert((prev + last)[jm] == m);
    }
}

} // verus!

verus! {

/// A row of the funding part of a transaction's history: the funding row of an
/// indexed output, or an address row.
pub open spec fn spec_funding_row_of(txid: Seq<u8>, outs: Seq<TxOut>, height: u32, cfg: IndexerConfig, r: RowView) -> bool {
    ||| has_code(r, CODE_ADDRESS)
    ||| exists|i: int|
        0 <= i < outs.len() && spec_indexed_output(#[trigger] outs[i], cfg) && r == (
            funding_key_bytes(sha256_of(outs[i].script_pubkey@), height, txid, i as nat, outs[i].value),
            Seq::<u8>::empty(),
        )
}

/// Every funding row the index pass writes for a transaction comes from one of
/// its outputs: the row's script hash is the SHA-256 of that output's script,
/// its value is that output's value, and (unless unspendables are indexed) the
/// output is spendable, so the add pass wrote its `O` row.
#[verifier::spinoff_prover]
pub proof fn funding_rows_come_from_outputs(txid: Seq<u8>, outs: Seq<TxOut>, height: u32, cfg: IndexerConfig)
    ensures
        forall|j: int|
            0 <= j < spec_funding_rows(txid, outs, height, cfg).len() ==> spec_funding_row_of(
                txid,
                outs,
                height,
                cfg,
                #[trigger] spec_funding_rows(txid, outs, height, cfg)[j],
            ),
        !cfg.index_unspendables ==> forall|i: int|
            0 <= i < outs.len() && spec_indexed_output(#[trigger] outs[i], cfg) ==> spec_is_spendable(outs[i]),
    decreases outs.len(),
{
    if outs.len() > 0 {
        let d = outs.drop_last();
        funding_rows_come_from_outputs(txid, d, height, cfg);
        let prev = spec_funding_rows(txid, d, height, cfg);
        let all = spec_funding_rows(txid, outs, height, cfg);
        assert forall|j: int| 0 <= j < all.len() implies spec_funding_row_of(txid, outs, height, cfg, #[trigger] all[j]) by {
            if j < prev.len() {
                assert(all[j] == prev[j]);
                if !has_code(prev[j], CODE_ADDRESS) {
                    let i = choose|i: int|
                        0 <= i < d.len() && spec_indexed_output(#[trigger] d[i], cfg) && prev[j] == (
                            funding_key_bytes(sha256_of(d[i].script_pubkey@), height, txid, i as nat, d[i].value),
                            Seq::<u8>::empty(),
                        );
                    assert(outs[i] == d[i]);
                }
            } else {
                let i = outs.len() - 1;
                assert(outs[i] == outs.last());
                if !has_code(all[j], CODE_ADDRESS) {
                    assert(all[j] == (
                        funding_key_bytes(sha256_of(outs[i].script_pubkey@), height, txid, i as nat, outs[i].value),
                        Seq::<u8>::empty(),
                    ));
                }
            }
        }
    }
}

} // verus!
