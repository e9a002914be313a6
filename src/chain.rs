//! Networks, the library's model of blocks and transactions, and the
//! outside computations on them: script classification and hashing.
use vstd::prelude::*;
use bitcoin::hashes::Hash as _;
use crypto::digest::Digest as _;
use crate::util::{bytes_eq, FullHash};

verus! {

/// The chains this indexer can follow.
#[derive(Debug, Copy, Clone, PartialEq, Eq, Structural, Hash)]
pub enum Network {
    Bitcoin,
    Testnet,
    Regtest,
    Signet,
}

/// The message-start bytes of each network, as a little-endian integer.
pub open spec fn spec_magic(network: Network) -> u32 {
    match network {
        Network::Bitcoin => 0xD9B4BEF9u32,
        Network::Testnet => 0x0709110Bu32,
        Network::Signet => 0x40CF030Au32,
        Network::Regtest => 0xDAB5BFFAu32,
    }
}

/// The name under which each network is selected.
pub open spec fn spec_name(network: Network) -> Seq<char> {
    match network {
        Network::Bitcoin => "mainnet"@,
        Network::Testnet => "testnet"@,
        Network::Regtest => "regtest"@,
        Network::Signet => "signet"@,
    }
}

/// Relies on bitcoin's `Network::magic`, which returns the fixed message-start
/// value of each network.
#[verifier::external_body]
fn bitcoin_network_magic(network: Network) -> (r: u32)
    ensures
        r == spec_magic(network),
{
    let n = match network {
        Network::Bitcoin => bitcoin::Network::Bitcoin,
        Network::Testnet => bitcoin::Network::Testnet,
        Network::Regtest => bitcoin::Network::Regtest,
        Network::Signet => bitcoin::Network::Signet,
    };
    n.magic()
}

impl Network {
    /// The accepted network names, in declaration order.
    pub fn names() -> (r: Vec<String>)
        ensures
            r@.len() == 4,
            r@[0]@ == spec_name(Network::Bitcoin),
            r@[1]@ == spec_name(Network::Testnet),
            r@[2]@ == spec_name(Network::Regtest),
            r@[3]@ == spec_name(Network::Signet),
    {
        proof {
            reveal_strlit("mainnet");
            reveal_strlit("testnet");
            reveal_strlit("regtest");
            reveal_strlit("signet");
        }
        let mut r: Vec<String> = Vec::new();
        r.push("mainnet".to_owned());
        r.push("testnet".to_owned());
        r.push("regtest".to_owned());
        r.push("signet".to_owned());
        r
    }

    /// The 4-byte network magic that prefixes every record of the node's block files.
    pub fn magic(self) -> (r: u32)
        ensures
            r == spec_magic(self),
    {
        bitcoin_network_magic(self)
    }

    /// The network of a supported name. An unsupported name is refused: callers
    /// check it with `from_name` first.
    pub fn from(name: &str) -> (r: Network)
        requires
            exists|n: Network| spec_name(n) == name@,
        ensures
            spec_name(r) == name@,
    {
        match Network::from_name(name) {
            Some(n) => n,
            None => Network::Bitcoin,
        }
    }

    /// Selects a network by name; `None` for a name that is not one of `names()`.
    pub fn from_name(name: &str) -> (r: Option<Network>)
        ensures
            r.is_some() <==> (exists|n: Network| spec_name(n) == name@),
            r.is_some() ==> spec_name(r.unwrap()) == name@,
    {
        proof {
            reveal_strlit("mainnet");
            reveal_strlit("testnet");
            reveal_strlit("regtest");
            reveal_strlit("signet");
        }
        let nets = [Network::Bitcoin, Network::Testnet, Network::Regtest, Network::Signet];
        let names = Network::names();
        let mut i: usize = 0;
        while i < 4
            invariant
                i <= 4,
                names@.len() == 4,
                forall|k: int| 0 <= k < 4 ==> names@[k]@ == spec_name(nets@[k]),
                forall|k: int| 0 <= k < i ==> names@[k]@ != name@,
            decreases 4 - i,
        {
            if str_eq(names[i].as_str(), name) {
                return Some(nets[i]);
            }
            i = i + 1;
        }
        assert forall|n: Network| spec_name(n) != name@ by {
            match n {
                Network::Bitcoin => assert(names@[0]@ != name@),
                Network::Testnet => assert(names@[1]@ != name@),
                Network::Regtest => assert(names@[2]@ != name@),
                Network::Signet => assert(names@[3]@ != name@),
            }
        }
        None
    }
}

/// Character-wise equality of two string slices.
pub fn str_eq(a: &str, b: &str) -> (r: bool)
    ensures
        r == (a@ == b@),
{
    let ab = a.as_bytes();
    let bb = b.as_bytes();
    let eq = bytes_eq(ab, bb);
    proof {
        vstd::utf8::encode_utf8_decode_utf8(a@);
        vstd::utf8::encode_utf8_decode_utf8(b@);
    }
    eq
}

} // verus!

verus! {

/// A reference to a transaction output: `{txid, vout}`.
#[derive(Debug, Copy, Clone)]
pub struct OutPoint {
    pub txid: FullHash,
    pub vout: u32,
}

/// A transaction input, reduced to the output it spends.
#[derive(Debug, Copy, Clone)]
pub struct TxIn {
    pub previous_output: OutPoint,
}

/// A transaction output: its amount, its locking script, and its consensus
/// serialization.
#[derive(Debug, Clone)]
pub struct TxOut {
    pub value: u64,
    pub script_pubkey: Vec<u8>,
    pub raw: Vec<u8>,
}

/// A decoded transaction: its txid, its consensus serialization, its inputs and outputs.
#[derive(Debug, Clone)]
pub struct Transaction {
    pub txid: FullHash,
    pub raw: Vec<u8>,
    pub input: Vec<TxIn>,
    pub output: Vec<TxOut>,
}

/// A decoded block: the 80-byte serialized header, the transactions in block
/// order, and the block's serialized size and weight.
#[derive(Debug, Clone)]
pub struct Block {
    pub header: Vec<u8>,
    pub txdata: Vec<Transaction>,
    pub size: u32,
    pub weight: u32,
}

/// The null outpoint (32 zero bytes, index `u32::MAX`) marks a coinbase input.
pub open spec fn spec_is_null(o: OutPoint) -> bool {
    &&& forall|i: int| 0 <= i < 32 ==> #[trigger] o.txid@[i] == 0u8
    &&& o.vout == 0xffff_ffffu32
}

/// Whether `o` is the null outpoint.
pub fn outpoint_is_null(o: &OutPoint) -> (r: bool)
    ensures
        r == spec_is_null(*o),
{
    if o.vout != 0xffff_ffffu32 {
        return false;
    }
    let mut i: usize = 0;
    while i < 32
        invariant
            i <= 32,
            forall|j: int| 0 <= j < i ==> o.txid@[j] == 0u8,
        decreases 32 - i,
    {
        if o.txid[i] != 0u8 {
            return false;
        }
        i = i + 1;
    }
    true
}

/// What bitcoin's `Script::is_provably_unspendable` returns for a script: a
/// function of the script's first byte.
pub uninterp spec fn provably_unspendable(script: Seq<u8>) -> bool;

/// Relies on bitcoin's `Script::is_provably_unspendable`: an empty script is
/// not provably unspendable, and one starting with `OP_RETURN` (0x6a) is.
#[verifier::external_body]
fn script_is_provably_unspendable(script: &Vec<u8>) -> (r: bool)
    ensures
        r == provably_unspendable(script@),
        script@.len() == 0 ==> !r,
        script@.len() > 0 && script@[0] == 0x6au8 ==> r,
{
    bitcoin::Script::from(script.clone()).is_provably_unspendable()
}

/// An output is spendable iff its script is not provably unspendable.
pub open spec fn spec_is_spendable(txout: TxOut) -> bool {
    !provably_unspendable(txout.script_pubkey@)
}

/// An input has a previous output iff it does not spend the null outpoint.
pub open spec fn spec_has_prevout(txin: TxIn) -> bool {
    !spec_is_null(txin.previous_output)
}

/// Whether the output can ever be spent (and so belongs in the output index).
pub fn is_spendable(txout: &TxOut) -> (r: bool)
    ensures
        r == spec_is_spendable(*txout),
{
    !script_is_provably_unspendable(&txout.script_pubkey)
}

/// Whether the input refers to a real previous output (it is not a coinbase input).
pub fn has_prevout(txin: &TxIn) -> (r: bool)
    ensures
        r == spec_has_prevout(*txin),
{
    !outpoint_is_null(&txin.previous_output)
}

/// What SHA-256 returns on the given bytes.
pub uninterp spec fn sha256_of(data: Seq<u8>) -> Seq<u8>;

/// Relies on rust-crypto's `Sha256`: the 32-byte SHA-256 digest of the input.
#[verifier::external_body]
fn sha256(data: &[u8]) -> (r: FullHash)
    ensures
        r@ == sha256_of(data@),
{
    let mut hash: FullHash = [0u8; 32];
    let mut sha2 = crypto::sha2::Sha256::new();
    sha2.input(data);
    sha2.result(&mut hash);
    hash
}

/// The script hash that keys a script's history: SHA-256 of the script bytes.
pub fn compute_script_hash(script: &Vec<u8>) -> (r: FullHash)
    ensures
        r@ == sha256_of(script@),
{
    sha256(script.as_slice())
}

/// What double SHA-256 returns on the given bytes (a block hash, for a header).
pub uninterp spec fn sha256d_of(data: Seq<u8>) -> Seq<u8>;

/// Relies on bitcoin_hashes' `sha256d::Hash::hash`: the 32-byte double SHA-256
/// digest of the input, in its internal byte order.
#[verifier::external_body]
fn sha256d(data: &[u8]) -> (r: FullHash)
    ensures
        r@ == sha256d_of(data@),
{
    bitcoin::hashes::sha256d::Hash::hash(data).into_inner()
}

/// The hash of a serialized block header.
pub fn header_hash(header: &Vec<u8>) -> (r: FullHash)
    ensures
        r@ == sha256d_of(header@),
{
    sha256d(header.as_slice())
}

} // verus!
