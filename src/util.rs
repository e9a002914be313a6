//! Hashes as fixed arrays, byte comparisons, and the channels that carry
//! fetched blocks.
use vstd::prelude::*;

verus! {

/// Raw bytes, as stored in the key-value databases.
pub type Bytes = Vec<u8>;

/// A serialized 32-byte hash (SHA-256 of a script, or a txid / block hash).
pub type FullHash = [u8; 32];

pub const HASH_LEN: usize = 32;

/// Copies the first 32 bytes of `hash` into a `FullHash`.
pub fn full_hash(hash: &[u8]) -> (r: FullHash)
    requires
        hash@.len() >= 32,
    ensures
        r@ == hash@.subrange(0, 32),
{
    let mut r: FullHash = [0u8; 32];
    let mut i: usize = 0;
    while i < HASH_LEN
        invariant
            i <= 32,
            hash@.len() >= 32,
            forall|j: int| 0 <= j < i ==> r@[j] == hash@[j],
        decreases 32 - i,
    {
        r[i] = hash[i];
        i = i + 1;
    }
    assert(r@ =~= hash@.subrange(0, 32));
    r
}

} // verus!

verus! {

/// Byte-wise equality of two slices.
pub fn bytes_eq(a: &[u8], b: &[u8]) -> (r: bool)
    ensures
        r == (a@ == b@),
{
    if a.len() != b.len() {
        return false;
    }
    let mut i: usize = 0;
    while i < a.len()
        invariant
            a@.len() == b@.len(),
            i <= a@.len(),
            forall|j: int| 0 <= j < i ==> a@[j] == b@[j],
        decreases a@.len() - i,
    {
        if a[i] != b[i] {
            return false;
        }
        i = i + 1;
    }
    assert(a@ =~= b@);
    true
}

/// Equality of two 32-byte hashes.
pub fn hash_eq(a: &FullHash, b: &FullHash) -> (r: bool)
    ensures
        r == (a@ == b@),
{
    bytes_eq(a.as_slice(), b.as_slice())
}

} // verus!

verus! {

#[verifier::external_type_specification]
#[verifier::external_body]
#[verifier::reject_recursive_types(T)]
pub struct ExSyncSender<T>(std::sync::mpsc::SyncSender<T>);

#[verifier::external_type_specification]
#[verifier::external_body]
#[verifier::reject_recursive_types(T)]
pub struct ExSender<T>(std::sync::mpsc::Sender<T>);

#[verifier::external_type_specification]
#[verifier::external_body]
#[verifier::reject_recursive_types(T)]
pub struct ExReceiver<T>(std::sync::mpsc::Receiver<T>);

/// Relies on std's `mpsc::sync_channel`: a channel that holds at most `size`
/// items before a send blocks.
#[verifier::external_body]
fn new_sync_channel<T>(size: usize) -> (std::sync::mpsc::SyncSender<T>, std::sync::mpsc::Receiver<T>) {
    std::sync::mpsc::sync_channel(size)
}

/// Relies on std's `mpsc::channel`: an unbounded channel.
#[verifier::external_body]
fn new_channel<T>() -> (std::sync::mpsc::Sender<T>, std::sync::mpsc::Receiver<T>) {
    std::sync::mpsc::channel()
}

/// Relies on std's `SyncSender::clone`: another handle on the same channel.
#[verifier::external_body]
fn clone_sync_sender<T>(tx: &std::sync::mpsc::SyncSender<T>) -> std::sync::mpsc::SyncSender<T> {
    tx.clone()
}

/// Relies on std's `Sender::clone`: another handle on the same channel.
#[verifier::external_body]
fn clone_sender<T>(tx: &std::sync::mpsc::Sender<T>) -> std::sync::mpsc::Sender<T> {
    tx.clone()
}

/// A bounded channel: a producer blocks while `capacity` items wait unread.
#[verifier::reject_recursive_types(T)]
pub struct SyncChannel<T> {
    tx: std::sync::mpsc::SyncSender<T>,
    rx: std::sync::mpsc::Receiver<T>,
    capacity: usize,
}

impl<T> SyncChannel<T> {
    pub closed spec fn spec_capacity(&self) -> usize {
        self.capacity
    }

    pub fn new(size: usize) -> (r: SyncChannel<T>)
        ensures
            r.spec_capacity() == size,
    {
        let (tx, rx) = new_sync_channel(size);
        SyncChannel { tx, rx, capacity: size }
    }

    /// How many items may wait unread.
    pub fn capacity(&self) -> (r: usize)
        ensures
            r == self.spec_capacity(),
    {
        self.capacity
    }

    pub fn sender(&self) -> std::sync::mpsc::SyncSender<T> {
        clone_sync_sender(&self.tx)
    }

    pub fn receiver(&self) -> &std::sync::mpsc::Receiver<T> {
        &self.rx
    }

    pub fn into_receiver(self) -> std::sync::mpsc::Receiver<T> {
        self.rx
    }
}

/// An unbounded channel.
#[verifier::reject_recursive_types(T)]
pub struct Channel<T> {
    tx: std::sync::mpsc::Sender<T>,
    rx: std::sync::mpsc::Receiver<T>,
}

impl<T> Channel<T> {
    pub fn unbounded() -> Channel<T> {
        let (tx, rx) = new_channel();
        Channel { tx, rx }
    }

    pub fn sender(&self) -> std::sync::mpsc::Sender<T> {
        clone_sender(&self.tx)
    }

    pub fn receiver(&self) -> &std::sync::mpsc::Receiver<T> {
        &self.rx
    }

    pub fn into_receiver(self) -> std::sync::mpsc::Receiver<T> {
        self.rx
    }
}

} // verus!
