//! The store's own rules: the compatibility marker, the prefix-stop rule of
//! scans, the key order of batch writes, and rebuilding the in-memory state
//! (done sets and header list) from scanned rows.
use vstd::prelude::*;
use crate::codec::{le_bytes, lemma_lex_lt_irreflexive, lemma_lex_lt_transitive, lex_lt, push_le};
use crate::chain::sha256d_of;
use crate::daemon::spec_reach_tip;
use crate::header::{is_null_hash, null_hash, HeaderError, HeaderList};
use crate::indexer::{rows_view, RowView};
use crate::schema::{DBFlush, DBRow, CODE_HEADER};
use crate::util::{bytes_eq, full_hash, hash_eq, FullHash};

verus! {

/// The version of the row layout; a database written under another one must be rebuilt.
pub const DB_VERSION: u32 = 1;

/// The marker stored at key `V`: the version (4 bytes, little-endian), then a
/// `1` byte in light mode.
pub open spec fn spec_compatibility_bytes(light_mode: bool) -> Seq<u8> {
    le_bytes(DB_VERSION as nat, 4) + if light_mode {
        seq![1u8]
    } else {
        Seq::empty()
    }
}

pub fn compatibility_bytes(light_mode: bool) -> (r: Vec<u8>)
    ensures
        r@ == spec_compatibility_bytes(light_mode),
{
    let mut r: Vec<u8> = Vec::new();
    push_le(&mut r, DB_VERSION as u64, 4);
    if light_mode {
        r.push(1u8);
    }
    assert(r@ =~= spec_compatibility_bytes(light_mode));
    r
}

/// What opening a database does with its compatibility marker.
#[derive(Debug, Clone)]
pub enum Compatibility {
    /// The database is new: store this marker.
    WriteMarker(Vec<u8>),
    /// The marker matches.
    Compatible,
    /// The marker differs: the database must be rebuilt.
    ReindexRequired,
}

/// Decides on the marker found at `V` (`None` for an empty database).
pub fn check_compatibility(stored: Option<Vec<u8>>, light_mode: bool) -> (r: Compatibility)
    ensures
        match stored {
            None => r matches Compatibility::WriteMarker(m) && m@ == spec_compatibility_bytes(light_mode),
            Some(s) => if s@ == spec_compatibility_bytes(light_mode) {
                r is Compatible
            } else {
                r is ReindexRequired
            },
        },
{
    let expected = compatibility_bytes(light_mode);
    match stored {
        None => Compatibility::WriteMarker(expected),
        Some(s) => if bytes_eq(s.as_slice(), expected.as_slice()) {
            Compatibility::Compatible
        } else {
            Compatibility::ReindexRequired
        },
    }
}

/// A database written in one mode is refused when opened in the other.
pub proof fn reopen_in_other_mode_requires_reindex(written_light: bool, opened_light: bool)
    requires
        written_light != opened_light,
    ensures
        spec_compatibility_bytes(written_light) != spec_compatibility_bytes(opened_light),
{
    reveal_with_fuel(le_bytes, 5);
    assert(spec_compatibility_bytes(true).len() == 5);
    assert(spec_compatibility_bytes(false).len() == 4);
}

/// `key` starts with `prefix`.
pub open spec fn has_prefix(key: Seq<u8>, prefix: Seq<u8>) -> bool {
    prefix.len() <= key.len() && key.subrange(0, prefix.len() as int) == prefix
}

pub fn starts_with(key: &[u8], prefix: &[u8]) -> (r: bool)
    ensures
        r == has_prefix(key@, prefix@),
{
    if prefix.len() > key.len() {
        return false;
    }
    let (head, _) = key.split_at(prefix.len());
    bytes_eq(head, prefix)
}

/// The prefix-stop rule of a scan: rows are passed through while their keys
/// start with the prefix; the first that does not ends the scan for good.
pub struct ScanFilter {
    pub prefix: Vec<u8>,
    pub done: bool,
}

impl ScanFilter {
    pub fn new(prefix: Vec<u8>) -> (r: ScanFilter)
        ensures
            r.prefix@ == prefix@,
            !r.done,
    {
        ScanFilter { prefix, done: false }
    }

    /// Whether the row with `key` is part of the scan.
    pub fn accept(&mut self, key: &[u8]) -> (r: bool)
        ensures
            r == (!old(self).done && has_prefix(key@, old(self).prefix@)),
            final(self).done == !r,
            final(self).prefix == old(self).prefix,
    {
        if self.done {
            return false;
        }
        if !starts_with(key, self.prefix.as_slice()) {
            self.done = true;
            return false;
        }
        true
    }
}

/// `a` sorts no later than `b`.
pub open spec fn lex_le(a: Seq<u8>, b: Seq<u8>) -> bool {
    a == b || lex_lt(a, b)
}

/// The rows are in key order.
pub open spec fn sorted_by_key(rows: Seq<RowView>) -> bool {
    forall|i: int, j: int| 0 <= i < j < rows.len() ==> lex_le(#[trigger] rows[i].0, #[trigger] rows[j].0)
}

/// Relies on std's `slice::sort_unstable_by` with `Vec<u8>::cmp`, the
/// lexicographic byte order: the rows end up reordered by key.
#[verifier::external_body]
fn sort_rows_by_key(rows: &mut Vec<DBRow>)
    ensures
        rows_view(final(rows)@).to_multiset() == rows_view(old(rows)@).to_multiset(),
        sorted_by_key(rows_view(final(rows)@)),
{
    rows.sort_unstable_by(|a, b| a.key.cmp(&b.key))
}

/// A batch ready to be written.
pub struct WriteBatch {
    /// The rows in key order.
    pub rows: Vec<DBRow>,
    /// Sync the write to disk.
    pub sync: bool,
    /// Skip the write-ahead log.
    pub disable_wal: bool,
}

/// Orders `rows` by key and picks the write options: a flushed write is synced
/// and logged, an unflushed one skips both.
pub fn prepare_write(rows: Vec<DBRow>, flush: DBFlush) -> (r: WriteBatch)
    ensures
        rows_view(r.rows@).to_multiset() == rows_view(rows@).to_multiset(),
        sorted_by_key(rows_view(r.rows@)),
        r.sync == (flush == DBFlush::Enable),
        r.disable_wal == !r.sync,
{
    let mut rows = rows;
    sort_rows_by_key(&mut rows);
    let sync = match flush {
        DBFlush::Enable => true,
        DBFlush::Disable => false,
    };
    WriteBatch { rows, sync, disable_wal: !sync }
}

/// Why the stored state could not be read back.
#[derive(Debug, Copy, Clone, PartialEq, Eq, Structural)]
pub enum StoreError {
    /// A done marker whose key is not a code and a hash.
    InvalidDoneRow,
    /// The tip marker is not a hash.
    InvalidTip,
    /// The stored headers do not form a chain down from the tip.
    InvalidHeaders(HeaderError),
}

/// The block hashes named by the done markers scanned from a database.
pub fn load_blockhashes(rows: Vec<DBRow>) -> (r: Result<Vec<FullHash>, StoreError>)
    ensures
        r.is_ok() <==> forall|i: int| 0 <= i < rows@.len() ==> (#[trigger] rows@[i]).key@.len() == 33,
        r matches Ok(v) ==> v@.len() == rows@.len() && forall|i: int|
            0 <= i < v@.len() ==> (#[trigger] v@[i])@ == rows@[i].key@.subrange(1, 33),
{
    let mut out: Vec<FullHash> = Vec::new();
    let mut i: usize = 0;
    while i < rows.len()
        invariant
            i <= rows@.len(),
            out@.len() == i,
            forall|k: int| 0 <= k < i ==> (#[trigger] rows@[k]).key@.len() == 33,
            forall|k: int| 0 <= k < i ==> (#[trigger] out@[k])@ == rows@[k].key@.subrange(1, 33),
        decreases rows@.len() - i,
    {
        let key = rows[i].key.as_slice();
        if key.len() != 33 {
            return Err(StoreError::InvalidDoneRow);
        }
        let h = full_hash(crate::schema::slice_from(key, 1));
        assert(h@ =~= rows@[i as int].key@.subrange(1, 33));
        out.push(h);
        i = i + 1;
    }
    Ok(out)
}

} // verus!

verus! {

/// Compares two byte strings lexicographically: -1, 0 or 1.
pub fn compare_bytes(a: &[u8], b: &[u8]) -> (r: i8)
    ensures
        r == 0 <==> a@ == b@,
        r < 0 ==> lex_lt(a@, b@),
        r > 0 ==> lex_lt(b@, a@),
{
    let n = if a.len() < b.len() {
        a.len()
    } else {
        b.len()
    };
    let mut i: usize = 0;
    while i < n
        invariant
            n <= a@.len(),
            n <= b@.len(),
            n == a@.len() || n == b@.len(),
            i <= n,
            forall|k: int| 0 <= k < i ==> a@[k] == b@[k],
        decreases n - i,
    {
        if a[i] != b[i] {
            proof {
                assert(a@.subrange(0, i as int) =~= b@.subrange(0, i as int));
            }
            if a[i] < b[i] {
                return -1;
            }
            return 1;
        }
        i = i + 1;
    }
    if a.len() < b.len() {
        assert(b@.subrange(0, a@.len() as int) =~= a@);
        -1
    } else if a.len() > b.len() {
        assert(a@.subrange(0, b@.len() as int) =~= b@);
        1
    } else {
        assert(a@ =~= b@);
        0
    }
}

/// Searches rows in key order for the one whose key is `key`: on rows sorted by
/// key, `None` means that no row has that key.
#[verifier::rlimit(50)]
pub fn find_row(rows: &Vec<DBRow>, key: &[u8]) -> (r: Option<usize>)
    ensures
        r matches Some(i) ==> i < rows@.len() && rows@[i as int].key@ == key@,
        sorted_by_key(rows_view(rows@)) && r is None ==> forall|k: int|
            0 <= k < rows@.len() ==> (#[trigger] rows@[k]).key@ != key@,
{
    let ghost sorted = sorted_by_key(rows_view(rows@));
    let mut lo: usize = 0;
    let mut hi: usize = rows.len();
    while lo < hi
        invariant
            lo <= hi <= rows@.len(),
            sorted == sorted_by_key(rows_view(rows@)),
            sorted ==> forall|k: int| 0 <= k < lo ==> lex_lt((#[trigger] rows@[k]).key@, key@),
            sorted ==> forall|k: int| hi <= k < rows@.len() ==> lex_lt(key@, (#[trigger] rows@[k]).key@),
        decreases hi - lo,
    {
        let mid = lo + (hi - lo) / 2;
        let c = compare_bytes(rows[mid].key.as_slice(), key);
        if c == 0 {
            return Some(mid);
        } else if c < 0 {
            proof {
                if sorted {
                    assert forall|k: int| 0 <= k < mid + 1 implies lex_lt((#[trigger] rows@[k]).key@, key@) by {
                        if k < mid {
                            assert(rows_view(rows@)[k].0 == rows@[k].key@);
                            assert(rows_view(rows@)[mid as int].0 == rows@[mid as int].key@);
                            assert(lex_le(rows_view(rows@)[k].0, rows_view(rows@)[mid as int].0));
                            if rows@[k].key@ != rows@[mid as int].key@ {
                                lemma_lex_lt_transitive(rows@[k].key@, rows@[mid as int].key@, key@);
                            }
                        }
                    }
                }
            }
            lo = mid + 1;
        } else {
            proof {
                if sorted {
                    assert forall|k: int| mid <= k < rows@.len() implies lex_lt(key@, (#[trigger] rows@[k]).key@) by {
                        if k > mid {
                            assert(rows_view(rows@)[k].0 == rows@[k].key@);
                            assert(rows_view(rows@)[mid as int].0 == rows@[mid as int].key@);
                            assert(lex_le(rows_view(rows@)[mid as int].0, rows_view(rows@)[k].0));
                            if rows@[k].key@ != rows@[mid as int].key@ {
                                lemma_lex_lt_transitive(key@, rows@[mid as int].key@, rows@[k].key@);
                            }
                        }
                    }
                }
            }
            hi = mid;
        }
    }
    proof {
        if sorted {
            assert forall|k: int| 0 <= k < rows@.len() implies (#[trigger] rows@[k]).key@ != key@ by {
                lemma_lex_lt_irreflexive(key@);
            }
        }
    }
    None
}

/// The rows hold, under `B{hash}` keys that are unique and in order, each
/// header of `chain`; and there are at least as many rows as headers.
pub open spec fn spec_stores_chain(rows: Seq<DBRow>, chain: Seq<Seq<u8>>) -> bool {
    &&& sorted_by_key(rows_view(rows))
    &&& forall|i: int, j: int| 0 <= i < j < rows.len() ==> (#[trigger] rows[i]).key@ != (#[trigger] rows[j]).key@
    &&& forall|i: int|
        0 <= i < chain.len() ==> exists|k: int|
            0 <= k < rows.len() && (#[trigger] rows[k]).key@ == seq![CODE_HEADER] + sha256d_of(
                #[trigger] chain[i],
            ) && rows[k].value@ == chain[i]
    &&& chain.len() <= rows.len()
}

/// `chain` runs from a header with no parent up to `tip`, and no header of it
/// hashes to the null hash.
pub open spec fn spec_chain_to(chain: Seq<Seq<u8>>, tip: Seq<u8>) -> bool {
    &&& spec_reach_tip(chain, tip)
    &&& forall|i: int| 0 <= i < chain.len() ==> sha256d_of(#[trigger] chain[i]) != null_hash()
}

/// Walks the stored header rows down from `tip` to the header with no parent
/// and returns the headers met, lowest first. On rows that store `chain` (a
/// chain down from `tip`), it returns `chain`.
#[verifier::rlimit(100)]
fn walk_stored_chain(rows: &Vec<DBRow>, tip: &FullHash, Ghost(chain): Ghost<Seq<Seq<u8>>>) -> (r:
    Result<Vec<Vec<u8>>, HeaderError>)
    ensures
        spec_stores_chain(rows@, chain) && spec_chain_to(chain, tip@) ==> (r matches Ok(v)
            && v@.map_values(|h: Vec<u8>| h@) == chain),
{
    let ghost good = spec_stores_chain(rows@, chain) && spec_chain_to(chain, tip@);
    let ghost n = chain.len() as int;
    let mut collected: Vec<Vec<u8>> = Vec::new();
    let mut current: FullHash = *tip;
    let mut steps: usize = 0;
    while !is_null_hash(&current)
        invariant
            steps <= rows@.len(),
            good == (spec_stores_chain(rows@, chain) && spec_chain_to(chain, tip@)),
            n == chain.len(),
            good ==> steps <= n,
            good ==> collected@.len() == steps,
            good ==> forall|t: int| 0 <= t < steps ==> (#[trigger] collected@[t])@ == chain[n - 1 - t],
            good ==> current@ == if steps < n {
                sha256d_of(chain[n - 1 - steps])
            } else {
                null_hash()
            },
        ensures
            good ==> steps == n && collected@.len() == n && forall|t: int|
                0 <= t < n ==> (#[trigger] collected@[t])@ == chain[n - 1 - t],
        decreases rows@.len() - steps,
    {
        let mut key: Vec<u8> = Vec::new();
        key.push(CODE_HEADER);
        crate::codec::push_all(&mut key, current.as_slice());
        assert(key@ =~= seq![CODE_HEADER] + current@);
        let ghost j = n - 1 - steps;
        let i = match find_row(rows, key.as_slice()) {
            Some(i) => i,
            None => {
                proof {
                    if good {
                        let h = chain[j];
                        let k = choose|k: int|
                            0 <= k < rows@.len() && (#[trigger] rows@[k]).key@ == seq![CODE_HEADER]
                                + sha256d_of(h) && rows@[k].value@ == h;
                        assert(rows@[k].key@ == key@);
                    }
                }
                return Err(HeaderError::MissingHeader);
            },
        };
        proof {
            if good {
                let h = chain[j];
                let k = choose|k: int|
                    0 <= k < rows@.len() && (#[trigger] rows@[k]).key@ == seq![CODE_HEADER]
                        + sha256d_of(h) && rows@[k].value@ == h;
                if k < i {
                    assert(rows@[k].key@ != rows@[i as int].key@);
                } else if i < k {
                    assert(rows@[i as int].key@ != rows@[k].key@);
                }
                assert(rows@[i as int].value@ == h);
            }
        }
        // more steps than rows: the walk went round a cycle
        if steps >= rows.len() {
            return Err(HeaderError::NotContiguous);
        }
        let header = rows[i].value.clone();
        if header.len() != crate::header::HEADER_LEN {
            return Err(HeaderError::InvalidHeader);
        }
        current = crate::header::prev_blockhash(&header);
        collected.push(header);
        proof {
            if good && j > 0 {
                assert(crate::header::spec_prev_hash(chain[j]) == sha256d_of(chain[j - 1]));
            }
        }
        steps = steps + 1;
    }
    let ghost walked = collected@;
    let mut ordered: Vec<Vec<u8>> = Vec::new();
    while collected.len() > 0
        invariant
            collected@ == walked.subrange(0, walked.len() - ordered@.len()),
            ordered@.len() <= walked.len(),
            forall|t: int| 0 <= t < ordered@.len() ==> #[trigger] ordered@[t] == walked[walked.len() - 1 - t],
        ensures
            ordered@.len() == walked.len(),
        decreases collected@.len(),
    {
        let h = collected.pop().unwrap();
        ordered.push(h);
        assert(collected@ =~= walked.subrange(0, walked.len() - ordered@.len()));
    }
    proof {
        if good {
            assert(ordered@.map_values(|h: Vec<u8>| h@) =~= chain);
        }
    }
    Ok(ordered)
}

/// Numbered from height 0, the headers of a chain down from `tip` continue an
/// empty header list.
proof fn lemma_chain_continues_empty(l: HeaderList, chain: Seq<Seq<u8>>, tip: Seq<u8>, entries: Seq<crate::header::HeaderEntry>)
    requires
        l.headers@.len() == 0,
        spec_chain_to(chain, tip),
        chain.len() > 0,
        crate::header::spec_numbered(chain, 0, entries),
    ensures
        l.spec_continues(entries),
        sha256d_of(chain.last()) == entries.last().hash@,
{
    assert(entries[0].height == 0);
    assert(entries[0].header@ == chain[0]);
    assert forall|i: int| 0 <= i < entries.len() implies (#[trigger] entries[i]).wf()
        && entries[i].height == entries[0].height + i by {
        assert(entries[i].height == i);
        assert(entries[i].header@ == chain[i]);
        assert(entries[i].hash@ == sha256d_of(chain[i]));
        assert(chain[i].len() == 80);
    }
    assert forall|i: int| 0 < i < entries.len() implies crate::header::spec_prev_hash(
        (#[trigger] entries[i]).header@,
    ) == entries[i - 1].hash@ by {
        assert(entries[i].header@ == chain[i]);
        assert(crate::header::spec_prev_hash(chain[i]) == sha256d_of(chain[i - 1]));
    }
    assert(entries.last() == entries[entries.len() - 1]);
}

/// Numbers the headers of `ordered` from height 0 into a new list.
#[verifier::rlimit(100)]
fn list_from_chain(ordered: &Vec<Vec<u8>>, Ghost(chain): Ghost<Seq<Seq<u8>>>, Ghost(tip): Ghost<Seq<u8>>) -> (r: Result<HeaderList, HeaderError>)
    ensures
        r matches Ok(l) ==> l.wf(),
        ordered@.map_values(|h: Vec<u8>| h@) == chain && spec_chain_to(chain, tip) ==> (r matches Ok(l)
            && l.headers@.map_values(|e: crate::header::HeaderEntry| e.header@) == chain && (if chain.len() == 0 {
            l.tip@ == null_hash()
        } else {
            l.tip@ == sha256d_of(chain.last())
        })),
{
    let ghost good = ordered@.map_values(|h: Vec<u8>| h@) == chain && spec_chain_to(chain, tip);
    let mut list = HeaderList::empty();
    if ordered.len() > usize::MAX - list.len() {
        return Err(HeaderError::NotContiguous);
    }
    proof {
        if good && chain.len() > 0 {
            assert(ordered@[0]@ == chain[0]);
            assert(forall|i: int| 0 <= i < ordered@.len() ==> #[trigger] ordered@[i]@ == chain[i]);
            assert(list.spec_fork_start(crate::header::spec_prev_hash(chain[0])) == Some(0int));
        }
    }
    let entries = match list.order(ordered) {
        Ok(e) => e,
        Err(e) => {
            return Err(e);
        },
    };
    let ghost ents = entries@;
    proof {
        if good && chain.len() > 0 {
            lemma_chain_continues_empty(list, chain, tip, ents);
        }
    }
    match list.apply(entries) {
        Ok(()) => {},
        Err(e) => {
            return Err(e);
        },
    }
    proof {
        if good && chain.len() > 0 {
            assert(list.headers@ =~= ents);
            assert(forall|i: int| 0 <= i < ents.len() ==> (#[trigger] ents[i]).header@ == chain[i]);
        }
        if good {
            assert(list.headers@.map_values(|e: crate::header::HeaderEntry| e.header@) =~= chain);
        }
    }
    Ok(list)
}

impl HeaderList {
    /// Rebuilds the chain from the stored header rows (`B{hash}` -> header, in key
    /// order, as a scan returns them) by walking down from `tip` to the header with
    /// no parent. Fails when a header on the way is missing or malformed, or when
    /// the headers do not hash to the chain they claim; succeeds when the rows hold
    /// a chain down from `tip`.
    pub fn new(rows: &Vec<DBRow>, tip: &FullHash) -> (r: Result<HeaderList, HeaderError>)
        ensures
            r matches Ok(l) ==> l.wf() && l.tip == *tip,
            (exists|chain: Seq<Seq<u8>>| spec_stores_chain(rows@, chain) && spec_chain_to(chain, tip@))
                ==> (r matches Ok(l) && spec_stores_chain(
                rows@,
                l.headers@.map_values(|e: crate::header::HeaderEntry| e.header@),
            ) && spec_chain_to(l.headers@.map_values(|e: crate::header::HeaderEntry| e.header@), tip@)),
    {
        let ghost good = exists|chain: Seq<Seq<u8>>|
            spec_stores_chain(rows@, chain) && spec_chain_to(chain, tip@);
        let ghost chain: Seq<Seq<u8>> = if good {
            choose|chain: Seq<Seq<u8>>| spec_stores_chain(rows@, chain) && spec_chain_to(chain, tip@)
        } else {
            Seq::empty()
        };
        let ordered = match walk_stored_chain(rows, tip, Ghost(chain)) {
            Ok(v) => v,
            Err(e) => {
                return Err(e);
            },
        };
        let list = match list_from_chain(&ordered, Ghost(chain), Ghost(tip@)) {
            Ok(l) => l,
            Err(e) => {
                return Err(e);
            },
        };
        if !hash_eq(&list.tip, tip) {
            return Err(HeaderError::NotContiguous);
        }
        assert(list.tip =~= *tip);
        Ok(list)
    }
}

} // verus!
