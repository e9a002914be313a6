//! The indexer's view of the best chain: block headers by height, with the
//! hash of each and the current tip. New headers from the node are numbered
//! from the point where they connect, and applied by cutting the chain there.
use vstd::prelude::*;
use crate::chain::{header_hash, sha256d_of};
use crate::schema::slice_from;
use crate::util::{full_hash, hash_eq, FullHash};

verus! {

/// Cutting a well-formed chain at the first entry's height and appending
/// entries that continue it gives a well-formed chain.
#[verifier::rlimit(50)]
proof fn lemma_splice_wf(old_list: HeaderList, ents: Seq<HeaderEntry>, new_list: HeaderList)
    requires
        old_list.wf(),
        old_list.spec_continues(ents),
        ents.len() > 0,
        new_list.headers@ == old_list.headers@.subrange(0, ents[0].height as int) + ents,
        new_list.tip == ents.last().hash,
    ensures
        new_list.wf(),
{
    let hs = new_list.headers@;
    let h0 = ents[0].height as int;
    assert forall|i: int| 0 <= i < hs.len() implies (#[trigger] hs[i]).height == i
        && hs[i].wf() by {
        if i >= h0 {
            assert(hs[i] == ents[i - h0]);
        }
    }
    assert forall|i: int| 0 < i < hs.len() implies spec_prev_hash(
        (#[trigger] hs[i]).header@,
    ) == hs[i - 1].hash@ by {
        if i > h0 {
            assert(hs[i] == ents[i - h0]);
            assert(hs[i - 1] == ents[i - 1 - h0]);
        } else if i == h0 {
            assert(hs[i] == ents[0]);
        }
    }
    assert(hs.last() == ents.last());
}

/// The length of a serialized block header.
pub const HEADER_LEN: usize = 80;

/// A header at its place in the chain.
#[derive(Debug, Clone)]
pub struct HeaderEntry {
    pub height: usize,
    pub hash: FullHash,
    pub header: Vec<u8>,
}

/// Why a header sequence was refused.
#[derive(Debug, Copy, Clone, PartialEq, Eq, Structural)]
pub enum HeaderError {
    /// A header is not 80 bytes long.
    InvalidHeader,
    /// A header does not point to the one before it.
    NotContiguous,
    /// The first header's parent is not part of the chain.
    NonConnecting,
    /// A stored header needed to walk back from the tip is missing.
    MissingHeader,
}

/// The 32 zero bytes that stand for "no parent".
pub open spec fn null_hash() -> Seq<u8> {
    Seq::new(32, |i: int| 0u8)
}

/// The parent hash field of a serialized header (bytes 4 to 36).
pub open spec fn spec_prev_hash(header: Seq<u8>) -> Seq<u8> {
    header.subrange(4, 36)
}

impl HeaderEntry {
    /// The header is 80 bytes and `hash` is its hash.
    pub open spec fn wf(self) -> bool {
        &&& self.header@.len() == 80
        &&& self.hash@ == sha256d_of(self.header@)
    }

    pub fn hash(&self) -> (r: &FullHash)
        ensures
            *r == self.hash,
    {
        &self.hash
    }

    pub fn header(&self) -> (r: &Vec<u8>)
        ensures
            *r == self.header,
    {
        &self.header
    }

    pub fn height(&self) -> (r: usize)
        ensures
            r == self.height,
    {
        self.height
    }
}

/// The parent hash of an 80-byte header.
pub fn prev_blockhash(header: &Vec<u8>) -> (r: FullHash)
    requires
        header@.len() == 80,
    ensures
        r@ == spec_prev_hash(header@),
{
    let r = full_hash(slice_from(header.as_slice(), 4));
    assert(r@ =~= spec_prev_hash(header@));
    r
}

/// Whether `h` is the null hash.
pub fn is_null_hash(h: &FullHash) -> (r: bool)
    ensures
        r == (h@ == null_hash()),
{
    let zero: FullHash = [0u8; 32];
    assert(zero@ =~= null_hash());
    hash_eq(h, &zero)
}

/// The highest index of an entry of `entries` whose hash is `hash`.
pub open spec fn spec_find(entries: Seq<HeaderEntry>, hash: Seq<u8>) -> Option<int>
    decreases entries.len(),
{
    if entries.len() == 0 {
        None
    } else if entries.last().hash@ == hash {
        Some(entries.len() - 1)
    } else {
        spec_find(entries.drop_last(), hash)
    }
}

pub proof fn lemma_find(entries: Seq<HeaderEntry>, hash: Seq<u8>)
    ensures
        spec_find(entries, hash) matches Some(j) ==> 0 <= j < entries.len() && entries[j].hash@
            == hash && forall|k: int| j < k < entries.len() ==> entries[k].hash@ != hash,
        spec_find(entries, hash) is None ==> forall|k: int|
            0 <= k < entries.len() ==> entries[k].hash@ != hash,
    decreases entries.len(),
{
    if entries.len() > 0 {
        let d = entries.drop_last();
        assert(forall|k: int| 0 <= k < d.len() ==> d[k] == entries[k]);
        if entries.last().hash@ != hash {
            lemma_find(d, hash);
        }
    }
}

/// Consecutive headers of `hs` are linked by their parent hash.
pub open spec fn spec_linked(hs: Seq<Seq<u8>>) -> bool {
    forall|i: int| 0 < i < hs.len() ==> spec_prev_hash(#[trigger] hs[i]) == sha256d_of(hs[i - 1])
}

/// The entries for headers `hs` numbered from `start`.
pub open spec fn spec_numbered(hs: Seq<Seq<u8>>, start: int, r: Seq<HeaderEntry>) -> bool {
    &&& r.len() == hs.len()
    &&& forall|i: int|
        0 <= i < r.len() ==> #[trigger] r[i].height == start + i && r[i].header@ == hs[i]
            && r[i].hash@ == sha256d_of(hs[i])
}

/// The ordered list of headers of the best chain known to the indexer.
#[derive(Debug)]
pub struct HeaderList {
    pub headers: Vec<HeaderEntry>,
    pub tip: FullHash,
}

impl HeaderList {
    /// Entry `i` is at height `i`, every entry points to the one below it, the
    /// first has no parent, and `tip` is the last one's hash (null when empty).
    pub open spec fn wf(&self) -> bool {
        let hs = self.headers@;
        &&& forall|i: int| 0 <= i < hs.len() ==> (#[trigger] hs[i]).height == i && hs[i].wf()
        &&& forall|i: int|
            0 < i < hs.len() ==> spec_prev_hash((#[trigger] hs[i]).header@) == hs[i - 1].hash@
        &&& hs.len() > 0 ==> spec_prev_hash(hs[0].header@) == null_hash()
        &&& if hs.len() == 0 {
            self.tip@ == null_hash()
        } else {
            self.tip == hs.last().hash
        }
    }

    /// The height where new headers whose first parent is `prev` would start,
    /// if they connect.
    pub open spec fn spec_fork_start(&self, prev: Seq<u8>) -> Option<int> {
        if prev == null_hash() {
            Some(0)
        } else {
            match spec_find(self.headers@, prev) {
                Some(j) => Some(j + 1),
                None => None,
            }
        }
    }

    /// An empty chain.
    pub fn empty() -> (r: HeaderList)
        ensures
            r.wf(),
            r.headers@.len() == 0,
    {
        let r = HeaderList { headers: Vec::new(), tip: [0u8; 32] };
        assert(r.tip@ =~= null_hash());
        r
    }

    pub fn len(&self) -> (r: usize)
        ensures
            r == self.headers@.len(),
    {
        self.headers.len()
    }

    pub fn is_empty(&self) -> (r: bool)
        ensures
            r == (self.headers@.len() == 0),
    {
        self.headers.len() == 0
    }

    pub fn tip(&self) -> (r: &FullHash)
        ensures
            *r == self.tip,
    {
        &self.tip
    }

    pub fn header_by_height(&self, height: usize) -> (r: Option<&HeaderEntry>)
        ensures
            height < self.headers@.len() ==> r == Some(&self.headers@[height as int]),
            height >= self.headers@.len() ==> r.is_none(),
    {
        if height < self.headers.len() {
            Some(&self.headers[height])
        } else {
            None
        }
    }

    /// The entry with hash `blockhash` (the highest, were there two), searching down
    /// from the tip.
    #[verifier::rlimit(50)]
    pub fn header_by_blockhash(&self, blockhash: &FullHash) -> (r: Option<&HeaderEntry>)
        ensures
            match spec_find(self.headers@, blockhash@) {
                Some(j) => r == Some(&self.headers@[j]),
                None => r.is_none(),
            },
    {
        let mut i: usize = self.headers.len();
        assert(self.headers@.subrange(0, i as int) =~= self.headers@);
        while i > 0
            invariant
                i <= self.headers@.len(),
                spec_find(self.headers@, blockhash@) == spec_find(
                    self.headers@.subrange(0, i as int),
                    blockhash@,
                ),
            decreases i,
        {
            let ghost s = self.headers@.subrange(0, i as int);
            if hash_eq(&self.headers[i - 1].hash, blockhash) {
                return Some(&self.headers[i - 1]);
            }
            assert(s.drop_last() =~= self.headers@.subrange(0, i - 1));
            i = i - 1;
        }
        None
    }

    /// Numbers `new_headers` (consecutive raw headers, lowest first) from the height
    /// after the entry that the first one's parent hash names. Fails when a header
    /// is not 80 bytes, when the headers are not linked, or when the first parent
    /// is neither null nor in the chain.
    #[verifier::rlimit(50)]
    pub fn order(&self, new_headers: &Vec<Vec<u8>>) -> (r: Result<Vec<HeaderEntry>, HeaderError>)
        requires
            self.wf(),
            self.headers@.len() + new_headers@.len() <= usize::MAX,
        ensures
            match r {
                Ok(entries) => {
                    &&& forall|i: int| 0 <= i < new_headers@.len() ==> new_headers@[i]@.len() == 80
                    &&& spec_linked(new_headers@.map_values(|h: Vec<u8>| h@))
                    &&& if new_headers@.len() == 0 {
                        entries@.len() == 0
                    } else {
                        self.spec_fork_start(spec_prev_hash(new_headers@[0]@)) matches Some(
                            start,
                        ) && spec_numbered(
                            new_headers@.map_values(|h: Vec<u8>| h@),
                            start,
                            entries@,
                        )
                    }
                },
                Err(HeaderError::InvalidHeader) => exists|i: int|
                    0 <= i < new_headers@.len() && new_headers@[i]@.len() != 80,
                Err(HeaderError::NotContiguous) => {
                    &&& forall|i: int| 0 <= i < new_headers@.len() ==> new_headers@[i]@.len() == 80
                    &&& !spec_linked(new_headers@.map_values(|h: Vec<u8>| h@))
                },
                Err(HeaderError::NonConnecting) => {
                    &&& forall|i: int| 0 <= i < new_headers@.len() ==> new_headers@[i]@.len() == 80
                    &&& spec_linked(new_headers@.map_values(|h: Vec<u8>| h@))
                    &&& new_headers@.len() > 0
                    &&& self.spec_fork_start(spec_prev_hash(new_headers@[0]@)) is None
                },
                Err(HeaderError::MissingHeader) => false,
            },
            ({
                &&& new_headers@.len() > 0
                &&& forall|i: int| 0 <= i < new_headers@.len() ==> new_headers@[i]@.len() == 80
                &&& spec_linked(new_headers@.map_values(|h: Vec<u8>| h@))
                &&& self.spec_fork_start(spec_prev_hash(new_headers@[0]@)) is None
            }) ==> r == Err::<Vec<HeaderEntry>, HeaderError>(HeaderError::NonConnecting),
    {
        let ghost hs = new_headers@.map_values(|h: Vec<u8>| h@);
        let n = new_headers.len();
        let mut i: usize = 0;
        while i < n
            invariant
                n == new_headers@.len(),
                i <= n,
                forall|k: int| 0 <= k < i ==> new_headers@[k]@.len() == 80,
            decreases n - i,
        {
            if new_headers[i].len() != HEADER_LEN {
                return Err(HeaderError::InvalidHeader);
            }
            i = i + 1;
        }
        if n == 0 {
            return Ok(Vec::new());
        }
        // hash every header, checking the links
        let mut hashes: Vec<FullHash> = Vec::new();
        let mut i: usize = 0;
        while i < n
            invariant
                n == new_headers@.len(),
                hs == new_headers@.map_values(|h: Vec<u8>| h@),
                i <= n,
                forall|k: int| 0 <= k < n ==> new_headers@[k]@.len() == 80,
                hashes@.len() == i,
                forall|k: int| 0 <= k < i ==> (#[trigger] hashes@[k])@ == sha256d_of(hs[k]),
                forall|k: int| 0 < k < i ==> spec_prev_hash(#[trigger] hs[k]) == sha256d_of(hs[k - 1]),
            decreases n - i,
        {
            if i > 0 {
                let prev = prev_blockhash(&new_headers[i]);
                if !hash_eq(&prev, &hashes[i - 1]) {
                    assert(hs[i as int] == new_headers@[i as int]@);
                    assert(spec_prev_hash(hs[i as int]) != sha256d_of(hs[i - 1]));
                    return Err(HeaderError::NotContiguous);
                }
            }
            hashes.push(header_hash(&new_headers[i]));
            i = i + 1;
        }
        let first_prev = prev_blockhash(&new_headers[0]);
        let start: usize = if is_null_hash(&first_prev) {
            0
        } else {
            match self.header_by_blockhash(&first_prev) {
                Some(entry) => {
                    proof {
                        lemma_find(self.headers@, first_prev@);
                    }
                    entry.height + 1
                },
                None => {
                    return Err(HeaderError::NonConnecting);
                },
            }
        };
        let mut entries: Vec<HeaderEntry> = Vec::new();
        let mut i: usize = 0;
        while i < n
            invariant
                n == new_headers@.len(),
                hs == new_headers@.map_values(|h: Vec<u8>| h@),
                hashes@.len() == n,
                forall|k: int| 0 <= k < n ==> (#[trigger] hashes@[k])@ == sha256d_of(hs[k]),
                start + n <= usize::MAX,
                i <= n,
                entries@.len() == i,
                forall|k: int|
                    0 <= k < i ==> #[trigger] entries@[k].height == start + k && entries@[k].header@
                        == hs[k] && entries@[k].hash@ == sha256d_of(hs[k]),
            decreases n - i,
        {
            entries.push(
                HeaderEntry { height: start + i, hash: hashes[i], header: new_headers[i].clone() },
            );
            i = i + 1;
        }
        Ok(entries)
    }

    /// `entries` is a run of well-formed entries at consecutive heights, linked to
    /// each other, whose first one's parent is the entry just below it in this
    /// chain (or null, at height 0).
    pub open spec fn spec_continues(&self, entries: Seq<HeaderEntry>) -> bool {
        entries.len() > 0 ==> {
            let h0 = entries[0].height as int;
            &&& h0 <= self.headers@.len()
            &&& spec_prev_hash(entries[0].header@) == (if h0 == 0 {
                null_hash()
            } else {
                self.headers@[h0 - 1].hash@
            })
            &&& forall|i: int|
                0 <= i < entries.len() ==> (#[trigger] entries[i]).wf() && entries[i].height == h0
                    + i
            &&& forall|i: int|
                0 < i < entries.len() ==> spec_prev_hash((#[trigger] entries[i]).header@)
                    == entries[i - 1].hash@
        }
    }

    /// Whether `entries` continues this chain (see `spec_continues`).
    #[verifier::rlimit(50)]
    pub fn continues(&self, entries: &Vec<HeaderEntry>) -> (r: bool)
        requires
            self.wf(),
        ensures
            r == self.spec_continues(entries@),
    {
        let n = entries.len();
        if n == 0 {
            return true;
        }
        let h0 = entries[0].height;
        if h0 > self.headers.len() || entries[0].header.len() != HEADER_LEN {
            return false;
        }
        let first_prev = prev_blockhash(&entries[0].header);
        let connects = if h0 == 0 {
            is_null_hash(&first_prev)
        } else {
            hash_eq(&first_prev, &self.headers[h0 - 1].hash)
        };
        if !connects {
            return false;
        }
        let mut i: usize = 0;
        while i < n
            invariant
                n == entries@.len(),
                n > 0,
                h0 == entries@[0].height,
                i <= n,
                forall|k: int|
                    0 <= k < i ==> (#[trigger] entries@[k]).wf() && entries@[k].height == h0 + k,
                forall|k: int|
                    0 < k < i ==> spec_prev_hash((#[trigger] entries@[k]).header@)
                        == entries@[k - 1].hash@,
            decreases n - i,
        {
            let e = &entries[i];
            if e.header.len() != HEADER_LEN || e.height < h0 || e.height - h0 != i {
                return false;
            }
            let h = header_hash(&e.header);
            if !hash_eq(&h, &e.hash) {
                return false;
            }
            if i > 0 {
                let p = prev_blockhash(&e.header);
                if !hash_eq(&p, &entries[i - 1].hash) {
                    return false;
                }
            }
            i = i + 1;
        }
        true
    }

    /// Replaces the chain above the first new entry's height by `new_entries`
    /// (as `order` returns them). Fails, changing nothing, when they do not continue
    /// the chain.
    pub fn apply(&mut self, new_entries: Vec<HeaderEntry>) -> (r: Result<(), HeaderError>)
        requires
            old(self).wf(),
        ensures
            final(self).wf(),
            r.is_ok() <==> old(self).spec_continues(new_entries@),
            r.is_ok() && new_entries@.len() > 0 ==> final(self).headers@ == old(
                self,
            ).headers@.subrange(0, new_entries@[0].height as int) + new_entries@,
            r.is_err() || new_entries@.len() == 0 ==> final(self).headers@ == old(self).headers@
                && final(self).tip == old(self).tip,
    {
        if !self.continues(&new_entries) {
            return Err(HeaderError::NonConnecting);
        }
        let n = new_entries.len();
        if n == 0 {
            return Ok(());
        }
        let h0 = new_entries[0].height;
        let tip = new_entries[n - 1].hash;
        let ghost old_list = *self;
        let mut entries = new_entries;
        self.headers.truncate(h0);
        self.headers.append(&mut entries);
        self.tip = tip;
        proof {
            lemma_splice_wf(old_list, new_entries@, *self);
        }
        Ok(())
    }
}

} // verus!

verus! {

/// A block's place in the chain: height, hash and header time.
#[derive(Debug, Copy, Clone)]
pub struct BlockId {
    pub height: usize,
    pub hash: FullHash,
    pub time: u32,
}

/// The time field of a serialized header (bytes 68 to 72, little-endian).
pub open spec fn spec_header_time(header: Seq<u8>) -> nat {
    crate::codec::le_value(header.subrange(68, 72))
}

impl BlockId {
    pub fn from_entry(e: &HeaderEntry) -> (r: BlockId)
        requires
            e.header@.len() == 80,
        ensures
            r.height == e.height,
            r.hash == e.hash,
            r.time as nat == spec_header_time(e.header@),
    {
        proof {
            crate::codec::lemma_le_value_bound(e.header@.subrange(68, 72));
            reveal_with_fuel(crate::codec::pow256, 5);
        }
        let time = crate::codec::read_le(e.header.as_slice(), 68, 4) as u32;
        BlockId { height: e.height, hash: e.hash, time }
    }
}

impl HeaderList {
    /// The block at `height` in the chain, if the chain reaches it.
    pub fn blockid_by_height(&self, height: usize) -> (r: Option<BlockId>)
        requires
            self.wf(),
        ensures
            height < self.headers@.len() ==> (r matches Some(b) && b.height == height && b.hash
                == self.headers@[height as int].hash && b.time as nat == spec_header_time(
                self.headers@[height as int].header@,
            )),
            height >= self.headers@.len() ==> r is None,
    {
        match self.header_by_height(height) {
            Some(e) => Some(BlockId::from_entry(e)),
            None => None,
        }
    }
}

} // verus!
