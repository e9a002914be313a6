//! What the fetcher hands to the indexer, and the pure parts of fetching:
//! batching the headers to fetch, pairing fetched blocks with their headers,
//! and reading records out of the node's block files.
use vstd::prelude::*;
use crate::chain::Block;
use crate::codec::{le_value, read_le};
use crate::header::HeaderEntry;
use crate::util::FullHash;

verus! {

/// Where blocks are fetched from.
#[derive(Debug, Copy, Clone, PartialEq, Eq, Structural)]
pub enum FetchFrom {
    Bitcoind,
    BlkFiles,
}

/// The first indexing reads the node's block files; later runs, or an
/// operator who asks for it, use RPC.
pub fn fetch_from(jsonrpc_import: bool, done_initial_sync: bool) -> (r: FetchFrom)
    ensures
        r == (if jsonrpc_import || done_initial_sync {
            FetchFrom::Bitcoind
        } else {
            FetchFrom::BlkFiles
        }),
{
    if jsonrpc_import || done_initial_sync {
        FetchFrom::Bitcoind
    } else {
        FetchFrom::BlkFiles
    }
}

/// The number of headers whose blocks are asked for in one batched request.
pub const RPC_BATCH: usize = 100;

/// A fetched block with its place in the chain and its serialized size.
#[derive(Debug, Clone)]
pub struct BlockEntry {
    pub block: Block,
    pub entry: HeaderEntry,
    pub size: u32,
}


/// Why a fetched batch was refused.
#[derive(Debug, Copy, Clone, PartialEq, Eq, Structural)]
pub enum FetchError {
    /// The node returned another number of blocks than was asked for.
    WrongBlockCount,
}

/// The half-open ranges `[k * size, min((k + 1) * size, len))` that cut `len`
/// items into consecutive batches of at most `size`.
pub open spec fn spec_chunk_ok(len: nat, size: nat, r: Seq<(usize, usize)>) -> bool {
    &&& forall|k: int|
        0 <= k < r.len() ==> (#[trigger] r[k]).0 < r[k].1 && r[k].1 - r[k].0 <= size
    &&& r.len() > 0 ==> r[0].0 == 0 && r.last().1 == len
    &&& forall|k: int| 0 < k < r.len() ==> (#[trigger] r[k]).0 == r[k - 1].1
    &&& len == 0 <==> r.len() == 0
}

/// Cuts `len` items into consecutive batches of at most `size`, in order.
#[verifier::rlimit(50)]
pub fn chunk_ranges(len: usize, size: usize) -> (r: Vec<(usize, usize)>)
    requires
        size > 0,
    ensures
        spec_chunk_ok(len as nat, size as nat, r@),
        forall|k: int| 0 <= k < r@.len() - 1 ==> (#[trigger] r@[k]).1 - r@[k].0 == size,
{
    let mut r: Vec<(usize, usize)> = Vec::new();
    let mut start: usize = 0;
    while start < len
        invariant
            size > 0,
            start <= len,
            r@.len() > 0 ==> r@[0].0 == 0 && r@.last().1 == start,
            r@.len() == 0 <==> start == 0,
            forall|k: int|
                0 <= k < r@.len() ==> (#[trigger] r@[k]).0 < r@[k].1 && r@[k].1 - r@[k].0 <= size,
            forall|k: int| 0 < k < r@.len() ==> (#[trigger] r@[k]).0 == r@[k - 1].1,
            forall|k: int| 0 <= k < r@.len() - 1 ==> (#[trigger] r@[k]).1 - r@[k].0 == size,
            r@.len() > 0 && start < len ==> r@.last().1 - r@.last().0 == size,
        decreases len - start,
    {
        let end = if len - start > size {
            start + size
        } else {
            len
        };
        r.push((start, end));
        start = end;
    }
    r
}

/// A copy of a header entry.
pub fn copy_entry(e: &HeaderEntry) -> (r: HeaderEntry)
    ensures
        r.height == e.height,
        r.hash == e.hash,
        r.header@ == e.header@,
{
    HeaderEntry { height: e.height, hash: e.hash, header: e.header.clone() }
}

/// Pairs the blocks fetched for a batch with the entries they were fetched for,
/// in the entries' order. Fails when the counts differ.
#[verifier::rlimit(50)]
pub fn zip_entries(blocks: Vec<Block>, entries: &[HeaderEntry]) -> (r: Result<Vec<BlockEntry>, FetchError>)
    ensures
        r.is_err() <==> blocks@.len() != entries@.len(),
        r matches Ok(v) ==> v@.len() == entries@.len() && forall|i: int|
            0 <= i < v@.len() ==> (#[trigger] v@[i]).block == blocks@[i] && v@[i].entry.height
                == entries@[i].height && v@[i].entry.hash == entries@[i].hash && v@[i].entry.header@
                == entries@[i].header@ && v@[i].size == blocks@[i].size,
{
    if blocks.len() != entries.len() {
        return Err(FetchError::WrongBlockCount);
    }
    let ghost orig = blocks@;
    let mut rest = blocks;
    let mut out: Vec<BlockEntry> = Vec::new();
    let mut i: usize = 0;
    while i < entries.len()
        invariant
            orig.len() == entries@.len(),
            i <= entries@.len(),
            rest@ == orig.subrange(i as int, orig.len() as int),
            out@.len() == i,
            forall|k: int|
                0 <= k < i ==> (#[trigger] out@[k]).block == orig[k] && out@[k].entry.height
                    == entries@[k].height && out@[k].entry.hash == entries@[k].hash
                    && out@[k].entry.header@ == entries@[k].header@ && out@[k].size == orig[k].size,
        decreases entries@.len() - i,
    {
        let block = rest.remove(0);
        let size = block.size;
        out.push(BlockEntry { block, entry: copy_entry(&entries[i]), size });
        i = i + 1;
        assert(rest@ =~= orig.subrange(i as int, orig.len() as int));
    }
    Ok(out)
}

/// The records of a block file, from `pos` on: a record is the network magic
/// (4 bytes, little-endian), a length (4 bytes, little-endian) and that many
/// bytes of block. Bytes that do not start a record (padding, or a record of
/// another network) are skipped one at a time; a record whose length is
/// directly followed by the magic again (a header written without its block)
/// is skipped; the scan ends at a record that does not fit in the file.
pub open spec fn spec_blk_records(data: Seq<u8>, magic: u32, pos: int) -> Seq<Seq<u8>>
    decreases data.len() - pos,
{
    if pos < 0 || pos + 4 > data.len() {
        Seq::empty()
    } else if le_value(data.subrange(pos, pos + 4)) != magic as nat {
        spec_blk_records(data, magic, pos + 1)
    } else if pos + 8 > data.len() {
        Seq::empty()
    } else {
        let size = le_value(data.subrange(pos + 4, pos + 8));
        let start = pos + 8;
        if start + 4 > data.len() {
            Seq::empty()
        } else if le_value(data.subrange(start, start + 4)) == magic as nat {
            spec_blk_records(data, magic, start)
        } else if start + size > data.len() {
            Seq::empty()
        } else {
            seq![data.subrange(start, start + size)] + spec_blk_records(data, magic, start + size)
        }
    }
}

/// The bytes `s[start..end]`.
pub fn copy_range(s: &[u8], start: usize, end: usize) -> (r: Vec<u8>)
    requires
        start <= end <= s@.len(),
    ensures
        r@ == s@.subrange(start as int, end as int),
{
    let mut r: Vec<u8> = Vec::new();
    let mut i: usize = start;
    while i < end
        invariant
            start <= i <= end,
            end <= s@.len(),
            r@ == s@.subrange(start as int, i as int),
        decreases end - i,
    {
        r.push(s[i]);
        i = i + 1;
        assert(r@ =~= s@.subrange(start as int, i as int));
    }
    r
}

/// The raw blocks of a block file whose records carry `magic`, in file order.
#[verifier::rlimit(50)]
pub fn parse_blk_records(data: &[u8], magic: u32) -> (r: Vec<Vec<u8>>)
    ensures
        r@.map_values(|b: Vec<u8>| b@) == spec_blk_records(data@, magic, 0),
{
    let len = data.len();
    let mut out: Vec<Vec<u8>> = Vec::new();
    let mut pos: usize = 0;
    while pos < len
        invariant
            len == data@.len(),
            pos <= len,
            out@.map_values(|b: Vec<u8>| b@) + spec_blk_records(data@, magic, pos as int)
                == spec_blk_records(data@, magic, 0),
        ensures
            out@.map_values(|b: Vec<u8>| b@) + spec_blk_records(data@, magic, pos as int)
                == spec_blk_records(data@, magic, 0),
            spec_blk_records(data@, magic, pos as int) == Seq::<Seq<u8>>::empty(),
        decreases len - pos,
    {
        let ghost before = out@.map_values(|b: Vec<u8>| b@);
        if len - pos < 4 {
            assert(spec_blk_records(data@, magic, pos as int) =~= Seq::<Seq<u8>>::empty());
            break;
        }
        let m = read_le(data, pos, 4);
        if m != magic as u64 {
            pos = pos + 1;
            continue;
        }
        if len - pos < 8 {
            assert(spec_blk_records(data@, magic, pos as int) =~= Seq::<Seq<u8>>::empty());
            break;
        }
        let size = read_le(data, pos + 4, 4);
        let start = pos + 8;
        if len - start < 4 {
            assert(spec_blk_records(data@, magic, pos as int) =~= Seq::<Seq<u8>>::empty());
            break;
        }
        let peek = read_le(data, start, 4);
        if peek == magic as u64 {
            pos = start;
            continue;
        }
        if size > (len - start) as u64 {
            assert(spec_blk_records(data@, magic, pos as int) =~= Seq::<Seq<u8>>::empty());
            break;
        }
        let end = start + size as usize;
        let block = copy_range(data, start, end);
        out.push(block);
        proof {
            assert(out@.map_values(|b: Vec<u8>| b@) =~= before.push(block@));
            assert(spec_blk_records(data@, magic, pos as int) == seq![block@] + spec_blk_records(
                data@,
                magic,
                end as int,
            ));
            assert(before.push(block@) + spec_blk_records(data@, magic, end as int) =~= before
                + spec_blk_records(data@, magic, pos as int));
        }
        pos = end;
    }
    assert(out@.map_values(|b: Vec<u8>| b@) =~= spec_blk_records(data@, magic, 0));
    out
}

} // verus!

verus! {

/// Blocks read from block files are handed on in batches of this many.
pub const BLK_BATCH: usize = 64;

/// The entries are in hash order.
pub open spec fn sorted_by_hash(entries: Seq<HeaderEntry>) -> bool {
    forall|i: int, j: int|
        0 <= i < j < entries.len() ==> crate::store::lex_le(
            (#[trigger] entries[i]).hash@,
            (#[trigger] entries[j]).hash@,
        )
}

/// Relies on std's `slice::sort_unstable_by` with `<[u8; 32]>::cmp`, the
/// lexicographic byte order: the entries end up reordered by hash.
#[verifier::external_body]
fn sort_entries_by_hash(entries: &mut Vec<HeaderEntry>)
    ensures
        final(entries)@.to_multiset() == old(entries)@.to_multiset(),
        sorted_by_hash(final(entries)@),
{
    entries.sort_unstable_by(|a, b| a.hash.cmp(&b.hash))
}

/// Finds an entry with hash `hash` in entries in hash order; `None` means there is none.
#[verifier::rlimit(50)]
pub fn find_entry(entries: &Vec<HeaderEntry>, hash: &FullHash) -> (r: Option<usize>)
    requires
        sorted_by_hash(entries@),
    ensures
        r matches Some(i) ==> i < entries@.len() && entries@[i as int].hash == *hash,
        r is None ==> forall|k: int| 0 <= k < entries@.len() ==> (#[trigger] entries@[k]).hash@ != hash@,
{
    let mut lo: usize = 0;
    let mut hi: usize = entries.len();
    while lo < hi
        invariant
            lo <= hi <= entries@.len(),
            sorted_by_hash(entries@),
            forall|k: int| 0 <= k < lo ==> crate::codec::lex_lt((#[trigger] entries@[k]).hash@, hash@),
            forall|k: int| hi <= k < entries@.len() ==> crate::codec::lex_lt(hash@, (#[trigger] entries@[k]).hash@),
        decreases hi - lo,
    {
        let mid = lo + (hi - lo) / 2;
        let c = crate::store::compare_bytes(entries[mid].hash.as_slice(), hash.as_slice());
        if c == 0 {
            assert(entries@[mid as int].hash =~= *hash);
            return Some(mid);
        } else if c < 0 {
            proof {
                assert forall|k: int| 0 <= k < mid + 1 implies crate::codec::lex_lt((#[trigger] entries@[k]).hash@, hash@) by {
                    if k < mid && entries@[k].hash@ != entries@[mid as int].hash@ {
                        crate::codec::lemma_lex_lt_transitive(entries@[k].hash@, entries@[mid as int].hash@, hash@);
                    }
                }
            }
            lo = mid + 1;
        } else {
            proof {
                assert forall|k: int| mid <= k < entries@.len() implies crate::codec::lex_lt(hash@, (#[trigger] entries@[k]).hash@) by {
                    if k > mid && entries@[k].hash@ != entries@[mid as int].hash@ {
                        crate::codec::lemma_lex_lt_transitive(hash@, entries@[mid as int].hash@, entries@[k].hash@);
                    }
                }
            }
            hi = mid;
        }
    }
    proof {
        assert forall|k: int| 0 <= k < entries@.len() implies (#[trigger] entries@[k]).hash@ != hash@ by {
            crate::codec::lemma_lex_lt_irreflexive(hash@);
        }
    }
    None
}

/// Routes the blocks read from block files: a block whose hash is that of a
/// wanted header not yet met joins the current batch with that header; any
/// other block (unknown, orphaned, or met before) is skipped. Full batches are
/// handed out as they fill.
pub struct BlkRouter {
    wanted: Vec<HeaderEntry>,
    taken: Vec<bool>,
    batch: Vec<BlockEntry>,
}

impl BlkRouter {
    pub closed spec fn wf(&self) -> bool {
        &&& sorted_by_hash(self.wanted@)
        &&& self.taken@.len() == self.wanted@.len()
        &&& self.batch@.len() < BLK_BATCH
    }

    /// The wanted headers, in hash order.
    pub closed spec fn spec_wanted(&self) -> Seq<HeaderEntry> {
        self.wanted@
    }

    /// Which of them were met already.
    pub closed spec fn spec_taken(&self) -> Seq<bool> {
        self.taken@
    }

    /// The blocks batched and not handed out yet.
    pub closed spec fn spec_batch(&self) -> Seq<BlockEntry> {
        self.batch@
    }

    pub fn new(wanted: Vec<HeaderEntry>) -> (r: BlkRouter)
        ensures
            r.wf(),
            r.spec_wanted().to_multiset() == wanted@.to_multiset(),
            forall|i: int| 0 <= i < r.spec_taken().len() ==> !r.spec_taken()[i],
            r.spec_batch().len() == 0,
    {
        let mut wanted = wanted;
        sort_entries_by_hash(&mut wanted);
        let mut taken: Vec<bool> = Vec::new();
        let mut i: usize = 0;
        while i < wanted.len()
            invariant
                i <= wanted@.len(),
                taken@.len() == i,
                forall|k: int| 0 <= k < i ==> !taken@[k],
            decreases wanted@.len() - i,
        {
            taken.push(false);
            i = i + 1;
        }
        BlkRouter { wanted, taken, batch: Vec::new() }
    }

    /// Takes one block read from the files, with its hash and size. Returns the
    /// batch when this block fills it.
    #[verifier::rlimit(50)]
    pub fn route(&mut self, hash: FullHash, block: Block, size: u32) -> (r: Option<Vec<BlockEntry>>)
        requires
            old(self).wf(),
        ensures
            final(self).wf(),
            final(self).spec_wanted() == old(self).spec_wanted(),
            (forall|k: int| 0 <= k < old(self).spec_wanted().len() ==> (#[trigger] old(self).spec_wanted()[k]).hash@ != hash@)
                ==> r is None && final(self).spec_taken() == old(self).spec_taken() && final(self).spec_batch() == old(self).spec_batch(),
            ({
                let w = old(self).spec_wanted();
                let t = old(self).spec_taken();
                let b = old(self).spec_batch();
                ||| (r is None && final(self).spec_taken() == t && final(self).spec_batch() == b
                    && !((exists|j: int| 0 <= j < w.len() && (#[trigger] w[j]).hash@ == hash@)
                    && (forall|j: int| 0 <= j < w.len() && (#[trigger] w[j]).hash@ == hash@ ==> !t[j])))
                ||| exists|i: int|
                    #![trigger w[i]]
                    0 <= i < w.len() && w[i].hash == hash && !t[i] && final(self).spec_taken() == t.update(i, true)
                        && {
                        let e = final_entry(block, w[i], size);
                        if b.len() + 1 == BLK_BATCH {
                            r matches Some(v) && v@.len() == BLK_BATCH && v@.drop_last() == b
                                && same_entry(v@.last(), e) && final(self).spec_batch().len() == 0
                        } else {
                            r is None && final(self).spec_batch().drop_last() == b && same_entry(
                                final(self).spec_batch().last(),
                                e,
                            ) && final(self).spec_batch().len() == b.len() + 1
                        }
                    }
            }),
    {
        let ghost old_self = *self;
        let ghost w = self.wanted@;
        let ghost t = self.taken@;
        let ghost b = self.batch@;
        let i = match find_entry(&self.wanted, &hash) {
            Some(i) => i,
            None => {
                return None;
            },
        };
        if self.taken[i] {
            return None;
        }
        self.taken.set(i, true);
        let entry = copy_entry(&self.wanted[i]);
        let ghost e = final_entry(block, w[i as int], size);
        self.batch.push(BlockEntry { block, entry, size });
        proof {
            assert(w[i as int].hash@ == hash@);
            assert(old_self.spec_wanted()[i as int].hash@ == hash@);
            assert(self.taken@ == t.update(i as int, true));
            assert(self.batch@.drop_last() =~= b);
            assert(same_entry(self.batch@.last(), e));
        }
        if self.batch.len() == BLK_BATCH {
            let ghost pre = self.batch@;
            let full = self.batch.split_off(0);
            proof {
                assert(full@ =~= pre);
                assert(self.batch@.len() == 0);
            }
            return Some(full);
        }
        None
    }

    /// The last, partly filled batch.
    pub fn finish(self) -> (r: Vec<BlockEntry>)
        ensures
            r@ == self.spec_batch(),
    {
        self.batch
    }
}

/// The batch entry for `block` read for wanted header `w`.
pub open spec fn final_entry(block: Block, w: HeaderEntry, size: u32) -> BlockEntry {
    BlockEntry { block, entry: w, size }
}

/// Two batch entries hold the same block, size and header (the header bytes compared by value).
pub open spec fn same_entry(a: BlockEntry, b: BlockEntry) -> bool {
    &&& a.block == b.block
    &&& a.size == b.size
    &&& a.entry.height == b.entry.height
    &&& a.entry.hash == b.entry.hash
    &&& a.entry.header@ == b.entry.header@
}

} // verus!

verus! {

/// Bytes that never read as the network magic do not start a record: a record
/// of another network (with no window of its bytes reading as our magic) and
/// zero padding are skipped, and the scan goes on right after them as if they
/// were not there.
pub proof fn foreign_bytes_are_skipped(data: Seq<u8>, magic: u32, pos: int, end: int)
    requires
        0 <= pos <= end,
        forall|q: int|
            pos <= q < end && q + 4 <= data.len() ==> le_value(#[trigger] data.subrange(q, q + 4))
                != magic as nat,
    ensures
        spec_blk_records(data, magic, pos) == spec_blk_records(data, magic, end),
    decreases end - pos,
{
    if pos < end {
        if pos + 4 > data.len() {
            assert(spec_blk_records(data, magic, pos) == Seq::<Seq<u8>>::empty());
            assert(spec_blk_records(data, magic, end) == Seq::<Seq<u8>>::empty());
        } else {
            assert(le_value(data.subrange(pos, pos + 4)) != magic as nat);
            foreign_bytes_are_skipped(data, magic, pos + 1, end);
        }
    }
}

} // verus!
