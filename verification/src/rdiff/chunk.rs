//! Chunks and the chunk table of a signature.

use std::collections::HashMap;
use vstd::prelude::*;

pub mod iterator;

verus! {

broadcast use vstd::std_specs::hash::group_hash_axioms;

/// The weak checksum of a chunk.
pub type RdiffChecksum = u32;

/// The strong digest of a chunk.
pub type RdiffDigest = Vec<u8>;

/// A chunk: a run of bytes of a file.
pub type RdiffChunk = Vec<u8>;

/// One entry of the chunk table: the 1-based position of a chunk in the old
/// file, and the strong digest of the chunk.
#[derive(Debug, PartialEq)]
pub struct RdiffChunkDigest {
    pub index: u32,
    pub digest: RdiffDigest,
}

/// The chunk table: for each weak checksum, the entries of the chunks that
/// have it, in the order in which they were added.
#[derive(Debug, PartialEq)]
pub struct RdiffChunkTable {
    pub chunk_table: HashMap<RdiffChecksum, Vec<RdiffChunkDigest>>,
}

/// What an [`RdiffChunkDigest`] stands for.
pub struct ChunkEntry {
    pub index: u32,
    pub digest: Seq<u8>,
}

impl View for RdiffChunkDigest {
    type V = ChunkEntry;

    open spec fn view(&self) -> ChunkEntry {
        ChunkEntry { index: self.index, digest: self.digest@ }
    }
}

/// The entries that a bucket of the table holds, in order.
pub open spec fn bucket_entries(bucket: Seq<RdiffChunkDigest>) -> Seq<ChunkEntry> {
    Seq::new(bucket.len(), |i: int| bucket[i]@)
}

impl View for RdiffChunkTable {
    type V = Map<u32, Seq<ChunkEntry>>;

    /// The table as a map from each checksum to the entries of its bucket.
    open spec fn view(&self) -> Map<u32, Seq<ChunkEntry>> {
        Map::new(
            |checksum: u32| self.chunk_table@.contains_key(checksum),
            |checksum: u32| bucket_entries(self.chunk_table@[checksum]@),
        )
    }
}

/// The index of the first entry of `bucket` whose digest is `digest`, if there is one.
pub open spec fn first_match(bucket: Seq<ChunkEntry>, digest: Seq<u8>) -> Option<u32>
    decreases bucket.len(),
{
    if bucket.len() == 0 {
        None
    } else if bucket.first().digest == digest {
        Some(bucket.first().index)
    } else {
        first_match(bucket.drop_first(), digest)
    }
}

/// The chunk of the old file that a window with this checksum and digest
/// matches: the first entry with that digest in the bucket of the checksum.
/// A checksum without a bucket matches nothing.
pub open spec fn table_lookup(
    table: Map<u32, Seq<ChunkEntry>>,
    checksum: u32,
    digest: Seq<u8>,
) -> Option<u32> {
    if table.contains_key(checksum) {
        first_match(table[checksum], digest)
    } else {
        None
    }
}

/// The table with `entry` added at the end of the bucket of `checksum`.
pub open spec fn table_with(
    table: Map<u32, Seq<ChunkEntry>>,
    checksum: u32,
    entry: ChunkEntry,
) -> Map<u32, Seq<ChunkEntry>> {
    if table.contains_key(checksum) {
        table.insert(checksum, table[checksum].push(entry))
    } else {
        table.insert(checksum, seq![entry])
    }
}

impl RdiffChunkTable {
    /// The empty table.
    pub fn new() -> (table: RdiffChunkTable)
        ensures
            table@ == Map::<u32, Seq<ChunkEntry>>::empty(),
    {
        let chunk_table: HashMap<RdiffChecksum, Vec<RdiffChunkDigest>> = HashMap::new();
        let table = RdiffChunkTable { chunk_table };
        assert(table@ =~= Map::<u32, Seq<ChunkEntry>>::empty());
        table
    }

    /// Adds `chunk_digest` at the end of the bucket of `checksum`; a checksum
    /// that had no bucket gets one.
    pub fn insert(&mut self, checksum: RdiffChecksum, chunk_digest: RdiffChunkDigest)
        ensures
            final(self)@ == table_with(old(self)@, checksum, chunk_digest@),
    {
        let ghost before = self.chunk_table@;
        let ghost entry = chunk_digest@;
        let chunk_data = self.chunk_table.entry(checksum).or_insert(Vec::new());
        let ghost found = chunk_data@;
        chunk_data.push(chunk_digest);
        proof {
            let after = self.chunk_table@;
            assert(after == before.insert(checksum, after[checksum]));
            assert(after[checksum]@ == found.push(chunk_digest));
            if before.contains_key(checksum) {
                assert(found == before[checksum]@);
                assert(bucket_entries(after[checksum]@) =~= bucket_entries(before[checksum]@).push(
                    entry,
                ));
            } else {
                assert(found =~= Seq::<RdiffChunkDigest>::empty());
                assert(bucket_entries(after[checksum]@) =~= seq![entry]);
            }
            assert(self@ =~= table_with(old(self)@, checksum, entry));
        }
    }

    /// The bucket of `checksum`, if the table has one.
    pub fn bucket(&self, checksum: RdiffChecksum) -> (bucket: Option<&Vec<RdiffChunkDigest>>)
        ensures
            bucket is Some <==> self@.contains_key(checksum),
            bucket matches Some(entries) ==> bucket_entries(entries@) == self@[checksum],
    {
        self.chunk_table.get(&checksum)
    }

    /// Searches a bucket for `digest`: the index of the first entry that has
    /// it, if there is one.
    pub fn find_digest(bucket: &Vec<RdiffChunkDigest>, digest: &[u8]) -> (index: Option<u32>)
        ensures
            index == first_match(bucket_entries(bucket@), digest@),
    {
        let mut i: usize = 0;
        assert(bucket_entries(bucket@).skip(0) =~= bucket_entries(bucket@));
        while i < bucket.len()
            invariant
                i <= bucket@.len(),
                first_match(bucket_entries(bucket@), digest@) == first_match(
                    bucket_entries(bucket@).skip(i as int),
                    digest@,
                ),
            decreases bucket@.len() - i,
        {
            let ghost rest = bucket_entries(bucket@).skip(i as int);
            assert(rest.first() == bucket@[i as int]@);
            assert(rest.drop_first() =~= bucket_entries(bucket@).skip(i + 1));
            if same_bytes(bucket[i].digest.as_slice(), digest) {
                return Some(bucket[i].index);
            }
            i += 1;
        }
        None
    }
}

/// Whether two byte strings are equal.
fn same_bytes(left: &[u8], right: &[u8]) -> (same: bool)
    ensures
        same == (left@ == right@),
{
    if left.len() != right.len() {
        return false;
    }
    let mut i: usize = 0;
    while i < left.len()
        invariant
            left@.len() == right@.len(),
            i <= left@.len(),
            forall|j: int| 0 <= j < i ==> left@[j] == right@[j],
        decreases left@.len() - i,
    {
        if left[i] != right[i] {
            return false;
        }
        i += 1;
    }
    assert(left@ =~= right@);
    true
}

/// An entry added at the end of a bucket is found only where no entry before
/// it has the digest.
pub proof fn lemma_first_match_push(bucket: Seq<ChunkEntry>, entry: ChunkEntry, digest: Seq<u8>)
    ensures
        first_match(bucket.push(entry), digest) == match first_match(bucket, digest) {
            Some(index) => Some(index),
            None => if entry.digest == digest {
                Some(entry.index)
            } else {
                None
            },
        },
    decreases bucket.len(),
{
    if bucket.len() == 0 {
        assert(bucket.push(entry).drop_first() =~= bucket);
    } else {
        assert(bucket.push(entry).drop_first() =~= bucket.drop_first().push(entry));
        lemma_first_match_push(bucket.drop_first(), entry, digest);
    }
}

} // verus!
