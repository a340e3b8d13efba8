//! The signature of an old file, and the builder that computes it.

use vstd::prelude::*;

use super::chunk::iterator::{
    chunk_count, chunks, default_chunk_size, lemma_chunk_count_grows, lemma_chunk_count_split,
    lemma_chunk_lengths, lemma_chunks_push, BufferedRdiffChunkIterator, RdiffChunkIterator,
};
use super::chunk::{
    first_match, lemma_first_match_push, table_lookup, table_with, ChunkEntry, RdiffChunk,
    RdiffChunkDigest, RdiffChunkTable,
};
use super::constants::BLOCK_SIZE;
use super::hash::strong::StrongHash;
use super::hash::weak::WeakHash;

verus! {

/// The signature of an old file: the table of its chunks, the chunk size by
/// which it was cut, and the length of its last chunk.
#[derive(Debug, PartialEq)]
pub struct Signature {
    rdiff_chunk_table: RdiffChunkTable,
    chunk_size: usize,
    last_chunk_size: usize,
}

/// What a [`Signature`] stands for.
pub struct SignatureView {
    pub chunk_table: Map<u32, Seq<ChunkEntry>>,
    pub chunk_size: nat,
    pub last_chunk_size: nat,
}

impl View for Signature {
    type V = SignatureView;

    closed spec fn view(&self) -> SignatureView {
        SignatureView {
            chunk_table: self.rdiff_chunk_table@,
            chunk_size: self.chunk_size as nat,
            last_chunk_size: self.last_chunk_size as nat,
        }
    }
}

/// The table of a sequence of chunks: each chunk, in order, adds an entry
/// with its 1-based position and its digest to the bucket of its checksum.
pub open spec fn table_of<W: WeakHash, S: StrongHash>(
    chunks: Seq<Seq<u8>>,
    weak_hash: W,
    strong_hash: S,
) -> Map<u32, Seq<ChunkEntry>>
    decreases chunks.len(),
{
    if chunks.len() == 0 {
        Map::empty()
    } else {
        table_with(
            table_of(chunks.drop_last(), weak_hash, strong_hash),
            weak_hash.spec_checksum(chunks.last()),
            ChunkEntry {
                index: chunks.len() as u32,
                digest: strong_hash.spec_digest(chunks.last()),
            },
        )
    }
}

/// The length of the last of `chunks`; 0 where there is none.
pub open spec fn last_chunk_len(chunks: Seq<Seq<u8>>) -> nat {
    if chunks.len() == 0 {
        0
    } else {
        chunks.last().len()
    }
}

/// The signature of `data` cut into chunks of `chunk_size` bytes.
pub open spec fn signature_with<W: WeakHash, S: StrongHash>(
    data: Seq<u8>,
    chunk_size: nat,
    weak_hash: W,
    strong_hash: S,
) -> SignatureView {
    SignatureView {
        chunk_table: table_of(chunks(data, chunk_size), weak_hash, strong_hash),
        chunk_size,
        last_chunk_size: last_chunk_len(chunks(data, chunk_size)),
    }
}

/// The signature of `data`, cut by the default chunk size for its length.
pub open spec fn signature_of<W: WeakHash, S: StrongHash>(
    data: Seq<u8>,
    weak_hash: W,
    strong_hash: S,
) -> SignatureView {
    signature_with(data, default_chunk_size(data.len()), weak_hash, strong_hash)
}

impl Signature {
    /// The signature with this table, chunk size and length of the last chunk.
    pub fn new(
        rdiff_chunk_table: RdiffChunkTable,
        chunk_size: usize,
        last_chunk_size: usize,
    ) -> (signature: Signature)
        ensures
            signature@ == (SignatureView {
                chunk_table: rdiff_chunk_table@,
                chunk_size: chunk_size as nat,
                last_chunk_size: last_chunk_size as nat,
            }),
    {
        Signature { rdiff_chunk_table, chunk_size, last_chunk_size }
    }

    /// The table of the chunks of the old file.
    pub fn get_rdiff_chunk_table(&self) -> (rdiff_chunk_table: &RdiffChunkTable)
        ensures
            rdiff_chunk_table@ == self@.chunk_table,
    {
        &self.rdiff_chunk_table
    }

    /// The chunk size by which the old file was cut.
    pub fn get_chunk_size(&self) -> (chunk_size: usize)
        ensures
            chunk_size == self@.chunk_size,
    {
        self.chunk_size
    }

    /// The length of the last chunk of the old file.
    pub fn get_last_chunk_size(&self) -> (last_chunk_size: usize)
        ensures
            last_chunk_size == self@.last_chunk_size,
    {
        self.last_chunk_size
    }

    /// The signature of an old file that is held in memory. The file is run
    /// through a [`SignatureBuilder`] block by block.
    pub fn create_signature<W: WeakHash, S: StrongHash>(
        old_file: &[u8],
        weak_hash: W,
        strong_hash: S,
    ) -> (signature: Signature)
        requires
            chunk_count(old_file@.len(), default_chunk_size(old_file@.len())) <= u32::MAX,
        ensures
            signature@ == signature_of(old_file@, weak_hash, strong_hash),
    {
        let mut builder = SignatureBuilder::new(old_file.len(), weak_hash, strong_hash);
        let mut position: usize = 0;
        assert(old_file@.take(0) =~= Seq::<u8>::empty());
        while position < old_file.len()
            invariant
                position <= old_file@.len(),
                builder.wf(),
                builder@ == (SignatureBuilderView {
                    source: old_file@.take(position as int),
                    chunk_size: default_chunk_size(old_file@.len()),
                    weak_hash,
                    strong_hash,
                }),
                chunk_count(old_file@.len(), default_chunk_size(old_file@.len())) <= u32::MAX,
            decreases old_file@.len() - position,
        {
            let end: usize = if old_file.len() - position > BLOCK_SIZE {
                position + BLOCK_SIZE
            } else {
                old_file.len()
            };
            let block = &old_file[position..end];
            proof {
                assert(old_file@.take(position as int) + block@ =~= old_file@.take(end as int));
                lemma_chunk_count_grows(
                    old_file@.take(end as int).len(),
                    old_file@.len(),
                    default_chunk_size(old_file@.len()),
                );
            }
            builder.feed(block);
            position = end;
        }
        assert(old_file@.take(position as int) =~= old_file@);
        builder.finish()
    }
}

/// A signature under construction: the old file is delivered block by block,
/// and the builder holds the table of the chunks that are complete.
pub struct SignatureBuilder<W: WeakHash, S: StrongHash> {
    weak_hash: W,
    strong_hash: S,
    iterator: BufferedRdiffChunkIterator,
    rdiff_chunk_table: RdiffChunkTable,
    index: u32,
    last_chunk_size: usize,
    source: Ghost<Seq<u8>>,
}

/// What a [`SignatureBuilder`] stands for: the bytes of the old file that it
/// has received, the chunk size by which it cuts them, and its two hashes.
pub struct SignatureBuilderView<W, S> {
    pub source: Seq<u8>,
    pub chunk_size: nat,
    pub weak_hash: W,
    pub strong_hash: S,
}

impl<W: WeakHash, S: StrongHash> View for SignatureBuilder<W, S> {
    type V = SignatureBuilderView<W, S>;

    closed spec fn view(&self) -> SignatureBuilderView<W, S> {
        SignatureBuilderView {
            source: self.source@,
            chunk_size: self.iterator.chunk_size as nat,
            weak_hash: self.weak_hash,
            strong_hash: self.strong_hash,
        }
    }
}

impl<W: WeakHash, S: StrongHash> SignatureBuilder<W, S> {
    /// The bytes that stand in whole chunks, which the table covers.
    spec fn covered(&self) -> Seq<u8> {
        self.source@.take(self.index * self.iterator.chunk_size)
    }

    /// Whether the table is that of the whole chunks received so far.
    spec fn table_ok(&self) -> bool {
        &&& self.iterator.chunk_size >= 1
        &&& self.index * self.iterator.chunk_size <= self.source@.len()
        &&& self.rdiff_chunk_table@ == table_of(
            chunks(self.covered(), self.iterator.chunk_size as nat),
            self.weak_hash,
            self.strong_hash,
        )
        &&& chunks(self.covered(), self.iterator.chunk_size as nat).len() == self.index
        &&& self.last_chunk_size == last_chunk_len(
            chunks(self.covered(), self.iterator.chunk_size as nat),
        )
    }

    /// Whether, besides, the chunker holds the bytes behind the whole chunks.
    spec fn consistent(&self) -> bool {
        &&& self.table_ok()
        &&& !self.iterator.exhausted
        &&& self.iterator.buffer@ == self.source@.skip(self.index * self.iterator.chunk_size)
    }

    /// The invariant of the builder between two calls: it holds less than a
    /// chunk, and the position of every chunk received fits an entry's index.
    pub closed spec fn wf(&self) -> bool {
        &&& self.consistent()
        &&& self.iterator.buffer@.len() < self.iterator.chunk_size
        &&& chunk_count(self.source@.len(), self.iterator.chunk_size as nat) <= u32::MAX
    }

    /// The number of bytes that the builder holds: those behind the last
    /// whole chunk.
    pub closed spec fn held(&self) -> nat {
        self.iterator.buffer@.len()
    }

    /// A builder for an old file of `file_size` bytes, which sets the chunk size.
    pub fn new(file_size: usize, weak_hash: W, strong_hash: S) -> (builder: SignatureBuilder<W, S>)
        ensures
            builder.wf(),
            builder.held() == 0,
            builder@ == (SignatureBuilderView {
                source: Seq::<u8>::empty(),
                chunk_size: default_chunk_size(file_size as nat),
                weak_hash,
                strong_hash,
            }),
    {
        let iterator = BufferedRdiffChunkIterator::new(file_size);
        let rdiff_chunk_table = RdiffChunkTable::new();
        let builder = SignatureBuilder {
            weak_hash,
            strong_hash,
            iterator,
            rdiff_chunk_table,
            index: 0,
            last_chunk_size: 0,
            source: Ghost(Seq::empty()),
        };
        proof {
            assert(builder.covered() =~= Seq::<u8>::empty());
            assert(builder.iterator.buffer@ =~= builder.source@.skip(0));
            assert(chunks(Seq::<u8>::empty(), builder.iterator.chunk_size as nat).len() == 0);
        }
        builder
    }

    /// Whether the builder can take `block_len` more bytes: the position of
    /// every chunk has to fit the 32 bits of an entry's index.
    pub fn has_room(&self, block_len: usize) -> (room: bool)
        requires
            self.wf(),
        ensures
            room == (chunk_count(self@.source.len() + block_len as nat, self@.chunk_size)
                <= u32::MAX),
    {
        let chunk_size: u128 = self.iterator.get_chunk_size() as u128;
        let pending: u128 = self.iterator.buffer.len() as u128 + block_len as u128;
        let more: u128 = if pending % chunk_size == 0 {
            pending / chunk_size
        } else {
            pending / chunk_size + 1
        };
        proof {
            lemma_chunk_count_split(self.index as nat, pending as nat, chunk_size as nat);
        }
        self.index as u128 + more <= u32::MAX as u128
    }

    /// Enters the next chunk of the old file into the table.
    fn add_chunk(&mut self, chunk: RdiffChunk)
        requires
            old(self).table_ok(),
            0 < chunk@.len() <= old(self).iterator.chunk_size,
            old(self).index < u32::MAX,
            old(self).covered() + chunk@ == old(self).source@.take(
                old(self).index * old(self).iterator.chunk_size + chunk@.len(),
            ),
        ensures
            final(self).weak_hash == old(self).weak_hash,
            final(self).strong_hash == old(self).strong_hash,
            final(self).iterator == old(self).iterator,
            final(self).source == old(self).source,
            final(self).index == old(self).index + 1,
            final(self).last_chunk_size == chunk@.len(),
            final(self).rdiff_chunk_table@ == table_of(
                chunks(old(self).covered(), old(self).iterator.chunk_size as nat).push(chunk@),
                old(self).weak_hash,
                old(self).strong_hash,
            ),
            chunks(old(self).covered() + chunk@, old(self).iterator.chunk_size as nat) == chunks(
                old(self).covered(),
                old(self).iterator.chunk_size as nat,
            ).push(chunk@),
    {
        let ghost before = chunks(self.covered(), self.iterator.chunk_size as nat);
        proof {
            lemma_chunks_push(
                self.covered(),
                chunk@,
                self.iterator.chunk_size as nat,
                self.index as nat,
            );
            assert(before.push(chunk@).drop_last() =~= before);
        }
        // The length of the chunk in hand is that of the last chunk so far.
        self.last_chunk_size = chunk.len();
        let checksum: u32 = self.weak_hash.checksum(chunk.as_slice());
        let digest = self.strong_hash.digest(chunk.as_slice());
        self.index += 1;
        let rdiff_chunk_digest = RdiffChunkDigest { index: self.index, digest };
        self.rdiff_chunk_table.insert(checksum, rdiff_chunk_digest);
    }

    /// Delivers the next block of the old file. Each chunk that the block
    /// completes is entered into the table: less than a chunk stays in the
    /// builder's hands.
    pub fn feed(&mut self, block: &[u8])
        requires
            old(self).wf(),
            chunk_count(old(self)@.source.len() + block@.len(), old(self)@.chunk_size) <= u32::MAX,
        ensures
            final(self).wf(),
            final(self)@ == (SignatureBuilderView {
                source: old(self)@.source + block@,
                ..old(self)@
            }),
            final(self).held() < final(self)@.chunk_size,
    {
        let ghost chunk_size = self.iterator.chunk_size as nat;
        self.iterator.push_block(block);
        proof {
            let covered = self.covered();
            self.source = Ghost(self.source@ + block@);
            assert(self.covered() =~= covered);
            assert(self.iterator.buffer@ =~= self.source@.skip(self.index * chunk_size));
        }
        loop
            invariant
                self.consistent(),
                self.iterator.chunk_size == chunk_size,
                self.weak_hash == old(self).weak_hash,
                self.strong_hash == old(self).strong_hash,
                self.source@ == old(self).source@ + block@,
                chunk_count(self.source@.len(), chunk_size) <= u32::MAX,
            ensures
                self.wf(),
            decreases self.iterator.buffer@.len(),
        {
            let ghost covered = self.covered();
            let ghost count = self.index as nat;
            match self.iterator.next_chunk() {
                Some(chunk) => {
                    proof {
                        assert(count * chunk_size + chunk_size == (count + 1) * chunk_size)
                            by (nonlinear_arith);
                        lemma_whole_chunks_fit(self.source@.len(), chunk_size, count + 1);
                        assert(covered + chunk@ =~= self.source@.take(
                            (count * chunk_size + chunk_size) as int,
                        ));
                    }
                    self.add_chunk(chunk);
                    proof {
                        assert(self.covered() =~= covered + chunk@);
                        assert(self.iterator.buffer@ =~= self.source@.skip(
                            self.index * chunk_size,
                        ));
                    }
                },
                None => {
                    break ;
                },
            }
        }
    }

    /// The signature of the bytes received: what is left behind the last
    /// whole chunk is the last chunk.
    pub fn finish(self) -> (signature: Signature)
        requires
            self.wf(),
        ensures
            signature@ == signature_with(
                self@.source,
                self@.chunk_size,
                self@.weak_hash,
                self@.strong_hash,
            ),
    {
        let mut builder = self;
        let ghost chunk_size = builder.iterator.chunk_size as nat;
        let ghost covered = builder.covered();
        builder.iterator.end_of_input();
        match builder.iterator.next_chunk() {
            Some(chunk) => {
                proof {
                    assert(covered + chunk@ =~= builder.source@);
                    lemma_chunks_push(covered, chunk@, chunk_size, builder.index as nat);
                    assert(chunks(builder.source@, chunk_size).len() == builder.index + 1);
                    assert(builder.source@.take(builder.index * chunk_size + chunk@.len())
                        =~= builder.source@);
                }
                builder.add_chunk(chunk);
            },
            None => {
                assert(covered =~= builder.source@);
            },
        }
        Signature {
            rdiff_chunk_table: builder.rdiff_chunk_table,
            chunk_size: builder.iterator.chunk_size,
            last_chunk_size: builder.last_chunk_size,
        }
    }
}

/// Whether two byte strings have the same checksum and the same digest.
pub open spec fn same_hashes<W: WeakHash, S: StrongHash>(
    weak_hash: W,
    strong_hash: S,
    left: Seq<u8>,
    right: Seq<u8>,
) -> bool {
    &&& weak_hash.spec_checksum(left) == weak_hash.spec_checksum(right)
    &&& strong_hash.spec_digest(left) == strong_hash.spec_digest(right)
}

/// Whether `found` is the 1-based position of the first of `chunks` that has
/// the checksum and the digest of `window`: `None` says that none has them.
pub open spec fn is_first_with_hashes<W: WeakHash, S: StrongHash>(
    chunks: Seq<Seq<u8>>,
    weak_hash: W,
    strong_hash: S,
    window: Seq<u8>,
    found: Option<u32>,
) -> bool {
    match found {
        Some(index) => {
            &&& 1 <= index <= chunks.len()
            &&& same_hashes(weak_hash, strong_hash, chunks[index - 1], window)
            &&& forall|k: int|
                0 <= k < index - 1 ==> !same_hashes(
                    weak_hash,
                    strong_hash,
                    #[trigger] chunks[k],
                    window,
                )
        },
        None => forall|k: int|
            0 <= k < chunks.len() ==> !same_hashes(
                weak_hash,
                strong_hash,
                #[trigger] chunks[k],
                window,
            ),
    }
}

/// An empty source has no chunks, and its signature has an empty table and
/// no last chunk.
pub proof fn lemma_empty_source<W: WeakHash, S: StrongHash>(
    chunk_size: nat,
    weak_hash: W,
    strong_hash: S,
)
    requires
        chunk_size > 0,
    ensures
        chunks(Seq::<u8>::empty(), chunk_size) == Seq::<Seq<u8>>::empty(),
        signature_with(Seq::<u8>::empty(), chunk_size, weak_hash, strong_hash) == (SignatureView {
            chunk_table: Map::empty(),
            chunk_size,
            last_chunk_size: 0,
        }),
        signature_of(Seq::<u8>::empty(), weak_hash, strong_hash) == (SignatureView {
            chunk_table: Map::empty(),
            chunk_size: 1,
            last_chunk_size: 0,
        }),
{
    assert(chunks(Seq::<u8>::empty(), chunk_size) =~= Seq::<Seq<u8>>::empty());
    assert(chunks(Seq::<u8>::empty(), 1) =~= Seq::<Seq<u8>>::empty());
}

/// The last chunk of a signature is no longer than the chunk size: it has
/// what is left of the file behind its whole chunks, is a whole chunk where
/// nothing is left, and has no byte where the file is empty.
pub proof fn lemma_last_chunk_size<W: WeakHash, S: StrongHash>(
    data: Seq<u8>,
    chunk_size: nat,
    weak_hash: W,
    strong_hash: S,
)
    requires
        chunk_size > 0,
    ensures
        signature_with(data, chunk_size, weak_hash, strong_hash).last_chunk_size == if data.len()
            == 0 {
            0
        } else if data.len() % chunk_size == 0 {
            chunk_size
        } else {
            data.len() % chunk_size
        },
        signature_with(data, chunk_size, weak_hash, strong_hash).last_chunk_size <= chunk_size,
{
    let all = chunks(data, chunk_size);
    vstd::arithmetic::div_mod::lemma_fundamental_div_mod(data.len() as int, chunk_size as int);
    vstd::arithmetic::div_mod::lemma_mod_bound(data.len() as int, chunk_size as int);
    if data.len() == 0 {
        assert(all.len() == 0);
    } else {
        let whole = data.len() as int / (chunk_size as int);
        assert(data.len() % chunk_size == 0 ==> whole >= 1) by (nonlinear_arith)
            requires
                data.len() == chunk_size * whole + data.len() % chunk_size,
                data.len() > 0,
        ;
        lemma_chunk_lengths(data, chunk_size, all.len() - 1);
    }
}

/// Every entry of the table of `chunks` holds the position of a chunk in its
/// bucket: the bucket of a checksum holds, in their order, the positions and
/// digests of the chunks with that checksum, and nothing else.
pub proof fn lemma_table_buckets<W: WeakHash, S: StrongHash>(
    chunks: Seq<Seq<u8>>,
    weak_hash: W,
    strong_hash: S,
    checksum: u32,
)
    requires
        chunks.len() <= u32::MAX,
    ensures
        table_of(chunks, weak_hash, strong_hash).contains_key(checksum) <==> exists|k: int|
            0 <= k < chunks.len() && weak_hash.spec_checksum(#[trigger] chunks[k]) == checksum,
        table_of(chunks, weak_hash, strong_hash).contains_key(checksum) ==> {
            let bucket = table_of(chunks, weak_hash, strong_hash)[checksum];
            &&& bucket.len() >= 1
            &&& forall|i: int|
                0 <= i < bucket.len() ==> {
                    let entry = #[trigger] bucket[i];
                    &&& 1 <= entry.index <= chunks.len()
                    &&& weak_hash.spec_checksum(chunks[entry.index - 1]) == checksum
                    &&& entry.digest == strong_hash.spec_digest(chunks[entry.index - 1])
                }
            &&& forall|i: int, j: int|
                0 <= i < j < bucket.len() ==> (#[trigger] bucket[i]).index < (
                #[trigger] bucket[j]).index
        },
    decreases chunks.len(),
{
    if chunks.len() > 0 {
        let before = chunks.drop_last();
        let last = chunks.last();
        lemma_table_buckets(before, weak_hash, strong_hash, checksum);
        let table_before = table_of(before, weak_hash, strong_hash);
        let table = table_of(chunks, weak_hash, strong_hash);
        if table_before.contains_key(checksum) {
            let k = choose|k: int|
                0 <= k < before.len() && weak_hash.spec_checksum(#[trigger] before[k]) == checksum;
            assert(chunks[k] == before[k]);
        }
        if weak_hash.spec_checksum(last) == checksum {
            assert(weak_hash.spec_checksum(chunks[chunks.len() - 1]) == checksum);
        }
        if table.contains_key(checksum) {
            let bucket = table[checksum];
            assert forall|i: int| 0 <= i < bucket.len() implies {
                let entry = #[trigger] bucket[i];
                &&& 1 <= entry.index <= chunks.len()
                &&& weak_hash.spec_checksum(chunks[entry.index - 1]) == checksum
                &&& entry.digest == strong_hash.spec_digest(chunks[entry.index - 1])
            } by {
                let entry = bucket[i];
                if weak_hash.spec_checksum(last) == checksum && i == bucket.len() - 1 {
                } else {
                    assert(entry == table_before[checksum][i]);
                    assert(chunks[entry.index - 1] == before[entry.index - 1]);
                }
            }
            assert forall|i: int, j: int| 0 <= i < j < bucket.len() implies (
            #[trigger] bucket[i]).index < (#[trigger] bucket[j]).index by {
                if weak_hash.spec_checksum(last) == checksum && j == bucket.len() - 1 {
                    assert(bucket[i] == table_before[checksum][i]);
                } else {
                    assert(bucket[i] == table_before[checksum][i]);
                    assert(bucket[j] == table_before[checksum][j]);
                }
            }
        } else {
            assert forall|k: int| 0 <= k < chunks.len() implies weak_hash.spec_checksum(
                #[trigger] chunks[k],
            ) != checksum by {
                if k < before.len() {
                    assert(chunks[k] == before[k]);
                }
            }
        }
    }
}

/// Every chunk has its entry: the bucket of its checksum holds its position
/// with its digest.
pub proof fn lemma_table_holds_each<W: WeakHash, S: StrongHash>(
    chunks: Seq<Seq<u8>>,
    weak_hash: W,
    strong_hash: S,
    k: int,
)
    requires
        chunks.len() <= u32::MAX,
        0 <= k < chunks.len(),
    ensures
        table_of(chunks, weak_hash, strong_hash).contains_key(weak_hash.spec_checksum(chunks[k])),
        table_of(chunks, weak_hash, strong_hash)[weak_hash.spec_checksum(chunks[k])].contains(
            ChunkEntry { index: (k + 1) as u32, digest: strong_hash.spec_digest(chunks[k]) },
        ),
    decreases chunks.len(),
{
    let before = chunks.drop_last();
    let last = chunks.last();
    let table_before = table_of(before, weak_hash, strong_hash);
    let table = table_of(chunks, weak_hash, strong_hash);
    let checksum = weak_hash.spec_checksum(chunks[k]);
    let entry = ChunkEntry { index: (k + 1) as u32, digest: strong_hash.spec_digest(chunks[k]) };
    if k == chunks.len() - 1 {
        assert(table[checksum].last() == entry);
    } else {
        assert(chunks[k] == before[k]);
        lemma_table_holds_each(before, weak_hash, strong_hash, k);
        let i = choose|i: int|
            0 <= i < table_before[checksum].len() && table_before[checksum][i] == entry;
        assert(table[checksum][i] == entry);
    }
}

/// The table of `chunks` gives, for a window, the first chunk that has the
/// checksum and the digest of the window, and nothing where no chunk has them.
pub proof fn lemma_table_finds_first<W: WeakHash, S: StrongHash>(
    chunks: Seq<Seq<u8>>,
    weak_hash: W,
    strong_hash: S,
    window: Seq<u8>,
)
    requires
        chunks.len() <= u32::MAX,
    ensures
        is_first_with_hashes(
            chunks,
            weak_hash,
            strong_hash,
            window,
            table_lookup(
                table_of(chunks, weak_hash, strong_hash),
                weak_hash.spec_checksum(window),
                strong_hash.spec_digest(window),
            ),
        ),
    decreases chunks.len(),
{
    let checksum = weak_hash.spec_checksum(window);
    let digest = strong_hash.spec_digest(window);
    if chunks.len() > 0 {
        let before = chunks.drop_last();
        let last = chunks.last();
        let table_before = table_of(before, weak_hash, strong_hash);
        let found_before = table_lookup(table_before, checksum, digest);
        let found = table_lookup(table_of(chunks, weak_hash, strong_hash), checksum, digest);
        lemma_table_finds_first(before, weak_hash, strong_hash, window);
        let entry = ChunkEntry {
            index: chunks.len() as u32,
            digest: strong_hash.spec_digest(last),
        };
        if weak_hash.spec_checksum(last) == checksum {
            if table_before.contains_key(checksum) {
                lemma_first_match_push(table_before[checksum], entry, digest);
            } else {
                assert(seq![entry].drop_first() =~= Seq::<ChunkEntry>::empty());
                assert(first_match(Seq::<ChunkEntry>::empty(), digest) is None);
                assert(first_match(seq![entry], digest) == if entry.digest == digest {
                    Some(entry.index)
                } else {
                    None
                });
            }
        }
        assert(found == match found_before {
            Some(index) => Some(index),
            None => if same_hashes(weak_hash, strong_hash, last, window) {
                Some(chunks.len() as u32)
            } else {
                None
            },
        });
        match found {
            Some(index) => {
                assert forall|k: int| 0 <= k < index - 1 implies !same_hashes(
                    weak_hash,
                    strong_hash,
                    #[trigger] chunks[k],
                    window,
                ) by {
                    assert(chunks[k] == before[k]);
                }
                if found_before is Some {
                    assert(chunks[index - 1] == before[index - 1]);
                }
            },
            None => {
                assert forall|k: int| 0 <= k < chunks.len() implies !same_hashes(
                    weak_hash,
                    strong_hash,
                    #[trigger] chunks[k],
                    window,
                ) by {
                    if k < before.len() {
                        assert(chunks[k] == before[k]);
                    }
                }
            },
        }
    }
}

/// As many whole chunks as fit into a source are no more than its chunks.
proof fn lemma_whole_chunks_fit(len: nat, chunk_size: nat, count: nat)
    requires
        chunk_size > 0,
        count * chunk_size <= len,
    ensures
        count <= chunk_count(len, chunk_size),
{
    assert(count <= len / chunk_size) by (nonlinear_arith)
        requires
            chunk_size > 0,
            count * chunk_size <= len,
    ;
}

} // verus!
