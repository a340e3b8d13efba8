//! The delta between an old file, known by its signature, and a new file;
//! and the generator that computes it.

use vstd::prelude::*;

use super::chunk::iterator::{BufferedRdiffChunkIterator, RdiffChunkIterator};
use super::chunk::{table_lookup, RdiffChunkTable};
use super::constants::BLOCK_SIZE;
use super::error::messages::{DELTA_PROCESSED_DATA_SIZE_ERROR, INVALID_CHUNK_SIZE};
use super::error::RollingHashError;
use super::hash::strong::StrongHash;
use super::hash::weak::WeakHash;
use super::signature::{Signature, SignatureView};

verus! {

/// One operation of a delta: reuse the chunk of the old file with this
/// 1-based position, or insert these literal bytes.
#[derive(Debug, PartialEq)]
pub enum ChunkDelta {
    Match(u32),
    Diff(Vec<u8>),
}

/// What a [`ChunkDelta`] stands for.
pub enum ChunkDeltaView {
    Match(u32),
    Diff(Seq<u8>),
}

impl View for ChunkDelta {
    type V = ChunkDeltaView;

    open spec fn view(&self) -> ChunkDeltaView {
        match self {
            ChunkDelta::Match(index) => ChunkDeltaView::Match(*index),
            ChunkDelta::Diff(bytes) => ChunkDeltaView::Diff(bytes@),
        }
    }
}

/// A delta: the operations that make the new file, in order.
#[derive(Debug, PartialEq)]
pub struct Delta {
    chunk_delta_list: Vec<ChunkDelta>,
}

/// What a list of operations stands for.
pub open spec fn delta_ops(list: Seq<ChunkDelta>) -> Seq<ChunkDeltaView> {
    Seq::new(list.len(), |i: int| list[i]@)
}

impl View for Delta {
    type V = Seq<ChunkDeltaView>;

    closed spec fn view(&self) -> Seq<ChunkDeltaView> {
        delta_ops(self.chunk_delta_list@)
    }
}

/// What a window of the new file matches: the chunk that the table gives for
/// the window's checksum and digest, if it gives one.
pub open spec fn window_match<W: WeakHash, S: StrongHash>(
    signature: SignatureView,
    weak_hash: W,
    strong_hash: S,
    window: Seq<u8>,
) -> Option<ChunkDeltaView> {
    match table_lookup(
        signature.chunk_table,
        weak_hash.spec_checksum(window),
        strong_hash.spec_digest(window),
    ) {
        Some(index) => Some(ChunkDeltaView::Match(index)),
        None => None,
    }
}

/// The literal bytes from `start` up to `end`, as one operation; nothing
/// where there are none.
pub open spec fn literal_run(data: Seq<u8>, start: int, end: int) -> Seq<ChunkDeltaView> {
    if start < end {
        seq![ChunkDeltaView::Diff(data.subrange(start, end))]
    } else {
        Seq::empty()
    }
}

/// The operations for `data` from `start` on, where the bytes from `start`
/// up to `position` are known to be literal and the window at `position` is
/// the next to be tested.
///
/// While a whole window is left, a window that matches ends the literal run,
/// gives a match and moves the scan behind it; one that does not match adds
/// its first byte to the literal run. What is left at the end is shorter than
/// a window: it is matched where it has the length of the old file's last
/// chunk and the table knows it, and is literal otherwise. Nothing is tested
/// where nothing is left and no literal run is open.
pub open spec fn delta_from<W: WeakHash, S: StrongHash>(
    data: Seq<u8>,
    signature: SignatureView,
    weak_hash: W,
    strong_hash: S,
    start: int,
    position: int,
) -> Seq<ChunkDeltaView>
    decreases data.len() - position,
{
    let chunk_size = signature.chunk_size as int;
    let left = data.len() - position;
    if chunk_size <= 0 || left < 0 {
        Seq::empty()
    } else if left >= chunk_size {
        match window_match(
            signature,
            weak_hash,
            strong_hash,
            data.subrange(position, position + chunk_size),
        ) {
            Some(matched) => literal_run(data, start, position).push(matched) + delta_from(
                data,
                signature,
                weak_hash,
                strong_hash,
                position + chunk_size,
                position + chunk_size,
            ),
            None => delta_from(data, signature, weak_hash, strong_hash, start, position + 1),
        }
    } else if left == 0 && start >= position {
        Seq::empty()
    } else if left == signature.last_chunk_size {
        match window_match(
            signature,
            weak_hash,
            strong_hash,
            data.subrange(position, data.len() as int),
        ) {
            Some(matched) => literal_run(data, start, position).push(matched),
            None => literal_run(data, start, data.len() as int),
        }
    } else {
        literal_run(data, start, data.len() as int)
    }
}

/// The delta of the new file `data` against `signature`.
pub open spec fn delta_of<W: WeakHash, S: StrongHash>(
    data: Seq<u8>,
    signature: SignatureView,
    weak_hash: W,
    strong_hash: S,
) -> Seq<ChunkDeltaView> {
    delta_from(data, signature, weak_hash, strong_hash, 0, 0)
}

/// The bytes of a new file of `len` bytes that its delta accounts for: all of
/// them, but for a chunk size of zero, with which no window is ever cut.
pub open spec fn accounted_len(len: nat, chunk_size: nat) -> nat {
    if chunk_size == 0 {
        0
    } else {
        len
    }
}

impl Delta {
    /// The delta with these operations.
    pub fn new(chunk_delta_list: Vec<ChunkDelta>) -> (delta: Delta)
        ensures
            delta@ == delta_ops(chunk_delta_list@),
    {
        Delta { chunk_delta_list }
    }

    /// The operations of the delta, in order.
    pub fn get_chunk_delta_list(&self) -> (chunk_delta_list: &Vec<ChunkDelta>)
        ensures
            delta_ops(chunk_delta_list@) == self@,
    {
        &self.chunk_delta_list
    }

    /// The delta of a new file that is held in memory against the signature
    /// of an old file. The file is run through a [`DeltaGenerator`] block by
    /// block.
    ///
    /// A signature with a chunk size above the block cap is refused. With a
    /// chunk size of zero no window can be cut: the delta of an empty file is
    /// then empty, and that of any other file is refused, because it would
    /// account for none of the file's bytes.
    pub fn generate_delta<W: WeakHash, S: StrongHash>(
        new_file: &[u8],
        signature: Signature,
        weak_hash: W,
        strong_hash: S,
    ) -> (result: Result<Delta, RollingHashError>)
        ensures
            result is Ok <==> {
                &&& signature@.chunk_size <= BLOCK_SIZE
                &&& signature@.chunk_size > 0 || new_file@.len() == 0
            },
            result matches Ok(delta) ==> delta@ == delta_of(
                new_file@,
                signature@,
                weak_hash,
                strong_hash,
            ),
            result matches Err(error) ==> error@ == if signature@.chunk_size > BLOCK_SIZE {
                INVALID_CHUNK_SIZE@
            } else {
                DELTA_PROCESSED_DATA_SIZE_ERROR@
            },
    {
        let mut generator = match DeltaGenerator::new(
            signature,
            new_file.len(),
            weak_hash,
            strong_hash,
        ) {
            Err(error) => {
                return Err(error);
            },
            Ok(generator) => generator,
        };
        let mut position: usize = 0;
        assert(new_file@.take(0) =~= Seq::<u8>::empty());
        while position < new_file.len()
            invariant
                position <= new_file@.len(),
                generator.wf(),
                generator@ == (DeltaGeneratorView {
                    source: new_file@.take(position as int),
                    file_size: new_file@.len(),
                    signature: signature@,
                    weak_hash,
                    strong_hash,
                }),
            decreases new_file@.len() - position,
        {
            let end: usize = if new_file.len() - position > BLOCK_SIZE {
                position + BLOCK_SIZE
            } else {
                new_file.len()
            };
            let block = &new_file[position..end];
            assert(new_file@.take(position as int) + block@ =~= new_file@.take(end as int));
            generator.feed(block);
            position = end;
        }
        assert(new_file@.take(position as int) =~= new_file@);
        generator.finish()
    }

    /// Tests a window of the new file against the signature. The digest is
    /// computed only where the table has a bucket for the checksum.
    pub fn get_chunk_delta_match<W: WeakHash, S: StrongHash>(
        signature: &Signature,
        weak_hash: &W,
        strong_hash: &S,
        chunk: &[u8],
    ) -> (chunk_delta: Option<ChunkDelta>)
        ensures
            match chunk_delta {
                Some(matched) => window_match(signature@, *weak_hash, *strong_hash, chunk@)
                    == Some(matched@),
                None => window_match(signature@, *weak_hash, *strong_hash, chunk@) is None,
            },
    {
        let checksum: u32 = weak_hash.checksum(chunk);
        if let Some(chunk_digest_list) = signature.get_rdiff_chunk_table().bucket(checksum) {
            let digest = strong_hash.digest(chunk);
            if let Some(index) = RdiffChunkTable::find_digest(
                chunk_digest_list,
                digest.as_slice(),
            ) {
                return Some(ChunkDelta::Match(index));
            }
        }
        None
    }
}

/// Where the scan of the new file stands.
enum ScanState {
    /// The window in hand is presumed to start where a chunk of the old file starts.
    AlignedScan,
    /// The alignment is lost: a literal run is open, and the window moves byte by byte.
    Resync,
    /// The new file is exhausted: what is left is flushed.
    Drain,
}

/// A delta under construction: the new file is delivered block by block, and
/// the generator holds the operations that are settled, the open literal run
/// and the bytes that no window has been cut from yet.
pub struct DeltaGenerator<W: WeakHash, S: StrongHash> {
    signature: Signature,
    weak_hash: W,
    strong_hash: S,
    file_size: usize,
    iterator: BufferedRdiffChunkIterator,
    buffer: Vec<u8>,
    differences: Vec<u8>,
    chunk_delta_list: Vec<ChunkDelta>,
    state: ScanState,
    /// The bytes of the new file, out of `file_size`, that no operation accounts for yet.
    unaccounted: usize,
    /// Whether the operations account for more bytes than `file_size`.
    overrun: bool,
    source: Ghost<Seq<u8>>,
}

/// What a [`DeltaGenerator`] stands for: the bytes of the new file that it
/// has received, the length that the new file was announced with, the
/// signature of the old file, and the two hashes.
pub struct DeltaGeneratorView<W, S> {
    pub source: Seq<u8>,
    pub file_size: nat,
    pub signature: SignatureView,
    pub weak_hash: W,
    pub strong_hash: S,
}

impl<W: WeakHash, S: StrongHash> View for DeltaGenerator<W, S> {
    type V = DeltaGeneratorView<W, S>;

    closed spec fn view(&self) -> DeltaGeneratorView<W, S> {
        DeltaGeneratorView {
            source: self.source@,
            file_size: self.file_size as nat,
            signature: self.signature@,
            weak_hash: self.weak_hash,
            strong_hash: self.strong_hash,
        }
    }
}

impl<W: WeakHash, S: StrongHash> DeltaGenerator<W, S> {
    /// Where the open literal run starts: behind the bytes that the settled
    /// operations account for.
    spec fn run_start(&self) -> int {
        self.source@.len() - self.iterator.buffer@.len() - self.buffer@.len()
            - self.differences@.len()
    }

    /// Where the window in hand starts.
    spec fn position(&self) -> int {
        self.source@.len() - self.iterator.buffer@.len() - self.buffer@.len()
    }

    /// Whether the settled operations are those of every new file that
    /// starts with the bytes received, up to the window in hand.
    spec fn settled(&self) -> bool {
        forall|rest: Seq<u8>|
            #[trigger] delta_of(
                self.source@ + rest,
                self.signature@,
                self.weak_hash,
                self.strong_hash,
            ) == delta_ops(self.chunk_delta_list@) + delta_from(
                self.source@ + rest,
                self.signature@,
                self.weak_hash,
                self.strong_hash,
                self.run_start(),
                self.position(),
            )
    }

    /// Whether the count of bytes still to account for is right.
    spec fn counted(&self) -> bool {
        if self.overrun {
            self.run_start() > self.file_size
        } else {
            self.run_start() + self.unaccounted == self.file_size
        }
    }

    /// The invariant of a generator that scans: the literal run, the window
    /// and the chunker's bytes are the end of the bytes received, in this order.
    spec fn scanning(&self) -> bool {
        &&& 0 < self.signature@.chunk_size <= BLOCK_SIZE
        &&& self.iterator.chunk_size == self.signature@.chunk_size
        &&& 0 <= self.run_start()
        &&& self.differences@ == self.source@.subrange(self.run_start(), self.position())
        &&& self.buffer@ + self.iterator.buffer@ == self.source@.skip(self.position())
        &&& (self.state is AlignedScan <==> self.differences@.len() == 0)
        &&& !(self.state is Drain)
        &&& self.settled()
        &&& self.counted()
    }

    /// The invariant of a generator whose signature has the chunk size zero:
    /// it cuts no window, and holds nothing.
    spec fn idle(&self) -> bool {
        &&& self.signature@.chunk_size == 0
        &&& self.iterator.chunk_size == 0
        &&& self.iterator.buffer@.len() == 0
        &&& self.buffer@.len() == 0
        &&& self.differences@.len() == 0
        &&& self.chunk_delta_list@.len() == 0
        &&& self.state is AlignedScan
        &&& !self.overrun
        &&& self.unaccounted == self.file_size
    }

    /// The invariant of the generator between two calls.
    pub closed spec fn wf(&self) -> bool {
        &&& !self.iterator.exhausted
        &&& if self.signature@.chunk_size == 0 {
            self.idle()
        } else {
            self.scanning()
        }
    }

    /// The number of bytes that the generator holds besides the open literal
    /// run: those that no window has been cut from yet.
    pub closed spec fn held(&self) -> nat {
        self.buffer@.len() + self.iterator.buffer@.len()
    }

    /// A generator for a new file of `file_size` bytes against `signature`.
    /// The chunk size of the signature is that of the windows: one above the
    /// block cap is refused.
    pub fn new(
        signature: Signature,
        file_size: usize,
        weak_hash: W,
        strong_hash: S,
    ) -> (result: Result<DeltaGenerator<W, S>, RollingHashError>)
        ensures
            result is Ok <==> signature@.chunk_size <= BLOCK_SIZE,
            result matches Ok(generator) ==> {
                &&& generator.wf()
                &&& generator.held() == 0
                &&& generator@ == (DeltaGeneratorView {
                    source: Seq::<u8>::empty(),
                    file_size: file_size as nat,
                    signature: signature@,
                    weak_hash,
                    strong_hash,
                })
            },
            result matches Err(error) ==> error@ == INVALID_CHUNK_SIZE@,
    {
        match BufferedRdiffChunkIterator::new_with_chunk_size(signature.get_chunk_size()) {
            Err(error) => Err(error),
            Ok(iterator) => {
                let generator = DeltaGenerator {
                    signature,
                    weak_hash,
                    strong_hash,
                    file_size,
                    iterator,
                    buffer: Vec::new(),
                    differences: Vec::new(),
                    chunk_delta_list: Vec::new(),
                    state: ScanState::AlignedScan,
                    unaccounted: file_size,
                    overrun: false,
                    source: Ghost(Seq::empty()),
                };
                proof {
                    if generator.signature@.chunk_size > 0 {
                        assert(generator.differences@ =~= generator.source@.subrange(0, 0));
                        assert(generator.buffer@ + generator.iterator.buffer@
                            =~= generator.source@.skip(0));
                        assert forall|rest: Seq<u8>|
                            #[trigger] delta_of(
                                generator.source@ + rest,
                                generator.signature@,
                                generator.weak_hash,
                                generator.strong_hash,
                            ) == delta_ops(generator.chunk_delta_list@) + delta_from(
                                generator.source@ + rest,
                                generator.signature@,
                                generator.weak_hash,
                                generator.strong_hash,
                                generator.run_start(),
                                generator.position(),
                            ) by {
                            assert(delta_ops(generator.chunk_delta_list@) =~= Seq::empty());
                            assert(Seq::<ChunkDeltaView>::empty() + delta_of(
                                generator.source@ + rest,
                                generator.signature@,
                                generator.weak_hash,
                                generator.strong_hash,
                            ) =~= delta_of(
                                generator.source@ + rest,
                                generator.signature@,
                                generator.weak_hash,
                                generator.strong_hash,
                            ));
                        }
                    }
                }
                Ok(generator)
            },
        }
    }

    /// Counts `count` more bytes of the new file as accounted for.
    fn account(&mut self, count: usize)
        ensures
            *final(self) == (DeltaGenerator {
                unaccounted: final(self).unaccounted,
                overrun: final(self).overrun,
                ..*old(self)
            }),
            (final(self).unaccounted, final(self).overrun) == after_account(
                old(self).unaccounted,
                old(self).overrun,
                count,
            ),
    {
        if !self.overrun {
            if count <= self.unaccounted {
                self.unaccounted -= count;
            } else {
                self.overrun = true;
            }
        }
    }

    /// Closes the open literal run, if there is one: its bytes become one operation.
    fn flush_differences(&mut self)
        ensures
            *final(self) == (DeltaGenerator {
                differences: final(self).differences,
                chunk_delta_list: final(self).chunk_delta_list,
                unaccounted: final(self).unaccounted,
                overrun: final(self).overrun,
                ..*old(self)
            }),
            final(self).differences@ == Seq::<u8>::empty(),
            delta_ops(final(self).chunk_delta_list@) == delta_ops(old(self).chunk_delta_list@)
                + if old(self).differences@.len() > 0 {
                seq![ChunkDeltaView::Diff(old(self).differences@)]
            } else {
                Seq::empty()
            },
            (final(self).unaccounted, final(self).overrun) == after_account(
                old(self).unaccounted,
                old(self).overrun,
                old(self).differences.len(),
            ),
    {
        let ghost before = self.chunk_delta_list@;
        if self.differences.len() > 0 {
            let mut differences: Vec<u8> = Vec::new();
            std::mem::swap(&mut self.differences, &mut differences);
            self.account(differences.len());
            self.chunk_delta_list.push(ChunkDelta::Diff(differences));
            assert(delta_ops(self.chunk_delta_list@) =~= delta_ops(before)
                + seq![ChunkDeltaView::Diff(old(self).differences@)]);
        } else {
            assert(self.differences@ =~= Seq::<u8>::empty());
            assert(delta_ops(self.chunk_delta_list@) =~= delta_ops(before) + Seq::empty());
        }
    }

    /// Tests the window at the head of the buffer. A match closes the literal
    /// run, is entered behind it, and takes the window out of the buffer; a
    /// miss moves the first byte of the buffer to the literal run.
    fn scan_window(&mut self)
        requires
            old(self).scanning(),
            old(self).buffer@.len() >= old(self).signature@.chunk_size,
        ensures
            final(self).scanning(),
            final(self)@ == old(self)@,
            final(self).iterator == old(self).iterator,
            final(self).buffer@.len() < old(self).buffer@.len(),
    {
        let chunk_size: usize = self.signature.get_chunk_size();
        let ghost source = self.source@;
        let ghost signature = self.signature@;
        let ghost start: int = self.run_start();
        let ghost position: int = self.position();
        let ghost settled = delta_ops(self.chunk_delta_list@);
        let chunk_delta_match = Delta::get_chunk_delta_match(
            &self.signature,
            &self.weak_hash,
            &self.strong_hash,
            &self.buffer.as_slice()[0..chunk_size],
        );
        proof {
            assert(self.buffer@ =~= source.skip(position).take(self.buffer@.len() as int));
            assert(self.buffer@.subrange(0, chunk_size as int) =~= source.subrange(
                position,
                position + chunk_size,
            ));
        }
        let ghost window = self.buffer@;
        match chunk_delta_match {
            Some(chunk_delta) => {
                let ghost matched = chunk_delta@;
                self.flush_differences();
                let ghost flushed = self.chunk_delta_list@;
                self.chunk_delta_list.push(chunk_delta);
                self.account(chunk_size);
                let mut rest = self.buffer.split_off(chunk_size);
                std::mem::swap(&mut self.buffer, &mut rest);
                self.state = ScanState::AlignedScan;
                proof {
                    assert(self.run_start() == position + chunk_size);
                    assert(self.position() == position + chunk_size);
                    assert(self.differences@ =~= source.subrange(
                        self.run_start(),
                        self.position(),
                    ));
                    assert(self.buffer@ =~= window.skip(chunk_size as int));
                    lemma_drop_front(
                        source,
                        window,
                        self.iterator.buffer@,
                        position,
                        chunk_size as int,
                    );
                    assert(delta_ops(self.chunk_delta_list@) =~= delta_ops(flushed).push(matched));
                    assert(delta_ops(self.chunk_delta_list@) =~= settled + literal_run(
                        source,
                        start,
                        position,
                    ).push(matched));
                    assert forall|rest: Seq<u8>|
                        #[trigger] delta_of(
                            source + rest,
                            signature,
                            self.weak_hash,
                            self.strong_hash,
                        ) == delta_ops(self.chunk_delta_list@) + delta_from(
                            source + rest,
                            signature,
                            self.weak_hash,
                            self.strong_hash,
                            self.run_start(),
                            self.position(),
                        ) by {
                        lemma_window_settled(
                            source,
                            rest,
                            signature,
                            self.weak_hash,
                            self.strong_hash,
                            start,
                            position,
                        );
                        let tail = delta_from(
                            source + rest,
                            signature,
                            self.weak_hash,
                            self.strong_hash,
                            position + chunk_size,
                            position + chunk_size,
                        );
                        let step = literal_run(source, start, position).push(matched);
                        assert(settled + (step + tail) =~= (settled + step) + tail);
                    }
                }
            },
            None => {
                let diff_byte: u8 = self.buffer.remove(0);
                self.differences.push(diff_byte);
                self.state = ScanState::Resync;
                proof {
                    assert(self.run_start() == start);
                    assert(self.position() == position + 1);
                    assert(window[0] == source.skip(position)[0]);
                    assert(self.differences@ =~= source.subrange(start, position + 1));
                    assert(self.buffer@ =~= window.skip(1));
                    lemma_drop_front(source, window, self.iterator.buffer@, position, 1);
                    assert forall|rest: Seq<u8>|
                        #[trigger] delta_of(
                            source + rest,
                            signature,
                            self.weak_hash,
                            self.strong_hash,
                        ) == delta_ops(self.chunk_delta_list@) + delta_from(
                            source + rest,
                            signature,
                            self.weak_hash,
                            self.strong_hash,
                            self.run_start(),
                            self.position(),
                        ) by {
                        lemma_window_settled(
                            source,
                            rest,
                            signature,
                            self.weak_hash,
                            self.strong_hash,
                            start,
                            position,
                        );
                    }
                }
            },
        }
    }

    /// Scans as far as the bytes received allow: until less than a window is
    /// left and the chunker has no chunk to give.
    fn advance(&mut self)
        requires
            old(self).scanning(),
        ensures
            final(self).scanning(),
            final(self)@ == old(self)@,
            final(self).iterator.exhausted == old(self).iterator.exhausted,
            final(self).buffer@.len() < final(self).signature@.chunk_size,
            final(self).iterator.buffer@.len() < final(self).signature@.chunk_size,
            final(self).iterator.exhausted ==> final(self).iterator.buffer@.len() == 0,
    {
        let chunk_size: usize = self.signature.get_chunk_size();
        loop
            invariant
                self.scanning(),
                self@ == old(self)@,
                self.iterator.exhausted == old(self).iterator.exhausted,
                chunk_size == self.signature@.chunk_size,
            ensures
                self.buffer@.len() < chunk_size,
                self.iterator.buffer@.len() < chunk_size,
                self.iterator.exhausted ==> self.iterator.buffer@.len() == 0,
            decreases self.buffer@.len() + self.iterator.buffer@.len(), self.iterator.buffer@.len(),
        {
            if self.buffer.len() < chunk_size {
                // Less than a window is in hand: ask the chunker for more.
                let ghost buffered = self.buffer@;
                let ghost pending = self.iterator.buffer@;
                match self.iterator.next_chunk() {
                    Some(mut chunk) => {
                        self.buffer.append(&mut chunk);
                        assert(self.buffer@ + self.iterator.buffer@ =~= buffered + pending);
                    },
                    None => {
                        break ;
                    },
                }
            }
            if self.buffer.len() >= chunk_size {
                self.scan_window();
            }
        }
    }

    /// Delivers the next block of the new file. Every window that the bytes
    /// received so far hold is tested: besides the open literal run, less
    /// than two windows stay in the generator's hands.
    pub fn feed(&mut self, block: &[u8])
        requires
            old(self).wf(),
        ensures
            final(self).wf(),
            final(self)@ == (DeltaGeneratorView {
                source: old(self)@.source + block@,
                ..old(self)@
            }),
            final(self).held() <= 2 * final(self)@.signature.chunk_size,
    {
        if self.signature.get_chunk_size() == 0 {
            proof {
                self.source = Ghost(self.source@ + block@);
            }
            return ;
        }
        let ghost before = self.source@;
        let ghost start: int = self.run_start();
        let ghost position: int = self.position();
        let ghost buffered = self.buffer@ + self.iterator.buffer@;
        self.iterator.push_block(block);
        proof {
            self.source = Ghost(before + block@);
            assert(self.differences@ =~= self.source@.subrange(start, position));
            assert(self.buffer@ + self.iterator.buffer@ =~= buffered + block@);
            assert(buffered + block@ =~= self.source@.skip(position));
            assert forall|rest: Seq<u8>|
                #[trigger] delta_of(
                    self.source@ + rest,
                    self.signature@,
                    self.weak_hash,
                    self.strong_hash,
                ) == delta_ops(self.chunk_delta_list@) + delta_from(
                    self.source@ + rest,
                    self.signature@,
                    self.weak_hash,
                    self.strong_hash,
                    start,
                    position,
                ) by {
                assert((before + block@) + rest =~= before + (block@ + rest));
                assert(delta_of(
                    before + (block@ + rest),
                    self.signature@,
                    self.weak_hash,
                    self.strong_hash,
                ) == delta_ops(self.chunk_delta_list@) + delta_from(
                    before + (block@ + rest),
                    self.signature@,
                    self.weak_hash,
                    self.strong_hash,
                    start,
                    position,
                ));
            }
        }
        self.advance();
    }

    /// Settles what is left when the new file is exhausted. Less than a
    /// window is left: it is matched where it has the length of the old
    /// file's last chunk and the table knows it, and else joins the literal
    /// run, which is flushed.
    fn drain(&mut self)
        requires
            old(self).scanning(),
            old(self).buffer@.len() < old(self).signature@.chunk_size,
            old(self).iterator.buffer@.len() == 0,
        ensures
            final(self)@ == old(self)@,
            delta_ops(final(self).chunk_delta_list@) == delta_of(
                old(self)@.source,
                old(self)@.signature,
                old(self)@.weak_hash,
                old(self)@.strong_hash,
            ),
            if final(self).overrun {
                final(self)@.source.len() > final(self)@.file_size
            } else {
                final(self)@.source.len() + final(self).unaccounted == final(self)@.file_size
            },
    {
        let ghost source = self.source@;
        let ghost start: int = self.run_start();
        let ghost position: int = self.position();
        let ghost settled = delta_ops(self.chunk_delta_list@);
        proof {
            assert(source + Seq::<u8>::empty() =~= source);
            assert(delta_of(
                source + Seq::<u8>::empty(),
                self.signature@,
                self.weak_hash,
                self.strong_hash,
            ) == settled + delta_from(
                source + Seq::<u8>::empty(),
                self.signature@,
                self.weak_hash,
                self.strong_hash,
                start,
                position,
            ));
            assert(self.buffer@ =~= source.subrange(position, source.len() as int));
        }
        let left: usize = self.buffer.len();
        let run_is_open: bool = match self.state {
            ScanState::AlignedScan => false,
            _ => true,
        };
        let mut last_match: Option<ChunkDelta> = None;
        if left == self.signature.get_last_chunk_size() && (left > 0 || run_is_open) {
            // What is left has the length of the old file's last chunk.
            last_match = Delta::get_chunk_delta_match(
                &self.signature,
                &self.weak_hash,
                &self.strong_hash,
                self.buffer.as_slice(),
            );
        }
        self.state = ScanState::Drain;
        match last_match {
            Some(chunk_delta) => {
                let ghost matched = chunk_delta@;
                self.flush_differences();
                let ghost flushed = self.chunk_delta_list@;
                self.chunk_delta_list.push(chunk_delta);
                self.account(left);
                self.buffer.clear();
                proof {
                    assert(delta_ops(self.chunk_delta_list@) =~= delta_ops(flushed).push(matched));
                    assert(delta_ops(self.chunk_delta_list@) =~= settled + literal_run(
                        source,
                        start,
                        position,
                    ).push(matched));
                }
            },
            None => {
                self.differences.append(&mut self.buffer);
                proof {
                    assert(self.differences@ =~= source.subrange(start, source.len() as int));
                }
                self.flush_differences();
                proof {
                    assert(delta_ops(self.chunk_delta_list@) =~= settled + literal_run(
                        source,
                        start,
                        source.len() as int,
                    ));
                }
            },
        }
    }

    /// The delta of the bytes received. It is refused where its operations do
    /// not account for exactly as many bytes as the new file was announced with.
    pub fn finish(self) -> (result: Result<Delta, RollingHashError>)
        requires
            self.wf(),
        ensures
            result is Ok <==> accounted_len(self@.source.len(), self@.signature.chunk_size)
                == self@.file_size,
            result matches Ok(delta) ==> delta@ == delta_of(
                self@.source,
                self@.signature,
                self@.weak_hash,
                self@.strong_hash,
            ),
            result matches Err(error) ==> error@ == DELTA_PROCESSED_DATA_SIZE_ERROR@,
    {
        let mut generator = self;
        if generator.signature.get_chunk_size() > 0 {
            generator.iterator.end_of_input();
            generator.advance();
            generator.drain();
        } else {
            assert(delta_ops(generator.chunk_delta_list@) =~= Seq::empty());
        }
        if generator.overrun || generator.unaccounted != 0 {
            return Err(RollingHashError::new(DELTA_PROCESSED_DATA_SIZE_ERROR));
        }
        Ok(Delta { chunk_delta_list: generator.chunk_delta_list })
    }
}

/// The count of bytes still to account for, and whether more were accounted
/// for than announced, after `count` more bytes are accounted for.
spec fn after_account(unaccounted: usize, overrun: bool, count: usize) -> (usize, bool) {
    if overrun {
        (unaccounted, true)
    } else if count <= unaccounted {
        ((unaccounted - count) as usize, false)
    } else {
        (unaccounted, true)
    }
}

/// A window that lies within `source` is tested in the same way whatever
/// follows `source`.
proof fn lemma_window_settled<W: WeakHash, S: StrongHash>(
    source: Seq<u8>,
    rest: Seq<u8>,
    signature: SignatureView,
    weak_hash: W,
    strong_hash: S,
    start: int,
    position: int,
)
    requires
        signature.chunk_size > 0,
        0 <= start <= position,
        position + signature.chunk_size <= source.len(),
    ensures
        delta_from(source + rest, signature, weak_hash, strong_hash, start, position)
            == match window_match(
            signature,
            weak_hash,
            strong_hash,
            source.subrange(position, position + signature.chunk_size),
        ) {
            Some(matched) => literal_run(source, start, position).push(matched) + delta_from(
                source + rest,
                signature,
                weak_hash,
                strong_hash,
                position + signature.chunk_size,
                position + signature.chunk_size,
            ),
            None => delta_from(
                source + rest,
                signature,
                weak_hash,
                strong_hash,
                start,
                position + 1,
            ),
        },
{
    let data = source + rest;
    assert(data.subrange(position, position + signature.chunk_size) =~= source.subrange(
        position,
        position + signature.chunk_size,
    ));
    assert(data.subrange(start, position) =~= source.subrange(start, position));
}

/// Where `head` and `tail` together are `whole` from `position` on, `head`
/// without its first `count` bytes and `tail` are `whole` from
/// `position + count` on.
proof fn lemma_drop_front(
    whole: Seq<u8>,
    head: Seq<u8>,
    tail: Seq<u8>,
    position: int,
    count: int,
)
    requires
        0 <= position <= whole.len(),
        0 <= count <= head.len(),
        head + tail == whole.skip(position),
    ensures
        head.skip(count) + tail == whole.skip(position + count),
{
    let kept = head.skip(count) + tail;
    let both = head + tail;
    assert(both.len() == whole.len() - position);
    assert(kept.len() == whole.skip(position + count).len());
    assert forall|i: int| 0 <= i < kept.len() implies kept[i] == whole.skip(
        position + count,
    )[i] by {
        assert(kept[i] == both[i + count]);
        assert(both[i + count] == whole.skip(position)[i + count]);
        assert(whole.skip(position)[i + count] == whole[position + count + i]);
    }
    assert(kept =~= whole.skip(position + count));
}

} // verus!
