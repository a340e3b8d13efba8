//! The streaming chunker.
//!
//! A chunker cuts a byte source into chunks of one size; only the last chunk
//! may be shorter. The source is delivered block by block, and the chunker
//! holds no more than the bytes that it has not handed out yet.

use vstd::prelude::*;

use super::RdiffChunk;
use crate::rdiff::constants::BLOCK_SIZE;
use crate::rdiff::error::messages::INVALID_CHUNK_SIZE;
use crate::rdiff::error::RollingHashError;

verus! {

/// The chunk size for a source of `len` bytes, where the caller names none:
/// 1 for a source of at most one byte, the block cap for a source longer than
/// the block cap, and else half the length, a half byte rounded up.
pub open spec fn default_chunk_size(len: nat) -> nat {
    if len <= 1 {
        1
    } else if len > BLOCK_SIZE {
        BLOCK_SIZE as nat
    } else {
        (len + 1) / 2
    }
}

/// The number of chunks of a source of `len` bytes: all of `chunk_size`
/// bytes, and one more for what is left, if anything is.
pub open spec fn chunk_count(len: nat, chunk_size: nat) -> nat
    recommends
        chunk_size > 0,
{
    if len % chunk_size == 0 {
        len / chunk_size
    } else {
        len / chunk_size + 1
    }
}

/// The chunk at position `k` (from 0) of `data`: the bytes from
/// `k * chunk_size` up to the next multiple of `chunk_size`, or to the end of
/// `data`, whichever comes first.
pub open spec fn chunk_at(data: Seq<u8>, chunk_size: nat, k: int) -> Seq<u8> {
    let start = k * chunk_size;
    let end = if start + chunk_size <= data.len() {
        start + chunk_size
    } else {
        data.len() as int
    };
    data.subrange(start, end)
}

/// The chunks of `data`, in order.
pub open spec fn chunks(data: Seq<u8>, chunk_size: nat) -> Seq<Seq<u8>>
    recommends
        chunk_size > 0,
{
    Seq::new(chunk_count(data.len(), chunk_size), |k: int| chunk_at(data, chunk_size, k))
}

/// How many of the pending bytes the next chunk takes: `chunk_size` where
/// that many are pending; all of them where fewer are pending, the source is
/// exhausted and some are left; and else there is no next chunk yet.
pub open spec fn next_chunk_len(pending: nat, chunk_size: nat, exhausted: bool) -> Option<nat> {
    if pending >= chunk_size {
        Some(chunk_size)
    } else if exhausted && pending > 0 {
        Some(pending)
    } else {
        None
    }
}

/// A forward-only sequence of chunks of one size.
pub trait RdiffChunkIterator {
    /// The chunk size.
    spec fn spec_chunk_size(&self) -> usize;

    /// The bytes that the iterator has received and not handed out yet.
    spec fn pending(&self) -> Seq<u8>;

    /// Whether the whole source has been delivered to the iterator.
    spec fn exhausted(&self) -> bool;

    /// The next chunk: the first [`next_chunk_len`] pending bytes, which
    /// leave the iterator. `None` says that no chunk is ready: for good once
    /// the source is exhausted, and else until more of it is delivered.
    fn next_chunk(&mut self) -> (chunk: Option<RdiffChunk>)
        ensures
            final(self).spec_chunk_size() == old(self).spec_chunk_size(),
            final(self).exhausted() == old(self).exhausted(),
            match next_chunk_len(
                old(self).pending().len(),
                old(self).spec_chunk_size() as nat,
                old(self).exhausted(),
            ) {
                Some(len) => {
                    &&& chunk matches Some(bytes) && bytes@ == old(self).pending().take(len as int)
                    &&& final(self).pending() == old(self).pending().skip(len as int)
                },
                None => chunk is None && final(self).pending() == old(self).pending(),
            },
    ;

    /// The chunk size.
    fn get_chunk_size(&self) -> (chunk_size: usize)
        ensures
            chunk_size == self.spec_chunk_size(),
    ;
}

/// A chunker that buffers the blocks of its source.
#[derive(Debug, PartialEq)]
pub struct BufferedRdiffChunkIterator {
    /// The chunk size.
    pub chunk_size: usize,
    /// The bytes received and not handed out yet.
    pub buffer: Vec<u8>,
    /// Whether the end of the source has been announced.
    pub exhausted: bool,
}

impl BufferedRdiffChunkIterator {
    /// A chunker for a source of `file_size` bytes, with the chunk size that
    /// [`default_chunk_size`] gives for that length.
    pub fn new(file_size: usize) -> (iterator: BufferedRdiffChunkIterator)
        ensures
            iterator.chunk_size == default_chunk_size(file_size as nat),
            iterator.buffer@ == Seq::<u8>::empty(),
            !iterator.exhausted,
    {
        let chunk_size: usize = BufferedRdiffChunkIterator::compute_chunk_size(file_size);
        let buffer: Vec<u8> = Vec::new();
        BufferedRdiffChunkIterator { chunk_size, buffer, exhausted: false }
    }

    /// A chunker with the chunk size that the caller names. A chunk size
    /// above the block cap is refused.
    pub fn new_with_chunk_size(chunk_size: usize) -> (result: Result<
        BufferedRdiffChunkIterator,
        RollingHashError,
    >)
        ensures
            result is Ok <==> chunk_size <= BLOCK_SIZE,
            result matches Ok(iterator) ==> {
                &&& iterator.chunk_size == chunk_size
                &&& iterator.buffer@ == Seq::<u8>::empty()
                &&& !iterator.exhausted
            },
            result matches Err(error) ==> error@ == INVALID_CHUNK_SIZE@,
    {
        match BufferedRdiffChunkIterator::validate_chunk_size(chunk_size) {
            Err(error) => Err(error),
            Ok(()) => {
                let buffer: Vec<u8> = Vec::new();
                Ok(BufferedRdiffChunkIterator { chunk_size, buffer, exhausted: false })
            },
        }
    }

    /// The default chunk size for a source of `file_size` bytes.
    pub fn compute_chunk_size(file_size: usize) -> (chunk_size: usize)
        ensures
            chunk_size == default_chunk_size(file_size as nat),
    {
        if file_size > 1 {
            if file_size > BLOCK_SIZE {
                BLOCK_SIZE
            } else {
                (file_size + 1) / 2
            }
        } else {
            1
        }
    }

    /// Refuses a chunk size above the block cap.
    pub fn validate_chunk_size(chunk_size: usize) -> (result: Result<(), RollingHashError>)
        ensures
            result is Ok <==> chunk_size <= BLOCK_SIZE,
            result matches Err(error) ==> error@ == INVALID_CHUNK_SIZE@,
    {
        if chunk_size > BLOCK_SIZE {
            let rdiff_error = RollingHashError::new(INVALID_CHUNK_SIZE);
            return Err(rdiff_error);
        }
        Ok(())
    }

    /// Delivers the next block of the source. A block that comes after the
    /// end of the source was announced is not part of the source, and is
    /// dropped.
    pub fn push_block(&mut self, block: &[u8])
        ensures
            final(self).chunk_size == old(self).chunk_size,
            final(self).exhausted == old(self).exhausted,
            final(self).buffer@ == if old(self).exhausted {
                old(self).buffer@
            } else {
                old(self).buffer@ + block@
            },
    {
        if !self.exhausted {
            let ghost before = self.buffer@;
            self.buffer.extend_from_slice(block);
            assert(self.buffer@ =~= before + block@);
        }
    }

    /// Announces the end of the source: what is pending is all that is left.
    pub fn end_of_input(&mut self)
        ensures
            final(self).chunk_size == old(self).chunk_size,
            final(self).buffer@ == old(self).buffer@,
            final(self).exhausted,
    {
        self.exhausted = true;
    }
}

impl RdiffChunkIterator for BufferedRdiffChunkIterator {
    open spec fn spec_chunk_size(&self) -> usize {
        self.chunk_size
    }

    open spec fn pending(&self) -> Seq<u8> {
        self.buffer@
    }

    open spec fn exhausted(&self) -> bool {
        self.exhausted
    }

    fn get_chunk_size(&self) -> (chunk_size: usize) {
        self.chunk_size
    }

    fn next_chunk(&mut self) -> (chunk: Option<RdiffChunk>) {
        if self.buffer.len() >= self.chunk_size {
            // The buffer holds a whole chunk: hand it out and keep the rest.
            let mut next_chunk = self.buffer.split_off(self.chunk_size);
            std::mem::swap(&mut self.buffer, &mut next_chunk);
            Some(next_chunk)
        } else if self.exhausted && self.buffer.len() > 0 {
            // Nothing more will come: what is left is the last chunk.
            let mut next_chunk: Vec<u8> = Vec::new();
            std::mem::swap(&mut self.buffer, &mut next_chunk);
            assert(next_chunk@ =~= old(self).buffer@.take(old(self).buffer@.len() as int));
            assert(self.buffer@ =~= old(self).buffer@.skip(old(self).buffer@.len() as int));
            Some(next_chunk)
        } else {
            None
        }
    }
}

/// All chunks have the chunk size, except that the last has what is left of
/// the source where the source is not a whole number of chunks.
pub proof fn lemma_chunk_lengths(data: Seq<u8>, chunk_size: nat, k: int)
    requires
        chunk_size > 0,
        0 <= k < chunks(data, chunk_size).len(),
    ensures
        chunks(data, chunk_size)[k].len() == if k + 1 < chunks(data, chunk_size).len()
            || data.len() % chunk_size == 0 {
            chunk_size
        } else {
            data.len() % chunk_size
        },
        1 <= chunks(data, chunk_size)[k].len() <= chunk_size,
{
    let size = chunk_size as int;
    let whole = data.len() as int / size;
    let left = data.len() as int % size;
    vstd::arithmetic::div_mod::lemma_fundamental_div_mod(data.len() as int, size);
    vstd::arithmetic::div_mod::lemma_mod_bound(data.len() as int, size);
    lemma_chunk_starts_within(data.len(), chunk_size, k);
    if k < whole {
        assert(k * size + size <= data.len()) by (nonlinear_arith)
            requires
                data.len() == size * whole + left,
                0 <= left,
                0 <= k < whole,
                size > 0,
        ;
    } else {
        assert(k * size + left == data.len()) by (nonlinear_arith)
            requires
                data.len() == size * whole + left,
                k == whole,
        ;
    }
}

/// The chunks hold the bytes of the source in their order: the byte at a
/// position of the source is the byte at that position modulo the chunk size
/// in the chunk whose number is the position divided by the chunk size.
pub proof fn lemma_chunks_hold_source(data: Seq<u8>, chunk_size: nat, position: int)
    requires
        chunk_size > 0,
        0 <= position < data.len(),
    ensures
        0 <= position / (chunk_size as int) < chunks(data, chunk_size).len(),
        0 <= position % (chunk_size as int) < chunks(data, chunk_size)[position / (
        chunk_size as int)].len(),
        chunks(data, chunk_size)[position / (chunk_size as int)][position % (chunk_size as int)]
            == data[position],
{
    let size = chunk_size as int;
    let k = position / size;
    let offset = position % size;
    vstd::arithmetic::div_mod::lemma_fundamental_div_mod(position, size);
    vstd::arithmetic::div_mod::lemma_mod_bound(position, size);
    vstd::arithmetic::div_mod::lemma_fundamental_div_mod(data.len() as int, size);
    vstd::arithmetic::div_mod::lemma_mod_bound(data.len() as int, size);
    vstd::arithmetic::div_mod::lemma_div_is_ordered(position, data.len() as int, size);
    vstd::arithmetic::div_mod::lemma_div_pos_is_pos(position, size);
    assert(k * size == size * k) by (nonlinear_arith);
    if k == data.len() as int / size {
        // The position lies behind the last whole chunk: something is left.
        assert(data.len() as int % size > offset);
    }
}

/// The chunk that an iterator hands out is the first chunk of what was
/// pending, and what stays pending has the chunks behind it. An exhausted
/// iterator hands out a chunk as long as a chunk is left.
pub proof fn lemma_next_chunk_is_first(pending: Seq<u8>, chunk_size: nat, exhausted: bool)
    requires
        chunk_size > 0,
    ensures
        match next_chunk_len(pending.len(), chunk_size, exhausted) {
            Some(len) => {
                &&& chunks(pending, chunk_size).len() > 0
                &&& pending.take(len as int) == chunks(pending, chunk_size).first()
                &&& chunks(pending.skip(len as int), chunk_size) == chunks(
                    pending,
                    chunk_size,
                ).drop_first()
            },
            None => exhausted ==> chunks(pending, chunk_size).len() == 0,
        },
{
    let all = chunks(pending, chunk_size);
    let size = chunk_size as int;
    vstd::arithmetic::div_mod::lemma_fundamental_div_mod(pending.len() as int, size);
    vstd::arithmetic::div_mod::lemma_mod_bound(pending.len() as int, size);
    match next_chunk_len(pending.len(), chunk_size, exhausted) {
        Some(len) => {
            let behind = pending.skip(len as int);
            if pending.len() >= chunk_size {
                assert(1 * chunk_size + behind.len() == pending.len()) by (nonlinear_arith)
                    requires
                        behind.len() == pending.len() - chunk_size,
                ;
                lemma_chunk_count_split(1, behind.len(), chunk_size);
                assert(all.len() == 1 + chunks(behind, chunk_size).len());
                assert(all.first() =~= pending.take(len as int));
                assert forall|k: int| 0 <= k < chunks(behind, chunk_size).len() implies chunks(
                    behind,
                    chunk_size,
                )[k] == all.drop_first()[k] by {
                    assert((k + 1) * chunk_size == k * chunk_size + chunk_size)
                        by (nonlinear_arith);
                    lemma_chunk_starts_within(behind.len(), chunk_size, k);
                    assert(chunk_at(behind, chunk_size, k) =~= chunk_at(
                        pending,
                        chunk_size,
                        k + 1,
                    ));
                }
                assert(chunks(behind, chunk_size) =~= all.drop_first());
            } else {
                vstd::arithmetic::div_mod::lemma_fundamental_div_mod_converse(
                    pending.len() as int,
                    size,
                    0,
                    pending.len() as int,
                );
                assert(all.len() == 1);
                assert(all.first() =~= pending.take(len as int));
                assert(chunks(behind, chunk_size) =~= all.drop_first());
            }
        },
        None => {
            // An exhausted iterator without a chunk has nothing pending.
            assert(exhausted ==> pending.len() == 0);
        },
    }
}

/// A source whose length is `count` times the chunk size has `count` chunks,
/// each of the chunk size.
pub proof fn lemma_chunks_of_whole(data: Seq<u8>, chunk_size: nat, count: nat)
    requires
        chunk_size > 0,
        data.len() == count * chunk_size,
    ensures
        chunks(data, chunk_size).len() == count,
        forall|k: int|
            0 <= k < count ==> #[trigger] chunks(data, chunk_size)[k] == data.subrange(
                k * chunk_size,
                k * chunk_size + chunk_size,
            ),
{
    vstd::arithmetic::div_mod::lemma_fundamental_div_mod_converse(
        data.len() as int,
        chunk_size as int,
        count as int,
        0,
    );
    assert forall|k: int| 0 <= k < count implies #[trigger] chunks(data, chunk_size)[k]
        == data.subrange(k * chunk_size, k * chunk_size + chunk_size) by {
        assert(k * chunk_size + chunk_size <= count * chunk_size) by (nonlinear_arith)
            requires
                0 <= k < count,
                chunk_size > 0,
        ;
    }
}

/// Bytes that follow a whole number of chunks, and are no more than one
/// chunk, are the one chunk that they add.
pub proof fn lemma_chunks_push(data: Seq<u8>, tail: Seq<u8>, chunk_size: nat, count: nat)
    requires
        chunk_size > 0,
        data.len() == count * chunk_size,
        0 < tail.len() <= chunk_size,
    ensures
        chunks(data + tail, chunk_size) == chunks(data, chunk_size).push(tail),
{
    let whole = data + tail;
    lemma_chunks_of_whole(data, chunk_size, count);
    if tail.len() == chunk_size {
        assert(whole.len() == (count + 1) * chunk_size) by (nonlinear_arith)
            requires
                whole.len() == count * chunk_size + chunk_size,
        ;
        lemma_chunks_of_whole(whole, chunk_size, count + 1);
    } else {
        vstd::arithmetic::div_mod::lemma_fundamental_div_mod_converse(
            whole.len() as int,
            chunk_size as int,
            count as int,
            tail.len() as int,
        );
    }
    assert(chunks(whole, chunk_size).len() == count + 1);
    assert forall|k: int| 0 <= k < count + 1 implies chunks(whole, chunk_size)[k] == chunks(
        data,
        chunk_size,
    ).push(tail)[k] by {
        if k < count {
            assert(k * chunk_size + chunk_size <= count * chunk_size) by (nonlinear_arith)
                requires
                    0 <= k < count,
                    chunk_size > 0,
            ;
            assert(whole.subrange(k * chunk_size, k * chunk_size + chunk_size) =~= data.subrange(
                k * chunk_size,
                k * chunk_size + chunk_size,
            ));
        } else {
            assert(whole.subrange((count * chunk_size) as int, whole.len() as int) =~= tail);
        }
    }
    assert(chunks(whole, chunk_size) =~= chunks(data, chunk_size).push(tail));
}

/// Every chunk of a source starts within the source.
pub proof fn lemma_chunk_starts_within(len: nat, chunk_size: nat, k: int)
    requires
        chunk_size > 0,
        0 <= k < chunk_count(len, chunk_size),
    ensures
        0 <= k * chunk_size < len,
{
    let size = chunk_size as int;
    let whole = len as int / size;
    let left = len as int % size;
    vstd::arithmetic::div_mod::lemma_fundamental_div_mod(len as int, size);
    vstd::arithmetic::div_mod::lemma_mod_bound(len as int, size);
    assert(0 <= k * size < len) by (nonlinear_arith)
        requires
            len == size * whole + left,
            0 <= left < size,
            0 <= k,
            left == 0 ==> k < whole,
            left != 0 ==> k <= whole,
    ;
}

/// Whole chunks in front of a source add their number to its chunks.
pub proof fn lemma_chunk_count_split(count: nat, rest: nat, chunk_size: nat)
    requires
        chunk_size > 0,
    ensures
        chunk_count(count * chunk_size + rest, chunk_size) == count + chunk_count(rest, chunk_size),
{
    let size = chunk_size as int;
    let whole = rest as int / size;
    let left = rest as int % size;
    vstd::arithmetic::div_mod::lemma_fundamental_div_mod(rest as int, size);
    vstd::arithmetic::div_mod::lemma_mod_bound(rest as int, size);
    assert(count * chunk_size + rest == (count + whole) * size + left) by (nonlinear_arith)
        requires
            rest == size * whole + left,
            size == chunk_size,
    ;
    vstd::arithmetic::div_mod::lemma_fundamental_div_mod_converse(
        (count * chunk_size + rest) as int,
        size,
        count + whole,
        left,
    );
}

/// A longer source has no fewer chunks.
pub proof fn lemma_chunk_count_grows(shorter: nat, longer: nat, chunk_size: nat)
    requires
        chunk_size > 0,
        shorter <= longer,
    ensures
        chunk_count(shorter, chunk_size) <= chunk_count(longer, chunk_size),
{
    let size = chunk_size as int;
    vstd::arithmetic::div_mod::lemma_fundamental_div_mod(shorter as int, size);
    vstd::arithmetic::div_mod::lemma_fundamental_div_mod(longer as int, size);
    vstd::arithmetic::div_mod::lemma_mod_bound(shorter as int, size);
    vstd::arithmetic::div_mod::lemma_mod_bound(longer as int, size);
    vstd::arithmetic::div_mod::lemma_div_is_ordered(shorter as int, longer as int, size);
}

} // verus!
