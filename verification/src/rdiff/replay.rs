//! What a delta says about the new file: the bytes that its operations stand
//! for, and the laws that hold of the deltas that the engine computes.
//!
//! The engine itself applies no delta. Replaying a delta is a notion of the
//! contracts only: it says what a receiver would write.

use vstd::prelude::*;

use super::chunk::iterator::{chunk_count, chunks, default_chunk_size};
use super::delta::{delta_from, delta_of, literal_run, window_match, ChunkDeltaView};
use super::hash::strong::StrongHash;
use super::hash::weak::WeakHash;
use super::signature::{
    last_chunk_len, lemma_table_finds_first, same_hashes, signature_of, signature_with, table_of,
    SignatureView,
};

verus! {

/// The bytes that one operation stands for: the chunk of the old file with
/// the 1-based position of a match, and the literal bytes themselves. A match
/// with a position that the old file does not have stands for nothing.
pub open spec fn replay_one(operation: ChunkDeltaView, old_chunks: Seq<Seq<u8>>) -> Seq<u8> {
    match operation {
        ChunkDeltaView::Match(index) => if 1 <= index <= old_chunks.len() {
            old_chunks[index - 1]
        } else {
            Seq::empty()
        },
        ChunkDeltaView::Diff(bytes) => bytes,
    }
}

/// The bytes that a delta stands for: those of its operations, one after another.
pub open spec fn replay(delta: Seq<ChunkDeltaView>, old_chunks: Seq<Seq<u8>>) -> Seq<u8>
    decreases delta.len(),
{
    if delta.len() == 0 {
        Seq::empty()
    } else {
        replay_one(delta.first(), old_chunks) + replay(delta.drop_first(), old_chunks)
    }
}

/// Whether every literal run of `delta` has a byte, and none stands directly
/// before another: the literal bytes between two matches are one operation.
pub open spec fn is_coalesced(delta: Seq<ChunkDeltaView>) -> bool {
    forall|i: int|
        0 <= i < delta.len() ==> (#[trigger] delta[i] matches ChunkDeltaView::Diff(bytes)
            ==> bytes.len() >= 1 && (i + 1 < delta.len() ==> delta[i + 1] is Match))
}

/// Whether the bytes of `data` from `from` up to `to` are a window that a
/// scan with this chunk size may test: one of the chunk size, or the end of
/// `data` with the length of the old file's last chunk.
pub open spec fn is_window(
    data: Seq<u8>,
    chunk_size: nat,
    last_chunk_size: nat,
    from: int,
    to: int,
) -> bool {
    &&& 0 <= from <= to <= data.len()
    &&& to - from == chunk_size || (to == data.len() && to - from == last_chunk_size)
}

/// Whether a match is true: it names a chunk of the old file that is, byte
/// for byte, the window that was matched.
pub open spec fn is_true_match(
    matched: ChunkDeltaView,
    window: Seq<u8>,
    old_chunks: Seq<Seq<u8>>,
) -> bool {
    matched matches ChunkDeltaView::Match(index) && 1 <= index <= old_chunks.len()
        && old_chunks[index - 1] == window
}

/// Whether every match that the scan of `data` makes from `position` on is
/// true. The scan is that of [`delta_from`]: the bytes from `start` up to
/// `position` are the open literal run.
pub open spec fn scan_is_true<W: WeakHash, S: StrongHash>(
    data: Seq<u8>,
    signature: SignatureView,
    weak_hash: W,
    strong_hash: S,
    old_chunks: Seq<Seq<u8>>,
    start: int,
    position: int,
) -> bool
    decreases data.len() - position,
{
    let chunk_size = signature.chunk_size as int;
    let left = data.len() - position;
    if chunk_size <= 0 || left < 0 {
        true
    } else if left >= chunk_size {
        let window = data.subrange(position, position + chunk_size);
        match window_match(signature, weak_hash, strong_hash, window) {
            Some(matched) => is_true_match(matched, window, old_chunks) && scan_is_true(
                data,
                signature,
                weak_hash,
                strong_hash,
                old_chunks,
                position + chunk_size,
                position + chunk_size,
            ),
            None => scan_is_true(
                data,
                signature,
                weak_hash,
                strong_hash,
                old_chunks,
                start,
                position + 1,
            ),
        }
    } else if left == 0 && start >= position {
        true
    } else if left == signature.last_chunk_size {
        let window = data.subrange(position, data.len() as int);
        match window_match(signature, weak_hash, strong_hash, window) {
            Some(matched) => is_true_match(matched, window, old_chunks),
            None => true,
        }
    } else {
        true
    }
}

/// Whether the two hashes tell the chunks of the old file apart from the
/// windows of `data`: a window that has the checksum and the digest of a
/// chunk is, byte for byte, that chunk.
pub open spec fn hashes_tell_apart<W: WeakHash, S: StrongHash>(
    old_chunks: Seq<Seq<u8>>,
    data: Seq<u8>,
    chunk_size: nat,
    last_chunk_size: nat,
    weak_hash: W,
    strong_hash: S,
) -> bool {
    forall|k: int, from: int, to: int|
        #![trigger old_chunks[k], data.subrange(from, to)]
        0 <= k < old_chunks.len() && is_window(data, chunk_size, last_chunk_size, from, to)
            && same_hashes(weak_hash, strong_hash, old_chunks[k], data.subrange(from, to))
            ==> old_chunks[k] == data.subrange(from, to)
}

/// Whether no two of `chunks` have both the same checksum and the same digest.
pub open spec fn chunks_differ<W: WeakHash, S: StrongHash>(
    chunks: Seq<Seq<u8>>,
    weak_hash: W,
    strong_hash: S,
) -> bool {
    forall|j: int, k: int|
        0 <= j < k < chunks.len() ==> !same_hashes(
            weak_hash,
            strong_hash,
            #[trigger] chunks[j],
            #[trigger] chunks[k],
        )
}

/// The delta in which every chunk of the old file is matched in its place:
/// the matches of the positions 1 to `count`, in order.
pub open spec fn all_matches(count: nat) -> Seq<ChunkDeltaView> {
    Seq::new(count, |k: int| ChunkDeltaView::Match((k + 1) as u32))
}

/// Reconstruction: the delta of a new file against the signature of an old
/// file, replayed against the chunks of the old file, gives the new file byte
/// for byte, provided that every match of the delta is true. (A match is
/// made on a checksum and a digest: it is false where a window has both in
/// common with a chunk of other bytes.)
pub proof fn lemma_reconstruction<W: WeakHash, S: StrongHash>(
    old_file: Seq<u8>,
    new_file: Seq<u8>,
    weak_hash: W,
    strong_hash: S,
)
    requires
        scan_is_true(
            new_file,
            signature_of(old_file, weak_hash, strong_hash),
            weak_hash,
            strong_hash,
            chunks(old_file, default_chunk_size(old_file.len())),
            0,
            0,
        ),
    ensures
        replay(
            delta_of(
                new_file,
                signature_of(old_file, weak_hash, strong_hash),
                weak_hash,
                strong_hash,
            ),
            chunks(old_file, default_chunk_size(old_file.len())),
        ) == new_file,
{
    lemma_replay_from(
        new_file,
        signature_of(old_file, weak_hash, strong_hash),
        weak_hash,
        strong_hash,
        chunks(old_file, default_chunk_size(old_file.len())),
        0,
        0,
    );
    assert(new_file.subrange(0, new_file.len() as int) =~= new_file);
}

/// Every match of the delta is true where the two hashes tell the chunks of
/// the old file apart from the windows of the new file: then the delta,
/// replayed against the chunks of the old file, gives the new file.
pub proof fn lemma_reconstruction_by_hashes<W: WeakHash, S: StrongHash>(
    old_file: Seq<u8>,
    new_file: Seq<u8>,
    weak_hash: W,
    strong_hash: S,
)
    requires
        chunk_count(old_file.len(), default_chunk_size(old_file.len())) <= u32::MAX,
        hashes_tell_apart(
            chunks(old_file, default_chunk_size(old_file.len())),
            new_file,
            default_chunk_size(old_file.len()),
            last_chunk_len(chunks(old_file, default_chunk_size(old_file.len()))),
            weak_hash,
            strong_hash,
        ),
    ensures
        scan_is_true(
            new_file,
            signature_of(old_file, weak_hash, strong_hash),
            weak_hash,
            strong_hash,
            chunks(old_file, default_chunk_size(old_file.len())),
            0,
            0,
        ),
        replay(
            delta_of(
                new_file,
                signature_of(old_file, weak_hash, strong_hash),
                weak_hash,
                strong_hash,
            ),
            chunks(old_file, default_chunk_size(old_file.len())),
        ) == new_file,
{
    lemma_scan_is_true_from(
        new_file,
        chunks(old_file, default_chunk_size(old_file.len())),
        default_chunk_size(old_file.len()),
        last_chunk_len(chunks(old_file, default_chunk_size(old_file.len()))),
        weak_hash,
        strong_hash,
        0,
        0,
    );
    lemma_reconstruction(old_file, new_file, weak_hash, strong_hash);
}

/// Self-match: the delta of a file against its own signature is the matches
/// of its chunks, in order, and holds no literal bytes, provided that no two
/// chunks of the file have both the same checksum and the same digest. (Of
/// two such chunks the table finds the first in place of the second.)
pub proof fn lemma_self_match<W: WeakHash, S: StrongHash>(
    file: Seq<u8>,
    weak_hash: W,
    strong_hash: S,
)
    requires
        chunk_count(file.len(), default_chunk_size(file.len())) <= u32::MAX,
        chunks_differ(chunks(file, default_chunk_size(file.len())), weak_hash, strong_hash),
    ensures
        delta_of(file, signature_of(file, weak_hash, strong_hash), weak_hash, strong_hash)
            == all_matches(chunk_count(file.len(), default_chunk_size(file.len()))),
{
    lemma_self_match_from(file, default_chunk_size(file.len()), weak_hash, strong_hash, 0);
    assert(Seq::new(
        chunk_count(file.len(), default_chunk_size(file.len())),
        |j: int| ChunkDeltaView::Match((0 + j + 1) as u32),
    ) =~= all_matches(chunk_count(file.len(), default_chunk_size(file.len()))));
}

/// The delta of an empty new file is empty, whatever the signature.
pub proof fn lemma_empty_delta<W: WeakHash, S: StrongHash>(
    signature: SignatureView,
    weak_hash: W,
    strong_hash: S,
)
    ensures
        delta_of(Seq::<u8>::empty(), signature, weak_hash, strong_hash) == Seq::<
            ChunkDeltaView,
        >::empty(),
{
}

/// The operations that the scan gives are coalesced.
pub proof fn lemma_delta_is_coalesced<W: WeakHash, S: StrongHash>(
    data: Seq<u8>,
    signature: SignatureView,
    weak_hash: W,
    strong_hash: S,
    start: int,
    position: int,
)
    requires
        0 <= start <= position <= data.len(),
    ensures
        is_coalesced(delta_from(data, signature, weak_hash, strong_hash, start, position)),
    decreases data.len() - position,
{
    let chunk_size = signature.chunk_size as int;
    let end = data.len() as int;
    let left = end - position;
    let delta = delta_from(data, signature, weak_hash, strong_hash, start, position);
    if chunk_size > 0 && left >= chunk_size {
        let window = data.subrange(position, position + chunk_size);
        match window_match(signature, weak_hash, strong_hash, window) {
            Some(matched) => {
                let settled = literal_run(data, start, position).push(matched);
                let behind = delta_from(
                    data,
                    signature,
                    weak_hash,
                    strong_hash,
                    position + chunk_size,
                    position + chunk_size,
                );
                lemma_delta_is_coalesced(
                    data,
                    signature,
                    weak_hash,
                    strong_hash,
                    position + chunk_size,
                    position + chunk_size,
                );
                assert(matched is Match);
                assert forall|i: int| 0 <= i < delta.len() implies (
                #[trigger] delta[i] matches ChunkDeltaView::Diff(bytes) ==> bytes.len() >= 1 && (i
                    + 1 < delta.len() ==> delta[i + 1] is Match)) by {
                    if i < settled.len() {
                        assert(delta[i] == settled[i]);
                        if i + 1 < settled.len() {
                            assert(delta[i + 1] == settled[i + 1]);
                        }
                    } else {
                        assert(delta[i] == behind[i - settled.len()]);
                        if i + 1 < delta.len() {
                            assert(delta[i + 1] == behind[i + 1 - settled.len()]);
                        }
                    }
                }
            },
            None => {
                lemma_delta_is_coalesced(
                    data,
                    signature,
                    weak_hash,
                    strong_hash,
                    start,
                    position + 1,
                );
            },
        }
    }
}

/// Where every match of the scan is true, the operations from an open
/// literal run on stand for the bytes of the new file from the start of that
/// run on.
pub proof fn lemma_replay_from<W: WeakHash, S: StrongHash>(
    data: Seq<u8>,
    signature: SignatureView,
    weak_hash: W,
    strong_hash: S,
    old_chunks: Seq<Seq<u8>>,
    start: int,
    position: int,
)
    requires
        signature.chunk_size > 0,
        0 <= start <= position <= data.len(),
        scan_is_true(data, signature, weak_hash, strong_hash, old_chunks, start, position),
    ensures
        replay(
            delta_from(data, signature, weak_hash, strong_hash, start, position),
            old_chunks,
        ) == data.subrange(start, data.len() as int),
    decreases data.len() - position,
{
    let chunk_size = signature.chunk_size as int;
    let end = data.len() as int;
    let left = end - position;
    let delta = delta_from(data, signature, weak_hash, strong_hash, start, position);
    if left >= chunk_size {
        let window = data.subrange(position, position + chunk_size);
        match window_match(signature, weak_hash, strong_hash, window) {
            Some(matched) => {
                let behind = delta_from(
                    data,
                    signature,
                    weak_hash,
                    strong_hash,
                    position + chunk_size,
                    position + chunk_size,
                );
                lemma_replay_from(
                    data,
                    signature,
                    weak_hash,
                    strong_hash,
                    old_chunks,
                    position + chunk_size,
                    position + chunk_size,
                );
                lemma_replay_run_and_match(data, old_chunks, start, position, matched, window);
                lemma_replay_concat(
                    literal_run(data, start, position).push(matched),
                    behind,
                    old_chunks,
                );
                assert(data.subrange(start, position + chunk_size) + data.subrange(
                    position + chunk_size,
                    end,
                ) =~= data.subrange(start, end));
            },
            None => {
                lemma_replay_from(
                    data,
                    signature,
                    weak_hash,
                    strong_hash,
                    old_chunks,
                    start,
                    position + 1,
                );
            },
        }
    } else if left == 0 && start >= position {
        assert(data.subrange(start, end) =~= Seq::<u8>::empty());
    } else {
        let window = data.subrange(position, end);
        let matched = if left == signature.last_chunk_size {
            window_match(signature, weak_hash, strong_hash, window)
        } else {
            None
        };
        match matched {
            Some(matched) => {
                lemma_replay_run_and_match(data, old_chunks, start, position, matched, window);
            },
            None => {
                lemma_replay_run(data, old_chunks, start, end);
            },
        }
    }
}

/// Where the two hashes tell the chunks apart from the windows of `data`,
/// every match that the scan of `data` makes against the table of the chunks
/// is true.
pub proof fn lemma_scan_is_true_from<W: WeakHash, S: StrongHash>(
    data: Seq<u8>,
    old_chunks: Seq<Seq<u8>>,
    chunk_size: nat,
    last_chunk_size: nat,
    weak_hash: W,
    strong_hash: S,
    start: int,
    position: int,
)
    requires
        old_chunks.len() <= u32::MAX,
        0 <= start <= position <= data.len(),
        hashes_tell_apart(old_chunks, data, chunk_size, last_chunk_size, weak_hash, strong_hash),
    ensures
        scan_is_true(
            data,
            SignatureView {
                chunk_table: table_of(old_chunks, weak_hash, strong_hash),
                chunk_size,
                last_chunk_size,
            },
            weak_hash,
            strong_hash,
            old_chunks,
            start,
            position,
        ),
    decreases data.len() - position,
{
    let signature = SignatureView {
        chunk_table: table_of(old_chunks, weak_hash, strong_hash),
        chunk_size,
        last_chunk_size,
    };
    let left = data.len() - position;
    if chunk_size > 0 {
        if left >= chunk_size {
            let window = data.subrange(position, position + chunk_size);
            lemma_match_is_true(
                data,
                old_chunks,
                chunk_size,
                last_chunk_size,
                weak_hash,
                strong_hash,
                position,
                position + chunk_size,
            );
            if window_match(signature, weak_hash, strong_hash, window) is Some {
                lemma_scan_is_true_from(
                    data,
                    old_chunks,
                    chunk_size,
                    last_chunk_size,
                    weak_hash,
                    strong_hash,
                    position + chunk_size,
                    position + chunk_size,
                );
            } else {
                lemma_scan_is_true_from(
                    data,
                    old_chunks,
                    chunk_size,
                    last_chunk_size,
                    weak_hash,
                    strong_hash,
                    start,
                    position + 1,
                );
            }
        } else if left == last_chunk_size {
            lemma_match_is_true(
                data,
                old_chunks,
                chunk_size,
                last_chunk_size,
                weak_hash,
                strong_hash,
                position,
                data.len() as int,
            );
        }
    }
}

/// Where the two hashes tell the chunks apart from the windows of `data`, a
/// window that the table of the chunks matches is the chunk that it names.
proof fn lemma_match_is_true<W: WeakHash, S: StrongHash>(
    data: Seq<u8>,
    old_chunks: Seq<Seq<u8>>,
    chunk_size: nat,
    last_chunk_size: nat,
    weak_hash: W,
    strong_hash: S,
    from: int,
    to: int,
)
    requires
        old_chunks.len() <= u32::MAX,
        is_window(data, chunk_size, last_chunk_size, from, to),
        hashes_tell_apart(old_chunks, data, chunk_size, last_chunk_size, weak_hash, strong_hash),
    ensures
        window_match(
            SignatureView {
                chunk_table: table_of(old_chunks, weak_hash, strong_hash),
                chunk_size,
                last_chunk_size,
            },
            weak_hash,
            strong_hash,
            data.subrange(from, to),
        ) matches Some(matched) ==> is_true_match(matched, data.subrange(from, to), old_chunks),
{
    let window = data.subrange(from, to);
    lemma_table_finds_first(old_chunks, weak_hash, strong_hash, window);
    let found = super::chunk::table_lookup(
        table_of(old_chunks, weak_hash, strong_hash),
        weak_hash.spec_checksum(window),
        strong_hash.spec_digest(window),
    );
    if let Some(index) = found {
        assert(same_hashes(weak_hash, strong_hash, old_chunks[index - 1], window));
    }
}

/// Replaying one delta after another gives the bytes of the one followed by
/// the bytes of the other.
pub proof fn lemma_replay_concat(
    first: Seq<ChunkDeltaView>,
    second: Seq<ChunkDeltaView>,
    old_chunks: Seq<Seq<u8>>,
)
    ensures
        replay(first + second, old_chunks) == replay(first, old_chunks) + replay(
            second,
            old_chunks,
        ),
    decreases first.len(),
{
    if first.len() == 0 {
        assert(first + second =~= second);
        assert(replay(first, old_chunks) + replay(second, old_chunks) =~= replay(
            second,
            old_chunks,
        ));
    } else {
        assert((first + second).drop_first() =~= first.drop_first() + second);
        lemma_replay_concat(first.drop_first(), second, old_chunks);
        assert(replay(first + second, old_chunks) =~= replay(first, old_chunks) + replay(
            second,
            old_chunks,
        ));
    }
}

/// A literal run stands for its bytes.
proof fn lemma_replay_run(data: Seq<u8>, old_chunks: Seq<Seq<u8>>, start: int, end: int)
    requires
        0 <= start <= end <= data.len(),
    ensures
        replay(literal_run(data, start, end), old_chunks) == data.subrange(start, end),
{
    let run = literal_run(data, start, end);
    if start < end {
        assert(run.drop_first() =~= Seq::<ChunkDeltaView>::empty());
        assert(replay(run.drop_first(), old_chunks) =~= Seq::<u8>::empty());
        assert(replay(run, old_chunks) =~= data.subrange(start, end));
    } else {
        assert(data.subrange(start, end) =~= Seq::<u8>::empty());
    }
}

/// A literal run and a true match behind it stand for the bytes of the run
/// and of the window.
proof fn lemma_replay_run_and_match(
    data: Seq<u8>,
    old_chunks: Seq<Seq<u8>>,
    start: int,
    position: int,
    matched: ChunkDeltaView,
    window: Seq<u8>,
)
    requires
        0 <= start <= position,
        position + window.len() <= data.len(),
        window == data.subrange(position, position + window.len()),
        matched matches ChunkDeltaView::Match(index) && 1 <= index <= old_chunks.len()
            && old_chunks[index - 1] == window,
    ensures
        replay(literal_run(data, start, position).push(matched), old_chunks) == data.subrange(
            start,
            position + window.len(),
        ),
{
    let run = literal_run(data, start, position);
    let last = seq![matched];
    assert(run.push(matched) =~= run + last);
    lemma_replay_concat(run, last, old_chunks);
    lemma_replay_run(data, old_chunks, start, position);
    assert(last.drop_first() =~= Seq::<ChunkDeltaView>::empty());
    assert(replay(last.drop_first(), old_chunks) =~= Seq::<u8>::empty());
    assert(replay(last, old_chunks) =~= window);
    assert(data.subrange(start, position) + window =~= data.subrange(
        start,
        position + window.len(),
    ));
}

/// From the start of the chunk at position `done` (from 0) on, the delta of a
/// file against its own signature is the matches of the chunks that are left.
proof fn lemma_self_match_from<W: WeakHash, S: StrongHash>(
    file: Seq<u8>,
    chunk_size: nat,
    weak_hash: W,
    strong_hash: S,
    done: nat,
)
    requires
        chunk_size > 0,
        chunk_count(file.len(), chunk_size) <= u32::MAX,
        chunks_differ(chunks(file, chunk_size), weak_hash, strong_hash),
        done * chunk_size <= file.len(),
    ensures
        done <= chunk_count(file.len(), chunk_size),
        delta_from(
            file,
            signature_with(file, chunk_size, weak_hash, strong_hash),
            weak_hash,
            strong_hash,
            (done * chunk_size) as int,
            (done * chunk_size) as int,
        ) == Seq::new(
            (chunk_count(file.len(), chunk_size) - done) as nat,
            |j: int| ChunkDeltaView::Match((done + j + 1) as u32),
        ),
    decreases file.len() - done * chunk_size,
{
    let count = chunk_count(file.len(), chunk_size);
    let signature = signature_with(file, chunk_size, weak_hash, strong_hash);
    let old_chunks = chunks(file, chunk_size);
    let position = (done * chunk_size) as int;
    let left = file.len() - position;
    let expected = Seq::new(
        (count - done) as nat,
        |j: int| ChunkDeltaView::Match((done + j + 1) as u32),
    );
    let delta = delta_from(file, signature, weak_hash, strong_hash, position, position);
    vstd::arithmetic::div_mod::lemma_fundamental_div_mod(file.len() as int, chunk_size as int);
    vstd::arithmetic::div_mod::lemma_mod_bound(file.len() as int, chunk_size as int);
    if left == 0 {
        vstd::arithmetic::div_mod::lemma_fundamental_div_mod_converse(
            file.len() as int,
            chunk_size as int,
            done as int,
            0,
        );
        assert(delta =~= expected);
    } else {
        let window = if left >= chunk_size {
            file.subrange(position, position + chunk_size)
        } else {
            file.subrange(position, file.len() as int)
        };
        // The chunk in hand is a chunk of the file, and the last where it is short.
        assert(done < count && window == old_chunks[done as int] && (left < chunk_size ==> done
            + 1 == count)) by {
            if left >= chunk_size {
                assert((done + 1) * chunk_size == done * chunk_size + chunk_size)
                    by (nonlinear_arith);
                assert(done + 1 <= file.len() / chunk_size) by (nonlinear_arith)
                    requires
                        chunk_size > 0,
                        (done + 1) * chunk_size <= file.len(),
                ;
            } else {
                vstd::arithmetic::div_mod::lemma_fundamental_div_mod_converse(
                    file.len() as int,
                    chunk_size as int,
                    done as int,
                    left,
                );
            }
        }
        // The table finds it in its own place.
        lemma_table_finds_first(old_chunks, weak_hash, strong_hash, window);
        let found = super::chunk::table_lookup(
            signature.chunk_table,
            weak_hash.spec_checksum(window),
            strong_hash.spec_digest(window),
        );
        assert(found == Some((done + 1) as u32)) by {
            assert(same_hashes(weak_hash, strong_hash, old_chunks[done as int], window));
            match found {
                Some(index) => {
                    if index - 1 < done {
                        assert(!same_hashes(
                            weak_hash,
                            strong_hash,
                            old_chunks[index - 1],
                            old_chunks[done as int],
                        ));
                    }
                },
                None => {},
            }
        }
        let matched = ChunkDeltaView::Match((done + 1) as u32);
        assert(window_match(signature, weak_hash, strong_hash, window) == Some(matched));
        assert(literal_run(file, position, position) =~= Seq::<ChunkDeltaView>::empty());
        if left >= chunk_size {
            assert((done + 1) * chunk_size == done * chunk_size + chunk_size)
                by (nonlinear_arith);
            lemma_self_match_from(file, chunk_size, weak_hash, strong_hash, done + 1);
            let behind = delta_from(
                file,
                signature,
                weak_hash,
                strong_hash,
                position + chunk_size,
                position + chunk_size,
            );
            assert(delta == Seq::<ChunkDeltaView>::empty().push(matched) + behind);
            assert(Seq::<ChunkDeltaView>::empty().push(matched) + behind =~= expected);
        } else {
            assert(left == signature.last_chunk_size);
            assert(delta == Seq::<ChunkDeltaView>::empty().push(matched));
            assert(Seq::<ChunkDeltaView>::empty().push(matched) =~= expected);
        }
    }
}

} // verus!
