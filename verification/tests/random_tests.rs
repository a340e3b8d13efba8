use std::collections::HashMap;

use rolling_hash_diff::rdiff::chunk::{RdiffChunkDigest, RdiffChunkTable};
use rolling_hash_diff::rdiff::delta::{ChunkDelta, Delta, DeltaGenerator};
use rolling_hash_diff::rdiff::hash::strong::rdiff_sha1::RdiffSha1;
use rolling_hash_diff::rdiff::hash::weak::rdiff_addler::RdiffAddler;
use rolling_hash_diff::rdiff::signature::{Signature, SignatureBuilder};

/// A small generator of numbers that gives the same numbers on every run.
struct Numbers(u64);

impl Numbers {
    fn next(&mut self, below: usize) -> usize {
        self.0 = self.0.wrapping_mul(6364136223846793005).wrapping_add(1442695040888963407);
        ((self.0 >> 33) as usize) % below
    }

    fn bytes(&mut self, len: usize, letters: usize) -> Vec<u8> {
        (0..len).map(|_| b'a' + self.next(letters) as u8).collect()
    }
}

/// A new file made of pieces of the old file and of other bytes.
fn edit(numbers: &mut Numbers, old_file: &[u8]) -> Vec<u8> {
    let mut new_file = Vec::new();
    for _ in 0..numbers.next(6) {
        if numbers.next(3) == 0 || old_file.is_empty() {
            let len = numbers.next(90);
            new_file.extend_from_slice(&numbers.bytes(len, 3));
        } else {
            let from = numbers.next(old_file.len());
            let to = from + numbers.next(old_file.len() - from + 1);
            new_file.extend_from_slice(&old_file[from..to]);
        }
    }
    new_file
}

fn written_by(delta: &Delta, old_file: &[u8], chunk_size: usize) -> Vec<u8> {
    let old_chunks: Vec<&[u8]> = old_file.chunks(chunk_size).collect();
    let mut new_file = Vec::new();
    for chunk_delta in delta.get_chunk_delta_list() {
        match chunk_delta {
            ChunkDelta::Match(index) => new_file.extend_from_slice(old_chunks[*index as usize - 1]),
            ChunkDelta::Diff(bytes) => new_file.extend_from_slice(bytes),
        }
    }
    new_file
}

#[test]
fn test_deltas_of_many_files_replay_to_the_new_file() {
    let mut numbers = Numbers(7);
    for round in 0..300 {
        let old_len = if round % 3 == 0 { numbers.next(40) } else { numbers.next(400) };
        let letters = 1 + numbers.next(3);
        let old_file = numbers.bytes(old_len, letters);
        let new_file = edit(&mut numbers, &old_file);

        let signature =
            Signature::create_signature(&old_file, RdiffAddler::new(), RdiffSha1::new());
        let chunk_size = signature.get_chunk_size();
        let delta =
            Delta::generate_delta(&new_file, signature, RdiffAddler::new(), RdiffSha1::new())
                .unwrap();
        assert_eq!(written_by(&delta, &old_file, chunk_size), new_file);

        // The operations account for every byte of the new file.
        let old_chunks: Vec<&[u8]> = old_file.chunks(chunk_size).collect();
        let accounted: usize = delta
            .get_chunk_delta_list()
            .iter()
            .map(|chunk_delta| match chunk_delta {
                ChunkDelta::Match(index) => old_chunks[*index as usize - 1].len(),
                ChunkDelta::Diff(bytes) => bytes.len(),
            })
            .sum();
        assert_eq!(accounted, new_file.len());
    }
}

#[test]
fn test_blocks_of_any_size_give_the_same_signature_and_delta() {
    let mut numbers = Numbers(11);
    for _ in 0..100 {
        let old_len = numbers.next(500);
        let old_file = numbers.bytes(old_len, 2);
        let new_file = edit(&mut numbers, &old_file);
        let signature =
            Signature::create_signature(&old_file, RdiffAddler::new(), RdiffSha1::new());

        let mut builder =
            SignatureBuilder::new(old_file.len(), RdiffAddler::new(), RdiffSha1::new());
        let mut rest = &old_file[..];
        while !rest.is_empty() {
            let len = 1 + numbers.next(rest.len().min(150));
            assert!(builder.has_room(len));
            builder.feed(&rest[..len]);
            rest = &rest[len..];
        }
        let streamed = builder.finish();
        assert_eq!(streamed, signature);

        let delta =
            Delta::generate_delta(&new_file, signature, RdiffAddler::new(), RdiffSha1::new())
                .unwrap();
        let mut generator =
            DeltaGenerator::new(streamed, new_file.len(), RdiffAddler::new(), RdiffSha1::new())
                .unwrap();
        let mut rest = &new_file[..];
        while !rest.is_empty() {
            let len = 1 + numbers.next(rest.len().min(150));
            generator.feed(&rest[..len]);
            rest = &rest[len..];
        }
        assert_eq!(generator.finish().unwrap(), delta);
    }
}

/// A scan of a whole file in memory, by one growing and shrinking buffer
/// that is filled chunk by chunk: what the generator has to agree with.
fn scan_in_memory(new_file: &[u8], signature: &Signature) -> Vec<ChunkDelta> {
    let weak = RdiffAddler::new();
    let strong = RdiffSha1::new();
    let test = |window: &[u8]| Delta::get_chunk_delta_match(signature, &weak, &strong, window);
    let chunk_size = signature.get_chunk_size();
    let last_chunk_size = signature.get_last_chunk_size();
    let mut chunks = new_file.chunks(chunk_size);
    let mut operations = Vec::new();
    let mut buffer: Vec<u8> = Vec::new();
    let mut processed = 0;
    'aligned: loop {
        if let Some(chunk) = chunks.next() {
            buffer.extend_from_slice(chunk);
        }
        if buffer.is_empty() {
            break;
        }
        if buffer.len() < chunk_size {
            let matched = if buffer.len() == last_chunk_size { test(&buffer) } else { None };
            processed += buffer.len();
            operations.push(matched.unwrap_or(ChunkDelta::Diff(buffer)));
            break;
        }
        if let Some(matched) = test(&buffer[..chunk_size]) {
            operations.push(matched);
            processed += chunk_size;
            buffer.drain(..chunk_size);
            continue;
        }
        let mut differences: Vec<u8> = Vec::new();
        loop {
            differences.push(buffer.remove(0));
            if buffer.len() < chunk_size
                && processed + differences.len() + buffer.len() < new_file.len()
            {
                if let Some(chunk) = chunks.next() {
                    buffer.extend_from_slice(chunk);
                }
            }
            if buffer.len() >= chunk_size {
                if let Some(matched) = test(&buffer[..chunk_size]) {
                    processed += differences.len() + chunk_size;
                    operations.push(ChunkDelta::Diff(differences));
                    operations.push(matched);
                    buffer.drain(..chunk_size);
                    continue 'aligned;
                }
            } else {
                let matched = if buffer.len() == last_chunk_size { test(&buffer) } else { None };
                processed += differences.len() + buffer.len();
                match matched {
                    Some(matched) => {
                        operations.push(ChunkDelta::Diff(differences));
                        operations.push(matched);
                    }
                    None => {
                        differences.append(&mut buffer);
                        operations.push(ChunkDelta::Diff(differences));
                    }
                }
                break 'aligned;
            }
        }
    }
    assert_eq!(processed, new_file.len());
    operations
}

#[test]
fn test_generator_agrees_with_a_scan_in_memory() {
    let mut numbers = Numbers(23);
    for round in 0..400 {
        let old_len = if round % 4 == 0 { numbers.next(12) } else { numbers.next(300) };
        let letters = 1 + numbers.next(3);
        let old_file = numbers.bytes(old_len, letters);
        let new_file = edit(&mut numbers, &old_file);
        let built = Signature::create_signature(&old_file, RdiffAddler::new(), RdiffSha1::new());
        // Now and then the signature names another chunk size or another last chunk.
        let chunk_size = if round % 5 == 0 { 1 + numbers.next(9) } else { built.get_chunk_size() };
        let last_chunk_size =
            if round % 7 == 0 { numbers.next(chunk_size + 1) } else { built.get_last_chunk_size() };
        let mut chunk_table: HashMap<u32, Vec<RdiffChunkDigest>> = HashMap::new();
        for (checksum, bucket) in &built.get_rdiff_chunk_table().chunk_table {
            let entries = bucket
                .iter()
                .map(|entry| RdiffChunkDigest { index: entry.index, digest: entry.digest.clone() })
                .collect();
            chunk_table.insert(*checksum, entries);
        }
        let signature = Signature::new(RdiffChunkTable { chunk_table }, chunk_size, last_chunk_size);
        let expected = scan_in_memory(&new_file, &signature);
        let delta =
            Delta::generate_delta(&new_file, signature, RdiffAddler::new(), RdiffSha1::new())
                .unwrap();
        assert_eq!(delta, Delta::new(expected));
    }
}
