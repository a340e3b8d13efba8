use std::collections::HashMap;

use rolling_hash_diff::rdiff::chunk::{RdiffChunkDigest, RdiffChunkTable};
use rolling_hash_diff::rdiff::delta::{ChunkDelta, Delta};
use rolling_hash_diff::rdiff::hash::strong::rdiff_sha1::RdiffSha1;
use rolling_hash_diff::rdiff::hash::weak::rdiff_addler::RdiffAddler;
use rolling_hash_diff::rdiff::signature::Signature;

/// The fields of a signature, as plain values.
type SignatureFields = (HashMap<u32, Vec<(u32, Vec<u8>)>>, usize, usize);

fn fields_of(signature: &Signature) -> SignatureFields {
    let chunk_table = signature
        .get_rdiff_chunk_table()
        .chunk_table
        .iter()
        .map(|(checksum, bucket)| {
            let entries =
                bucket.iter().map(|entry| (entry.index, entry.digest.clone())).collect();
            (*checksum, entries)
        })
        .collect();
    (chunk_table, signature.get_chunk_size(), signature.get_last_chunk_size())
}

fn signature_from_fields(fields: SignatureFields) -> Signature {
    let chunk_table = fields
        .0
        .into_iter()
        .map(|(checksum, bucket)| {
            let entries = bucket
                .into_iter()
                .map(|(index, digest)| RdiffChunkDigest { index, digest })
                .collect();
            (checksum, entries)
        })
        .collect();
    Signature::new(RdiffChunkTable { chunk_table }, fields.1, fields.2)
}

/// The operations of a delta, as plain values: a match is `Ok`, a literal run `Err`.
fn operations_of(delta: &Delta) -> Vec<Result<u32, Vec<u8>>> {
    delta
        .get_chunk_delta_list()
        .iter()
        .map(|chunk_delta| match chunk_delta {
            ChunkDelta::Match(index) => Ok(*index),
            ChunkDelta::Diff(bytes) => Err(bytes.clone()),
        })
        .collect()
}

fn delta_from_operations(operations: Vec<Result<u32, Vec<u8>>>) -> Delta {
    Delta::new(
        operations
            .into_iter()
            .map(|operation| match operation {
                Ok(index) => ChunkDelta::Match(index),
                Err(bytes) => ChunkDelta::Diff(bytes),
            })
            .collect(),
    )
}

#[test]
fn test_signature_survives_storing_and_loading() {
    let old_file: Vec<u8> = (0..1000usize).map(|i| (i % 7) as u8).collect();
    for file in [&old_file[..], &old_file[..3], &old_file[..0]] {
        let signature = Signature::create_signature(file, RdiffAddler::new(), RdiffSha1::new());
        let stored = bincode::serialize(&fields_of(&signature)).unwrap();
        let loaded: SignatureFields = bincode::deserialize(&stored).unwrap();
        assert_eq!(signature_from_fields(loaded), signature);
    }
}

#[test]
fn test_delta_survives_storing_and_loading() {
    let old_file: Vec<u8> = (0..300usize).map(|i| (i / 3) as u8).collect();
    let mut new_file = b"head".to_vec();
    new_file.extend_from_slice(&old_file);
    new_file.truncate(250);
    let signature = Signature::create_signature(&old_file, RdiffAddler::new(), RdiffSha1::new());
    let delta =
        Delta::generate_delta(&new_file, signature, RdiffAddler::new(), RdiffSha1::new()).unwrap();
    let stored = bincode::serialize(&operations_of(&delta)).unwrap();
    let loaded: Vec<Result<u32, Vec<u8>>> = bincode::deserialize(&stored).unwrap();
    assert_eq!(delta_from_operations(loaded), delta);
    assert!(delta.get_chunk_delta_list().len() >= 2);

    let empty = Delta::new(Vec::new());
    let stored = bincode::serialize(&operations_of(&empty)).unwrap();
    let loaded: Vec<Result<u32, Vec<u8>>> = bincode::deserialize(&stored).unwrap();
    assert_eq!(delta_from_operations(loaded), empty);
}
