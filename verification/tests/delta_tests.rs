use rolling_hash_diff::rdiff::constants::BLOCK_SIZE;
use rolling_hash_diff::rdiff::delta::{ChunkDelta, Delta};
use rolling_hash_diff::rdiff::hash::strong::rdiff_sha1::RdiffSha1;
use rolling_hash_diff::rdiff::hash::weak::rdiff_addler::RdiffAddler;
use rolling_hash_diff::rdiff::signature::Signature;

/// The old file of the scenarios: three chunks of `a`, `b` and `c`, the last
/// one byte short of the block cap.
fn old_file() -> Vec<u8> {
    let mut input_data: Vec<u8> = Vec::new();
    for _ in 0..BLOCK_SIZE {
        input_data.push(b'a');
    }
    for _ in 0..BLOCK_SIZE {
        input_data.push(b'b');
    }
    for _ in 0..BLOCK_SIZE - 1 {
        input_data.push(b'c');
    }
    input_data
}

fn old_signature() -> Signature {
    Signature::create_signature(&old_file(), RdiffAddler::new_ptr(), RdiffSha1::new_ptr())
}

#[test]
fn test_delta_generate_delta_equals_files_case1() {
    let new_file = old_file();
    let delta = Delta::generate_delta(
        &new_file,
        old_signature(),
        RdiffAddler::new_ptr(),
        RdiffSha1::new_ptr(),
    )
    .unwrap();

    let mut chunk_delta_list: Vec<ChunkDelta> = Vec::new();
    chunk_delta_list.push(ChunkDelta::Match(1));
    chunk_delta_list.push(ChunkDelta::Match(2));
    chunk_delta_list.push(ChunkDelta::Match(3));
    let expected_delta = Delta::new(chunk_delta_list);

    assert_eq!(delta, expected_delta);
}

#[test]
fn test_delta_generate_delta_chunk_removed_case2() {
    let mut new_file: Vec<u8> = Vec::new();
    for _ in 0..BLOCK_SIZE {
        new_file.push(b'a');
    }
    for _ in 0..BLOCK_SIZE - 1 {
        new_file.push(b'c');
    }
    let delta = Delta::generate_delta(
        &new_file,
        old_signature(),
        RdiffAddler::new_ptr(),
        RdiffSha1::new_ptr(),
    )
    .unwrap();

    let mut chunk_delta_list: Vec<ChunkDelta> = Vec::new();
    chunk_delta_list.push(ChunkDelta::Match(1));
    chunk_delta_list.push(ChunkDelta::Match(3));
    let expected_delta = Delta::new(chunk_delta_list);

    assert_eq!(delta, expected_delta);
}

#[test]
fn test_delta_generate_delta_chunk_changed_case3() {
    let mut new_file: Vec<u8> = Vec::new();
    for _ in 0..BLOCK_SIZE {
        new_file.push(b'd');
    }
    for _ in 0..BLOCK_SIZE {
        new_file.push(b'b');
    }
    for _ in 0..BLOCK_SIZE - 1 {
        new_file.push(b'c');
    }
    let delta = Delta::generate_delta(
        &new_file,
        old_signature(),
        RdiffAddler::new_ptr(),
        RdiffSha1::new_ptr(),
    )
    .unwrap();

    let mut chunk_delta_list: Vec<ChunkDelta> = Vec::new();
    let mut differences: Vec<u8> = Vec::new();
    for _ in 0..BLOCK_SIZE {
        differences.push(b'd');
    }
    chunk_delta_list.push(ChunkDelta::Diff(differences));
    chunk_delta_list.push(ChunkDelta::Match(2));
    chunk_delta_list.push(ChunkDelta::Match(3));
    let expected_delta = Delta::new(chunk_delta_list);

    assert_eq!(delta, expected_delta);
}

#[test]
fn test_delta_generate_delta_chunk_shifted_case4() {
    let shifted_size = 20;
    let mut new_file: Vec<u8> = Vec::new();
    for _ in 0..shifted_size {
        new_file.push(b'd');
    }
    new_file.extend_from_slice(&old_file());
    let delta = Delta::generate_delta(
        &new_file,
        old_signature(),
        RdiffAddler::new_ptr(),
        RdiffSha1::new_ptr(),
    )
    .unwrap();

    let mut chunk_delta_list: Vec<ChunkDelta> = Vec::new();
    let mut differences: Vec<u8> = Vec::new();
    for _ in 0..shifted_size {
        differences.push(b'd');
    }
    chunk_delta_list.push(ChunkDelta::Diff(differences));
    chunk_delta_list.push(ChunkDelta::Match(1));
    chunk_delta_list.push(ChunkDelta::Match(2));
    chunk_delta_list.push(ChunkDelta::Match(3));
    let expected_delta = Delta::new(chunk_delta_list);

    assert_eq!(delta, expected_delta);
}

#[test]
fn test_delta_generate_delta_addition_between_chunks_case5() {
    let addition_size = 30;
    let mut new_file: Vec<u8> = Vec::new();
    for _ in 0..BLOCK_SIZE {
        new_file.push(b'a');
    }
    for _ in 0..addition_size {
        new_file.push(b'd');
    }
    for _ in 0..BLOCK_SIZE {
        new_file.push(b'b');
    }
    for _ in 0..BLOCK_SIZE - 1 {
        new_file.push(b'c');
    }
    let delta = Delta::generate_delta(
        &new_file,
        old_signature(),
        RdiffAddler::new_ptr(),
        RdiffSha1::new_ptr(),
    )
    .unwrap();

    let mut chunk_delta_list: Vec<ChunkDelta> = Vec::new();
    let mut differences: Vec<u8> = Vec::new();
    for _ in 0..addition_size {
        differences.push(b'd');
    }
    chunk_delta_list.push(ChunkDelta::Match(1));
    chunk_delta_list.push(ChunkDelta::Diff(differences));
    chunk_delta_list.push(ChunkDelta::Match(2));
    chunk_delta_list.push(ChunkDelta::Match(3));
    let expected_delta = Delta::new(chunk_delta_list);

    assert_eq!(delta, expected_delta);
}
