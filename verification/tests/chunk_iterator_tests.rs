use rolling_hash_diff::rdiff::chunk::iterator::{BufferedRdiffChunkIterator, RdiffChunkIterator};
use rolling_hash_diff::rdiff::constants::BLOCK_SIZE;

/// A source of three bytes.
fn small_source() -> Vec<u8> {
    b"abc".to_vec()
}

/// A source that is longer than the block cap.
fn large_source() -> Vec<u8> {
    (0..BLOCK_SIZE + 37).map(|i| (i % 251) as u8).collect()
}

fn text_source() -> Vec<u8> {
    b"The quick brown fox jumps over the lazy dog.\n".to_vec()
}

fn poem_source() -> Vec<u8> {
    let mut poem = Vec::new();
    for _ in 0..6 {
        poem.extend_from_slice(b"Tyger Tyger, burning bright, in the forests of the night;\n");
    }
    poem
}

/// Runs a source through a chunker as a reader would: block by block, each
/// of at most the block cap, and then the end of the source.
fn drive(iterator: &mut BufferedRdiffChunkIterator, source: &[u8]) -> Vec<Vec<u8>> {
    let mut chunks = Vec::new();
    let mut blocks = source.chunks(BLOCK_SIZE);
    loop {
        match iterator.next_chunk() {
            Some(rdiff_chunk) => chunks.push(rdiff_chunk),
            None => match blocks.next() {
                Some(block) => iterator.push_block(block),
                None => {
                    if iterator.exhausted {
                        break;
                    }
                    iterator.end_of_input();
                }
            },
        }
    }
    chunks
}

#[test]
fn test_rdiff_chunk_iterator_buffered_new_case1() {
    let source = small_source();
    let iterator = BufferedRdiffChunkIterator::new(source.len());
    assert!(iterator.buffer.is_empty());
    assert!(!iterator.exhausted);
}

#[test]
fn test_rdiff_chunk_iterator_buffered_chunk_size_case1() {
    let source = small_source();
    assert_eq!(source.len(), 3);
    let iterator = BufferedRdiffChunkIterator::new(source.len());
    assert_eq!(iterator.get_chunk_size(), 2);
}

#[test]
fn test_rdiff_chunk_iterator_buffered_chunk_size_case2() {
    let source = large_source();
    assert!(source.len() > BLOCK_SIZE);
    let iterator = BufferedRdiffChunkIterator::new(source.len());
    assert_eq!(iterator.get_chunk_size(), BLOCK_SIZE);
}

#[test]
fn test_rdiff_chunk_iterator_buffered_get_rdiff_chunk_case1() {
    let source = small_source();
    let mut iterator = BufferedRdiffChunkIterator::new(source.len());
    let chunks = drive(&mut iterator, &source);
    let number_of_chunks = chunks.len();
    println!("number_of_chunks {}", number_of_chunks);
    assert!(number_of_chunks >= 2);
    assert_eq!(chunks, vec![b"ab".to_vec(), b"c".to_vec()]);
}

#[test]
fn test_rdiff_chunk_iterator_buffered_get_rdiff_chunk_case2() {
    let source = large_source();
    let mut iterator = BufferedRdiffChunkIterator::new(source.len());
    let chunks = drive(&mut iterator, &source);
    let number_of_chunks = chunks.len();
    println!("number_of_chunks {}", number_of_chunks);
    assert!(number_of_chunks >= 2);
    assert_eq!(chunks, vec![source[..BLOCK_SIZE].to_vec(), source[BLOCK_SIZE..].to_vec()]);
}

#[test]
fn test_rdiff_chunk_iterator_buffered_get_rdiff_chunk_case3() {
    let source = text_source();
    let mut iterator = BufferedRdiffChunkIterator::new(source.len());
    let chunks = drive(&mut iterator, &source);
    let number_of_chunks = chunks.len();
    println!("number_of_chunks {}", number_of_chunks);
    assert!(number_of_chunks >= 2);
    assert_eq!(chunks.concat(), source);
}

#[test]
fn test_rdiff_chunk_iterator_buffered_get_rdiff_chunk_case4() {
    let source = poem_source();
    let mut iterator = BufferedRdiffChunkIterator::new(source.len());
    let chunks = drive(&mut iterator, &source);
    let number_of_chunks = chunks.len();
    println!("number_of_chunks {}", number_of_chunks);
    assert!(number_of_chunks >= 2);
    assert_eq!(number_of_chunks, (source.len() + BLOCK_SIZE - 1) / BLOCK_SIZE);
    for rdiff_chunk in &chunks[..number_of_chunks - 1] {
        assert_eq!(rdiff_chunk.len(), BLOCK_SIZE);
    }
    assert_eq!(chunks[number_of_chunks - 1].len(), source.len() % BLOCK_SIZE);
    assert_eq!(chunks.concat(), source);
}

#[test]
fn test_rdiff_chunk_iterator_buffered_new_with_chunk_size_case1() {
    let chunk_size: usize = 16;
    let iterator = BufferedRdiffChunkIterator::new_with_chunk_size(chunk_size).unwrap();

    let buffer: Vec<u8> = Vec::new();
    let expected_iterator = BufferedRdiffChunkIterator { chunk_size, buffer, exhausted: false };
    assert_eq!(iterator, expected_iterator);
}

#[test]
fn test_rdiff_chunk_iterator_buffered_with_chunk_size_next_chunk_case1() {
    let source = small_source();
    let chunk_size: usize = 2;
    let mut iterator = BufferedRdiffChunkIterator::new_with_chunk_size(chunk_size).unwrap();
    let chunks = drive(&mut iterator, &source);
    println!("number_of_chunks {}", chunks.len());
    assert_eq!(chunks, vec![b"ab".to_vec(), b"c".to_vec()]);
}

#[test]
fn test_default_chunk_size_policy() {
    assert_eq!(BufferedRdiffChunkIterator::compute_chunk_size(0), 1);
    assert_eq!(BufferedRdiffChunkIterator::compute_chunk_size(1), 1);
    assert_eq!(BufferedRdiffChunkIterator::compute_chunk_size(2), 1);
    assert_eq!(BufferedRdiffChunkIterator::compute_chunk_size(3), 2);
    assert_eq!(BufferedRdiffChunkIterator::compute_chunk_size(4), 2);
    assert_eq!(BufferedRdiffChunkIterator::compute_chunk_size(5), 3);
    assert_eq!(BufferedRdiffChunkIterator::compute_chunk_size(63), 32);
    assert_eq!(BufferedRdiffChunkIterator::compute_chunk_size(BLOCK_SIZE), BLOCK_SIZE / 2);
    assert_eq!(BufferedRdiffChunkIterator::compute_chunk_size(BLOCK_SIZE + 1), BLOCK_SIZE);
    assert_eq!(BufferedRdiffChunkIterator::compute_chunk_size(usize::MAX), BLOCK_SIZE);
}

#[test]
fn test_default_chunk_size_rounds_as_floating_point_does() {
    for file_size in 2..=BLOCK_SIZE {
        let rounded = ((file_size as f64) / 2.0).round() as usize;
        assert_eq!(BufferedRdiffChunkIterator::compute_chunk_size(file_size), rounded);
    }
}

#[test]
fn test_chunk_size_above_block_cap_is_refused() {
    assert!(BufferedRdiffChunkIterator::validate_chunk_size(BLOCK_SIZE).is_ok());
    assert!(BufferedRdiffChunkIterator::validate_chunk_size(0).is_ok());
    let error = BufferedRdiffChunkIterator::validate_chunk_size(BLOCK_SIZE + 1).unwrap_err();
    assert_eq!(
        error.to_string(),
        "Chunk size should be less than or equal to block size"
    );
    let error = BufferedRdiffChunkIterator::new_with_chunk_size(BLOCK_SIZE + 1).unwrap_err();
    assert_eq!(
        error.to_string(),
        "Chunk size should be less than or equal to block size"
    );
    assert!(BufferedRdiffChunkIterator::new_with_chunk_size(BLOCK_SIZE).is_ok());
}

#[test]
fn test_empty_source_has_no_chunks() {
    let mut iterator = BufferedRdiffChunkIterator::new(0);
    assert_eq!(iterator.get_chunk_size(), 1);
    let chunks = drive(&mut iterator, &[]);
    assert!(chunks.is_empty());
}

#[test]
fn test_exact_multiple_has_full_last_chunk() {
    let source: Vec<u8> = (0..12).collect();
    let mut iterator = BufferedRdiffChunkIterator::new_with_chunk_size(4).unwrap();
    let chunks = drive(&mut iterator, &source);
    assert_eq!(
        chunks,
        vec![vec![0, 1, 2, 3], vec![4, 5, 6, 7], vec![8, 9, 10, 11]]
    );
}

#[test]
fn test_next_chunk_stays_none_after_the_end() {
    let mut iterator = BufferedRdiffChunkIterator::new_with_chunk_size(4).unwrap();
    iterator.push_block(&[1, 2, 3, 4, 5]);
    assert_eq!(iterator.next_chunk(), Some(vec![1, 2, 3, 4]));
    // One byte is pending: no chunk before the end of the source is known.
    assert_eq!(iterator.next_chunk(), None);
    iterator.end_of_input();
    assert_eq!(iterator.next_chunk(), Some(vec![5]));
    assert_eq!(iterator.next_chunk(), None);
    assert_eq!(iterator.next_chunk(), None);
    // A block that comes after the end is no part of the source.
    iterator.push_block(&[6, 7, 8, 9]);
    assert_eq!(iterator.next_chunk(), None);
    assert!(iterator.buffer.is_empty());
}

#[test]
fn test_short_blocks_do_not_cut_chunks_short() {
    let source: Vec<u8> = (0..10).collect();
    let mut iterator = BufferedRdiffChunkIterator::new_with_chunk_size(4).unwrap();
    let mut chunks = Vec::new();
    for block in source.chunks(3) {
        iterator.push_block(block);
        while let Some(rdiff_chunk) = iterator.next_chunk() {
            chunks.push(rdiff_chunk);
        }
    }
    iterator.end_of_input();
    while let Some(rdiff_chunk) = iterator.next_chunk() {
        chunks.push(rdiff_chunk);
    }
    assert_eq!(chunks, vec![vec![0, 1, 2, 3], vec![4, 5, 6, 7], vec![8, 9]]);
}
