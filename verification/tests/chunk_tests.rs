use std::collections::HashMap;

use rolling_hash_diff::rdiff::chunk::{RdiffChecksum, RdiffChunkDigest, RdiffChunkTable};

#[test]
fn test_rdiff_chunk_table_new_case1() {
    let rdiff_chunk_table = RdiffChunkTable::new();
    let chunk_table: HashMap<RdiffChecksum, Vec<RdiffChunkDigest>> = HashMap::new();
    let expected = RdiffChunkTable { chunk_table };
    assert_eq!(rdiff_chunk_table, expected);
}

#[test]
fn test_chunk_table_insert_keeps_the_order_of_a_bucket() {
    let mut table = RdiffChunkTable::new();
    table.insert(7, RdiffChunkDigest { index: 1, digest: vec![1, 1] });
    table.insert(9, RdiffChunkDigest { index: 2, digest: vec![2, 2] });
    table.insert(7, RdiffChunkDigest { index: 3, digest: vec![3, 3] });

    let mut chunk_table: HashMap<RdiffChecksum, Vec<RdiffChunkDigest>> = HashMap::new();
    chunk_table.insert(
        7,
        vec![
            RdiffChunkDigest { index: 1, digest: vec![1, 1] },
            RdiffChunkDigest { index: 3, digest: vec![3, 3] },
        ],
    );
    chunk_table.insert(9, vec![RdiffChunkDigest { index: 2, digest: vec![2, 2] }]);
    assert_eq!(table, RdiffChunkTable { chunk_table });
}

#[test]
fn test_chunk_table_bucket() {
    let mut table = RdiffChunkTable::new();
    assert!(table.bucket(7).is_none());
    table.insert(7, RdiffChunkDigest { index: 1, digest: vec![1, 1] });
    assert_eq!(
        table.bucket(7),
        Some(&vec![RdiffChunkDigest { index: 1, digest: vec![1, 1] }])
    );
    assert!(table.bucket(8).is_none());
}

#[test]
fn test_find_digest_takes_the_first_entry_with_the_digest() {
    let bucket = vec![
        RdiffChunkDigest { index: 4, digest: vec![1, 2, 3] },
        RdiffChunkDigest { index: 2, digest: vec![9] },
        RdiffChunkDigest { index: 7, digest: vec![9] },
        RdiffChunkDigest { index: 8, digest: vec![] },
    ];
    assert_eq!(RdiffChunkTable::find_digest(&bucket, &[1, 2, 3]), Some(4));
    assert_eq!(RdiffChunkTable::find_digest(&bucket, &[9]), Some(2));
    assert_eq!(RdiffChunkTable::find_digest(&bucket, &[]), Some(8));
    assert_eq!(RdiffChunkTable::find_digest(&bucket, &[1, 2]), None);
    assert_eq!(RdiffChunkTable::find_digest(&bucket, &[1, 2, 4]), None);
    assert_eq!(RdiffChunkTable::find_digest(&bucket, &[1, 2, 3, 0]), None);
    assert_eq!(RdiffChunkTable::find_digest(&Vec::new(), &[9]), None);
}
