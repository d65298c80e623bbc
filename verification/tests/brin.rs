//! Tests of the block range index.

use findb::index::Index;

#[test]
fn first_and_last_with_overlap() {
    // Contiguous runs of blocks may share a value at their boundaries.
    let idx = Index::new(vec![(1, 5), (5, 9), (9, 9), (9, 12), (14, 20)]);
    assert_eq!(idx.first_index_of(5), 0);
    assert_eq!(idx.last_index_of(5), 1);
    assert_eq!(idx.first_index_of(9), 1);
    assert_eq!(idx.last_index_of(9), 3);
    assert_eq!(idx.first_index_of(2), 0);
    assert_eq!(idx.last_index_of(2), 0);
    assert_eq!(idx.first_index_of(17), 4);
    assert_eq!(idx.last_index_of(17), 4);
}

#[test]
fn single_block() {
    let idx = Index::new(vec![(10, 10)]);
    assert_eq!(idx.first_index_of(10), 0);
    assert_eq!(idx.last_index_of(10), 0);
}

#[test]
fn serialization_round_trip() {
    let ranges = vec![(1u32, 5u32), (5, 9), (14, 20)];
    let idx = Index::new(ranges.clone());
    let bytes = idx.to_bytes();
    assert_eq!(bytes.len(), 4 + 8 * ranges.len());
    // Count, then pairs, all big-endian.
    assert_eq!(&bytes[0..4], &[0, 0, 0, 3]);
    assert_eq!(&bytes[4..8], &[0, 0, 0, 1]);
    assert_eq!(&bytes[8..12], &[0, 0, 0, 5]);
    let parsed = Index::from_bytes(&bytes).unwrap();
    assert_eq!(parsed.first_index_of(5), 0);
    assert_eq!(parsed.last_index_of(5), 1);
    assert_eq!(parsed.to_bytes(), bytes);
}

#[test]
fn malformed_image_is_rejected() {
    assert!(Index::from_bytes(&vec![0u8, 0, 0]).is_err());
    // Announced count disagrees with the byte length.
    assert!(Index::from_bytes(&vec![0u8, 0, 0, 2, 0, 0, 0, 1]).is_err());
}
