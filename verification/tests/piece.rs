use std::collections::HashMap;

use sha1::{Digest, Sha1};
use torrent_core::piece::{assemble_piece, block_ranges, check_piece_hash, verify_piece, BlockRange, BLOCK_LEN};

#[test]
fn block_ranges_generates_correct_boundaries() {
    let piece_length = 50_000;
    let ranges = block_ranges(piece_length);

    assert_eq!(ranges.len(), 4);
    assert_eq!(ranges[0], BlockRange { begin: 0, length: 16_384 });
    assert_eq!(ranges[1], BlockRange { begin: 16_384, length: 16_384 });
    assert_eq!(ranges[2], BlockRange { begin: 32_768, length: 16_384 });
    assert_eq!(ranges[3], BlockRange { begin: 49_152, length: 848 });
}

#[test]
fn assemble_piece_combines_blocks_in_order() {
    let mut blocks = HashMap::new();
    blocks.insert(0, vec![1, 2, 3]);
    blocks.insert(3, vec![4, 5]);

    let assembled = assemble_piece(5, &blocks).unwrap();
    assert_eq!(assembled, vec![1, 2, 3, 4, 5]);
}

#[test]
fn verify_piece_detects_valid_hash() {
    let data = b"hello world";
    let mut hasher = Sha1::new();
    hasher.update(data);
    let expected: [u8; 20] = hasher.finalize().into();

    assert!(verify_piece(&expected, data).is_ok());
}

#[test]
fn verify_piece_detects_wrong_hash() {
    let data = b"hello world";
    let mut hasher = Sha1::new();
    hasher.update(b"hello worle");
    let other: [u8; 20] = hasher.finalize().into();
    assert_eq!(verify_piece(&other, data).unwrap_err(), "piece hash mismatch");
    // the digest of the data itself, not the data, is what is compared
    let mut padded = [0u8; 20];
    padded[..11].copy_from_slice(data);
    assert!(verify_piece(&padded, data).is_err());
}

#[test]
fn sha1_of_known_text() {
    // SHA-1("abc") = a9993e364706816aba3e25717850c26c9cd0d89d
    let expected = [
        0xa9, 0x99, 0x3e, 0x36, 0x47, 0x06, 0x81, 0x6a, 0xba, 0x3e, 0x25, 0x71, 0x78, 0x50, 0xc2,
        0x6c, 0x9c, 0xd0, 0xd8, 0x9d,
    ];
    assert!(verify_piece(&expected, b"abc").is_ok());
}

#[test]
fn check_piece_hash_compares_every_byte() {
    let a = [5u8; 20];
    let mut b = [5u8; 20];
    assert!(check_piece_hash(&a, &b).is_ok());
    b[19] = 6;
    assert_eq!(check_piece_hash(&a, &b).unwrap_err(), "piece hash mismatch");
}

#[test]
fn block_ranges_edges() {
    assert!(block_ranges(0).is_empty());
    assert_eq!(block_ranges(1), vec![BlockRange { begin: 0, length: 1 }]);
    assert_eq!(block_ranges(BLOCK_LEN), vec![BlockRange { begin: 0, length: 16_384 }]);
    let r = block_ranges(2 * BLOCK_LEN + 1);
    assert_eq!(r.len(), 3);
    assert_eq!(r[2], BlockRange { begin: 32_768, length: 1 });
}

#[test]
fn assemble_piece_errors() {
    let mut blocks = HashMap::new();
    blocks.insert(0u32, vec![1, 2, 3]);
    assert_eq!(assemble_piece(5, &blocks).unwrap_err(), "missing block starting at 3");
    blocks.insert(3, vec![4, 5, 6]);
    assert_eq!(assemble_piece(5, &blocks).unwrap_err(), "block at 3 exceeds piece bounds");
    assert_eq!(assemble_piece(0, &HashMap::new()).unwrap(), Vec::<u8>::new());
}

#[test]
fn assemble_piece_from_block_ranges() {
    let data: Vec<u8> = (0..40_000u32).map(|i| (i % 251) as u8).collect();
    let mut blocks = HashMap::new();
    for r in block_ranges(data.len()) {
        let start = r.begin as usize;
        blocks.insert(r.begin, data[start..start + r.length as usize].to_vec());
    }
    assert_eq!(assemble_piece(data.len(), &blocks).unwrap(), data);
}
