use boosttorrent::metainfo::sha1_hash;
use boosttorrent::piece::Piece;

#[test]
fn test_piece_verify() {
    let data: Vec<u8> = (0u8..100).collect();
    let hash = sha1_hash(&data);
    let mut piece = Piece::new(100, hash);
    assert!(!piece.verify()); // no data collected yet
    piece.data = data;
    assert!(piece.verify());
    piece.data[3] ^= 1;
    assert!(!piece.verify());
}

#[test]
fn test_piece_subpiece_count() {
    // pieces split into 16 KiB sub-pieces, the last one possibly short
    let p = Piece::new(16384, [0u8; 20]);
    assert_eq!(p.sub_piece_count(), 1);
    let p = Piece::new(16385, [0u8; 20]);
    assert_eq!(p.sub_piece_count(), 2);
    let p = Piece::new(3 * 16384, [0u8; 20]);
    assert_eq!(p.sub_piece_count(), 3);
    let p = Piece::new(0, [0u8; 20]);
    assert_eq!(p.sub_piece_count(), 0);
}

#[test]
fn test_empty_data_known_digest() {
    // the SHA-1 digest of the empty byte string
    let expected: [u8; 20] = [
        0xda, 0x39, 0xa3, 0xee, 0x5e, 0x6b, 0x4b, 0x0d, 0x32, 0x55, 0xbf, 0xef, 0x95, 0x60,
        0x18, 0x90, 0xaf, 0xd8, 0x07, 0x09,
    ];
    assert_eq!(sha1_hash(b""), expected);
    let piece = Piece::new(0, expected);
    assert!(piece.verify());
}
