use boosttorrent::wire::{
    Handshake, HandshakeCodec, Message, MessageCodec, Piece, Request, WireError,
};

fn handshake_frame(info_hash: [u8; 20], peer_id: [u8; 20]) -> Vec<u8> {
    let mut f = vec![19u8];
    f.extend_from_slice(b"BitTorrent protocol");
    f.extend_from_slice(&[0u8; 8]);
    f.extend_from_slice(&info_hash);
    f.extend_from_slice(&peer_id);
    f
}

#[test]
fn test_message_encode_forms() {
    let codec = MessageCodec::new();
    let mut out = Vec::new();
    codec.encode(&Message::Choke, &mut out).unwrap();
    assert_eq!(out, vec![0, 0, 0, 1, 0]);

    let mut out = Vec::new();
    codec.encode(&Message::Unchoke, &mut out).unwrap();
    assert_eq!(out, vec![0, 0, 0, 1, 1]);

    let mut out = Vec::new();
    codec.encode(&Message::Interested, &mut out).unwrap();
    assert_eq!(out, vec![0, 0, 0, 1, 2]);

    let mut out = Vec::new();
    codec.encode(&Message::NotInterested, &mut out).unwrap();
    assert_eq!(out, vec![0, 0, 0, 1, 3]);

    let mut out = Vec::new();
    codec.encode(&Message::Have(0x01020304), &mut out).unwrap();
    assert_eq!(out, vec![0, 0, 0, 5, 4, 1, 2, 3, 4]);

    let mut out = Vec::new();
    codec
        .encode(
            &Message::Request(Request { index: 1, begin: 2, length: 3 }),
            &mut out,
        )
        .unwrap();
    assert_eq!(out, vec![0, 0, 0, 13, 6, 0, 0, 0, 1, 0, 0, 0, 2, 0, 0, 0, 3]);

    let mut out = Vec::new();
    codec
        .encode(&Message::Piece(Piece::new(1, 2, vec![9, 8, 7])), &mut out)
        .unwrap();
    assert_eq!(out, vec![0, 0, 0, 12, 7, 0, 0, 0, 1, 0, 0, 0, 2, 9, 8, 7]);

    let mut out = Vec::new();
    codec
        .encode(
            &Message::Cancel(Request { index: 1, begin: 2, length: 3 }),
            &mut out,
        )
        .unwrap();
    assert_eq!(out, vec![0, 0, 0, 13, 8, 0, 0, 0, 1, 0, 0, 0, 2, 0, 0, 0, 3]);
}

#[test]
fn test_message_round_trip() {
    let codec = MessageCodec::new();
    let mut wire = Vec::new();
    codec.encode(&Message::Have(7), &mut wire).unwrap();
    codec
        .encode(
            &Message::Piece(Piece::new(3, 16384, vec![1, 2, 3, 4])),
            &mut wire,
        )
        .unwrap();

    let m1 = codec.decode(&mut wire).unwrap().unwrap();
    assert!(matches!(m1, Message::Have(7)));
    let m2 = codec.decode(&mut wire).unwrap().unwrap();
    match m2 {
        Message::Piece(p) => {
            assert_eq!(p.index, 3);
            assert_eq!(p.begin, 16384);
            assert_eq!(p.block, vec![1, 2, 3, 4]);
        }
        _ => panic!("expected a piece"),
    }
    assert!(wire.is_empty());
    assert!(matches!(codec.decode(&mut wire), Ok(None)));
}

#[test]
fn test_incremental_framing() {
    // feeding a frame split at an arbitrary boundary: nothing is yielded and
    // nothing consumed until the remainder arrives
    let codec = MessageCodec::new();
    let mut frame = Vec::new();
    codec
        .encode(
            &Message::Request(Request { index: 5, begin: 6, length: 7 }),
            &mut frame,
        )
        .unwrap();

    for split in 0..frame.len() {
        let mut buf = frame[..split].to_vec();
        let before = buf.clone();
        assert!(matches!(codec.decode(&mut buf), Ok(None)));
        assert_eq!(buf, before);

        buf.extend_from_slice(&frame[split..]);
        let m = codec.decode(&mut buf).unwrap().unwrap();
        assert!(matches!(
            m,
            Message::Request(Request { index: 5, begin: 6, length: 7 })
        ));
        assert!(buf.is_empty());
    }
}

#[test]
fn test_handshake_discrimination() {
    // a buffer beginning with byte 19 and the protocol-name literal is
    // always a handshake, even though its first four bytes could also be
    // read as a length prefix
    let codec = MessageCodec::new();
    let mut buf = handshake_frame([7u8; 20], [9u8; 20]);
    buf.push(0xaa); // one extra byte beyond the handshake
    let m = codec.decode(&mut buf).unwrap().unwrap();
    match m {
        Message::Handshake(h) => {
            assert_eq!(h.info_hash, [7u8; 20]);
            assert_eq!(h.peer_id, [9u8; 20]);
        }
        _ => panic!("expected the handshake"),
    }
    assert_eq!(buf, vec![0xaa]);

    // a partial handshake prefix waits rather than misreading a length
    let mut partial = handshake_frame([7u8; 20], [9u8; 20])[..30].to_vec();
    assert!(matches!(codec.decode(&mut partial), Ok(None)));
    assert_eq!(partial.len(), 30);
}

#[test]
fn test_unknown_id_rejected() {
    let codec = MessageCodec::new();
    let mut buf = vec![0, 0, 0, 1, 9];
    assert!(matches!(codec.decode(&mut buf), Err(WireError::UnknownId)));
}

#[test]
fn test_bad_length_rejected() {
    let codec = MessageCodec::new();
    // choke with a payload
    let mut buf = vec![0, 0, 0, 2, 0, 0];
    assert!(matches!(codec.decode(&mut buf), Err(WireError::BadLength)));
    // zero-length frame has no type id
    let mut buf = vec![0, 0, 0, 0];
    assert!(matches!(codec.decode(&mut buf), Err(WireError::BadLength)));
    // piece shorter than its fixed fields
    let mut buf = vec![0, 0, 0, 5, 7, 1, 2, 3, 4];
    assert!(matches!(codec.decode(&mut buf), Err(WireError::BadLength)));
}

#[test]
fn test_bitfield_round_trip() {
    let codec = MessageCodec::new();
    let mut buf = vec![0, 0, 0, 3, 5, 0b10100000, 0b00010010];
    let m = codec.decode(&mut buf).unwrap().unwrap();
    assert_eq!(m.bitfield_len(), Some(16));
    let mut out = Vec::new();
    codec.encode(&m, &mut out).unwrap();
    assert_eq!(out, vec![0, 0, 0, 3, 5, 0b10100000, 0b00010010]);
}

#[test]
fn test_handshake_codec() {
    let codec = HandshakeCodec::new();
    let mut out = Vec::new();
    codec.encode(
        &Handshake { info_hash: [1u8; 20], peer_id: [2u8; 20] },
        &mut out,
    );
    assert_eq!(out, handshake_frame([1u8; 20], [2u8; 20]));

    // short reads wait
    let mut partial = out[..67].to_vec();
    assert!(matches!(codec.decode(&mut partial), Ok(None)));

    let h = codec.decode(&mut out).unwrap().unwrap();
    assert_eq!(h.info_hash, [1u8; 20]);
    assert_eq!(h.peer_id, [2u8; 20]);

    // a 68-byte frame without the protocol literal is rejected
    let mut bad = handshake_frame([1u8; 20], [2u8; 20]);
    bad[3] ^= 0xff;
    assert!(matches!(codec.decode(&mut bad), Err(WireError::BadHandshake)));
}
