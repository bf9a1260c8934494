use torrent_core::peer::{Handshake, Message, PROTOCOL_LEN, PROTOCOL_STR};

#[test]
fn handshake_encode_decode_roundtrip() {
    let info_hash = [0x11u8; 20];
    let peer_id = *b"-TC0001-123456789012";
    let handshake = Handshake::new(info_hash, peer_id);
    let encoded = handshake.encode();
    let (decoded, rest) = Handshake::decode(&encoded).unwrap();

    assert_eq!(rest.len(), 0);
    assert_eq!(decoded.info_hash, info_hash);
    assert_eq!(decoded.peer_id, peer_id);
    assert_eq!(decoded.reserved, [0; 8]);
}

#[test]
fn message_encode_decode_roundtrip() {
    let messages = vec![
        Message::KeepAlive,
        Message::Choke,
        Message::Unchoke,
        Message::Interested,
        Message::NotInterested,
        Message::Have(42),
        Message::Bitfield(vec![0b10101010, 0b11001100]),
        Message::Request { index: 1, begin: 0, length: 16384 },
        Message::Piece { index: 1, begin: 0, block: vec![1, 2, 3, 4] },
        Message::Cancel { index: 1, begin: 0, length: 16384 },
        Message::Port(6881),
    ];

    let mut buf = Vec::new();
    for message in &messages {
        buf.extend_from_slice(&message.encode());
    }

    let mut rest = &buf[..];
    for expected in messages {
        let (decoded, remaining) = Message::decode(rest).unwrap();
        assert_eq!(decoded, expected);
        rest = remaining;
    }
    assert!(rest.is_empty());
}

#[test]
fn handshake_layout() {
    let handshake = Handshake::new([7u8; 20], [9u8; 20]);
    let encoded = handshake.encode();
    assert_eq!(encoded.len(), 68);
    assert_eq!(encoded[0], PROTOCOL_LEN);
    assert_eq!(&encoded[1..20], PROTOCOL_STR.as_bytes());
    assert_eq!(&encoded[20..28], &[0u8; 8]);
    assert_eq!(&encoded[28..48], &[7u8; 20]);
    assert_eq!(&encoded[48..68], &[9u8; 20]);
}

#[test]
fn handshake_decode_keeps_trailing_bytes() {
    let mut data = Handshake::new([1u8; 20], [2u8; 20]).encode();
    data.extend_from_slice(&[0, 0, 0, 0]);
    let (decoded, rest) = Handshake::decode(&data).unwrap();
    assert_eq!(rest, &[0, 0, 0, 0]);
    assert_eq!(decoded.info_hash, [1u8; 20]);
}

#[test]
fn handshake_decode_errors() {
    assert_eq!(Handshake::decode(&[]).unwrap_err(), "handshake too short");
    assert_eq!(Handshake::decode(&[18]).unwrap_err(), "unexpected protocol length: 18");
    assert_eq!(Handshake::decode(&[19, 66]).unwrap_err(), "handshake too short");
    let mut data = Handshake::new([1u8; 20], [2u8; 20]).encode();
    data[5] = b'x';
    assert_eq!(Handshake::decode(&data).unwrap_err(), "unexpected protocol string");
}

#[test]
fn handshake_reserved_bytes_are_read() {
    let mut data = Handshake::new([1u8; 20], [2u8; 20]).encode();
    data[20] = 0x80;
    data[27] = 0x01;
    let (decoded, _) = Handshake::decode(&data).unwrap();
    assert_eq!(decoded.reserved, [0x80, 0, 0, 0, 0, 0, 0, 0x01]);
}

#[test]
fn handshake_check_protocol_len_and_body() {
    assert!(Handshake::check_protocol_len(19).is_ok());
    assert_eq!(Handshake::check_protocol_len(200).unwrap_err(), "unexpected protocol length: 200");
    let data = Handshake::new([3u8; 20], [4u8; 20]).encode();
    let h = Handshake::decode_body(&data[1..]).unwrap();
    assert_eq!(h.peer_id, [4u8; 20]);
}

#[test]
fn message_exact_bytes() {
    assert_eq!(Message::KeepAlive.encode(), vec![0, 0, 0, 0]);
    assert_eq!(Message::Unchoke.encode(), vec![0, 0, 0, 1, 1]);
    assert_eq!(Message::Have(0x01020304).encode(), vec![0, 0, 0, 5, 4, 1, 2, 3, 4]);
    assert_eq!(Message::Bitfield(vec![0xff, 0x0f]).encode(), vec![0, 0, 0, 3, 5, 0xff, 0x0f]);
    assert_eq!(
        Message::Request { index: 1, begin: 0x4000, length: 0x4000 }.encode(),
        vec![0, 0, 0, 13, 6, 0, 0, 0, 1, 0, 0, 0x40, 0, 0, 0, 0x40, 0]
    );
    assert_eq!(
        Message::Piece { index: 2, begin: 3, block: vec![9] }.encode(),
        vec![0, 0, 0, 10, 7, 0, 0, 0, 2, 0, 0, 0, 3, 9]
    );
    assert_eq!(Message::Port(6881).encode(), vec![0, 0, 0, 3, 9, 0x1a, 0xe1]);
    assert_eq!(Message::frame_length(&[0, 0, 1, 2]), 258);
}

#[test]
fn message_decode_errors() {
    assert_eq!(Message::decode(&[0, 0, 0]).unwrap_err(), "message too short");
    assert_eq!(Message::decode(&[0, 0, 0, 2, 1]).unwrap_err(), "message length mismatch");
    assert_eq!(Message::decode(&[0, 0, 0, 2, 4, 0]).unwrap_err(), "have payload wrong size");
    assert_eq!(Message::decode(&[0, 0, 0, 2, 6, 0]).unwrap_err(), "request payload wrong size");
    assert_eq!(Message::decode(&[0, 0, 0, 2, 7, 0]).unwrap_err(), "piece payload too short");
    assert_eq!(Message::decode(&[0, 0, 0, 2, 8, 0]).unwrap_err(), "cancel payload wrong size");
    assert_eq!(Message::decode(&[0, 0, 0, 2, 9, 0]).unwrap_err(), "port payload wrong size");
    assert_eq!(Message::decode(&[0, 0, 0, 1, 42]).unwrap_err(), "unknown message id: 42");
}

#[test]
fn message_decode_ignores_payload_of_simple_ids_and_keeps_rest() {
    let (m, rest) = Message::decode(&[0, 0, 0, 3, 2, 7, 7, 0xaa]).unwrap();
    assert_eq!(m, Message::Interested);
    assert_eq!(rest, &[0xaa]);
    let (m, rest) = Message::decode(&[0, 0, 0, 0, 1]).unwrap();
    assert_eq!(m, Message::KeepAlive);
    assert_eq!(rest, &[1]);
    let (m, _) = Message::decode(&[0, 0, 0, 9, 7, 0, 0, 0, 1, 0, 0, 0, 2]).unwrap();
    assert_eq!(m, Message::Piece { index: 1, begin: 2, block: vec![] });
}

#[test]
fn fits_frame_for_ordinary_messages() {
    assert!(Message::KeepAlive.fits_frame());
    assert!(Message::Bitfield(vec![0; 10]).fits_frame());
    assert!(Message::Piece { index: 0, begin: 0, block: vec![0; 16384] }.fits_frame());
}
