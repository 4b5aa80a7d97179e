use bittorrent_client::error::ClientError;
use bittorrent_client::peer::{Handshake, Message, MessageFramer, MessageTag, Piece, Request};

#[test]
fn handshake_layout_and_round_trip() {
    let info_hash = [7u8; 20];
    let peer_id = *b"00112233445566778899";
    let h = Handshake::new(info_hash, peer_id);
    assert_eq!(h.length, 19);
    assert_eq!(&h.bittorrent, b"BitTorrent protocol");
    assert_eq!(h.reserved, [0u8; 8]);
    let wire = h.to_bytes();
    assert_eq!(wire.len(), 68);
    assert_eq!(wire[0], 19);
    assert_eq!(&wire[1..20], b"BitTorrent protocol");
    assert_eq!(&wire[28..48], &info_hash);
    assert_eq!(&wire[48..68], &peer_id);
    let back = Handshake::from_bytes(&wire);
    assert_eq!(back.length, 19);
    assert_eq!(back.info_hash, info_hash);
    assert_eq!(back.peer_id, peer_id);
}

#[test]
fn handshake_verify_accepts_matching_reply() {
    let info_hash = [9u8; 20];
    let reply = Handshake::new(info_hash, [1u8; 20]);
    assert!(Handshake::verify_reply(&reply, &info_hash).is_ok());
}

#[test]
fn handshake_verify_rejects_wrong_protocol_name() {
    let info_hash = [9u8; 20];
    let mut reply = Handshake::new(info_hash, [1u8; 20]);
    reply.bittorrent = *b"bitTorrent protocol";
    assert_eq!(
        Handshake::verify_reply(&reply, &info_hash),
        Err(ClientError::HandshakeFailed)
    );
}

#[test]
fn handshake_verify_rejects_wrong_info_hash() {
    let info_hash = [9u8; 20];
    let mut other = [9u8; 20];
    other[19] = 8;
    let reply = Handshake::new(other, [1u8; 20]);
    assert_eq!(
        Handshake::verify_reply(&reply, &info_hash),
        Err(ClientError::HandshakeFailed)
    );
}

#[test]
fn handshake_verify_rejects_wrong_length_byte() {
    let info_hash = [9u8; 20];
    let mut reply = Handshake::new(info_hash, [1u8; 20]);
    reply.length = 20;
    assert_eq!(
        Handshake::verify_reply(&reply, &info_hash),
        Err(ClientError::HandshakeFailed)
    );
}

#[test]
fn framing_round_trip_keeps_tag_and_payload() {
    let mut framer = MessageFramer;
    let msg = Message {
        tag: MessageTag::Piece,
        payload: vec![0, 0, 0, 1, 0, 0, 0, 2, 10, 20, 30],
    };
    let mut wire: Vec<u8> = Vec::new();
    framer.encode(&msg, &mut wire).unwrap();
    assert_eq!(wire.len(), 4 + 1 + 11);
    assert_eq!(&wire[..4], &[0, 0, 0, 12]);
    assert_eq!(wire[4], 7);
    let mut trailing = wire.clone();
    trailing.extend_from_slice(&[0, 0, 0, 1]);
    let decoded = framer.decode(&mut trailing).unwrap().unwrap();
    assert_eq!(decoded.tag, MessageTag::Piece);
    assert_eq!(decoded.payload, msg.payload);
    assert_eq!(trailing, vec![0, 0, 0, 1]);
}

#[test]
fn framing_short_buffer_asks_for_more_without_consuming() {
    let mut framer = MessageFramer;
    let mut buf = vec![0u8, 0, 0, 2];
    let r = framer.decode(&mut buf).unwrap();
    assert!(r.is_none());
    assert_eq!(buf, vec![0, 0, 0, 2]);
    let mut partial = vec![0u8, 0, 0, 5, 7, 1];
    let r = framer.decode(&mut partial).unwrap();
    assert!(r.is_none());
    assert_eq!(partial, vec![0, 0, 0, 5, 7, 1]);
}

#[test]
fn framing_rejects_oversized_frame_before_reading_payload() {
    let mut framer = MessageFramer;
    // declared length 65537 > 65536, with no payload bytes buffered at all
    let mut buf = vec![0u8, 1, 0, 1, 7];
    assert_eq!(framer.decode(&mut buf), Err(ClientError::FrameTooLarge));
    assert_eq!(buf, vec![0, 1, 0, 1, 7]);
}

#[test]
fn framing_rejects_zero_length_frame() {
    let mut framer = MessageFramer;
    let mut buf = vec![0u8, 0, 0, 0, 7];
    assert_eq!(framer.decode(&mut buf), Err(ClientError::ZeroLengthFrame));
}

#[test]
fn framing_rejects_unknown_tag() {
    let mut framer = MessageFramer;
    let mut buf = vec![0u8, 0, 0, 1, 10];
    assert_eq!(framer.decode(&mut buf), Err(ClientError::UnknownMessageTag));
}

#[test]
fn framing_accepts_every_known_tag() {
    let tags = [
        MessageTag::Choke,
        MessageTag::Unchoke,
        MessageTag::Interested,
        MessageTag::NotInterested,
        MessageTag::Have,
        MessageTag::Bitfield,
        MessageTag::Request,
        MessageTag::Piece,
        MessageTag::Cancel,
        MessageTag::Port,
    ];
    let mut framer = MessageFramer;
    for (i, tag) in tags.iter().enumerate() {
        assert_eq!(tag.byte(), i as u8);
        let mut buf = vec![0u8, 0, 0, 1, i as u8];
        let m = framer.decode(&mut buf).unwrap().unwrap();
        assert_eq!(m.tag, *tag);
        assert!(m.payload.is_empty());
        assert!(buf.is_empty());
    }
}

#[test]
fn framing_rejects_oversized_payload_before_writing() {
    let mut framer = MessageFramer;
    let msg = Message {
        tag: MessageTag::Bitfield,
        payload: vec![0u8; 65536],
    };
    let mut wire = vec![1u8, 2, 3];
    assert_eq!(framer.encode(&msg, &mut wire), Err(ClientError::PayloadTooLarge));
    assert_eq!(wire, vec![1, 2, 3]);
}

#[test]
fn framing_zero_payload_frame_boundary() {
    // a frame of declared length 1 carries a tag and a zero-length payload
    let mut framer = MessageFramer;
    let mut buf = vec![0u8, 0, 0, 1, 2, 9, 9];
    let m = framer.decode(&mut buf).unwrap().unwrap();
    assert_eq!(m.tag, MessageTag::Interested);
    assert_eq!(m.payload.len(), 0);
    assert_eq!(buf, vec![9, 9]);
}

#[test]
fn request_payload_layout() {
    let q = Request::new(1, 16384, 9000);
    let b = q.to_bytes();
    assert_eq!(b, vec![0, 0, 0, 1, 0, 0, 64, 0, 0, 0, 35, 40]);
}

#[test]
fn piece_payload_parse() {
    let mut payload = vec![0u8, 0, 0, 3, 0, 0, 64, 0];
    payload.extend_from_slice(&[5, 6, 7]);
    let p = Piece::from_bytes(&payload).unwrap();
    assert_eq!(p.index(), 3);
    assert_eq!(p.begin(), 16384);
    assert_eq!(p.block(), &vec![5, 6, 7]);
    let short = vec![0u8, 0, 0, 3, 0, 0, 64];
    assert!(Piece::from_bytes(&short).is_none());
}
