use bittorrent_client::error::ClientError;
use bittorrent_client::tracker::{urlencode, Peers, TrackerRequest, TrackerResponse};

fn bytes(s: &str) -> Vec<u8> {
    s.as_bytes().to_vec()
}

#[test]
fn tracker_request_fixed_fields() {
    let q = TrackerRequest::new(1234);
    assert_eq!(q.peer_id, "00112233445566778899");
    assert_eq!(q.port, 6881);
    assert_eq!(q.uploaded, 0);
    assert_eq!(q.downloaded, 0);
    assert_eq!(q.left, 1234);
    assert_eq!(q.compact, 1);
}

#[test]
fn peers_decode_compact_entries() {
    let raw = vec![127u8, 0, 0, 1, 26, 225, 10, 0, 0, 2, 0, 80];
    let peers = Peers::from_bytes(&raw).unwrap();
    assert_eq!(peers.0.len(), 2);
    assert_eq!(peers.0[0].ip, [127, 0, 0, 1]);
    assert_eq!(peers.0[0].port, 6881);
    assert_eq!(peers.0[1].ip, [10, 0, 0, 2]);
    assert_eq!(peers.0[1].port, 80);
}

#[test]
fn peers_reject_ragged_byte_length() {
    let raw = vec![127u8, 0, 0, 1, 26];
    assert!(matches!(
        Peers::from_bytes(&raw),
        Err(ClientError::MalformedPeerList)
    ));
}

#[test]
fn peers_encode_decode_round_trip() {
    let raw = vec![192u8, 168, 1, 9, 31, 144, 8, 8, 8, 8, 0, 53];
    let peers = Peers::from_bytes(&raw).unwrap();
    assert_eq!(peers.to_bytes(), raw);
}

#[test]
fn tracker_response_parse() {
    let mut enc = bytes("d8:intervali1800e5:peers12:");
    enc.extend_from_slice(&[127, 0, 0, 1, 26, 225, 10, 0, 0, 2, 0, 80]);
    enc.extend_from_slice(b"e");
    let r = TrackerResponse::parse(&enc).unwrap();
    assert_eq!(r.interval, 1800);
    assert_eq!(r.peers.0.len(), 2);
    assert_eq!(r.peers.0[1].port, 80);
}

#[test]
fn tracker_response_parse_rejects_ragged_peers() {
    let mut enc = bytes("d8:intervali1800e5:peers5:");
    enc.extend_from_slice(&[127, 0, 0, 1, 26]);
    enc.extend_from_slice(b"e");
    assert!(matches!(
        TrackerResponse::parse(&enc),
        Err(ClientError::MalformedPeerList)
    ));
}

#[test]
fn tracker_response_parse_rejects_missing_field() {
    let enc = bytes("d8:intervali1800ee");
    assert!(matches!(
        TrackerResponse::parse(&enc),
        Err(ClientError::InvalidMetadata)
    ));
}

#[test]
fn tracker_response_parse_rejects_syntax_fault() {
    let enc = bytes("d8:interval");
    assert!(matches!(
        TrackerResponse::parse(&enc),
        Err(ClientError::MalformedEncoding)
    ));
}

#[test]
fn urlencode_percent_encodes_every_byte() {
    let mut hash = [0u8; 20];
    for (i, b) in hash.iter_mut().enumerate() {
        *b = (i as u8) * 13;
    }
    let enc = urlencode(&hash);
    assert_eq!(enc.len(), 60);
    let text = String::from_utf8(enc).unwrap();
    assert_eq!(
        text,
        "%00%0d%1a%27%34%41%4e%5b%68%75%82%8f%9c%a9%b6%c3%d0%dd%ea%f7"
    );
}

#[test]
fn urlencode_uses_lowercase_hex() {
    let hash = [0xABu8; 20];
    let text = String::from_utf8(urlencode(&hash)).unwrap();
    assert_eq!(&text[..3], "%ab");
}
