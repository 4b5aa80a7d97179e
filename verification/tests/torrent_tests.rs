use bittorrent_client::bencode::{dict_insert, encode, BencodeValue};
use bittorrent_client::error::ClientError;
use bittorrent_client::torrent::{Hashes, Info, Keys, Torrent};
use sha1::{Digest, Sha1};

fn bytes(s: &str) -> Vec<u8> {
    s.as_bytes().to_vec()
}

fn single_file_descriptor(piece_length: usize, total: usize, hashes: &[[u8; 20]]) -> Vec<u8> {
    let mut info: Vec<(Vec<u8>, BencodeValue)> = Vec::new();
    dict_insert(&mut info, bytes("pieces"), BencodeValue::Bytes(hashes.concat()));
    dict_insert(&mut info, bytes("name"), BencodeValue::Bytes(bytes("demo.bin")));
    dict_insert(&mut info, bytes("length"), BencodeValue::Int(total as i64));
    dict_insert(
        &mut info,
        bytes("piece length"),
        BencodeValue::Int(piece_length as i64),
    );
    let mut top: Vec<(Vec<u8>, BencodeValue)> = Vec::new();
    dict_insert(&mut top, bytes("info"), BencodeValue::Dict(info));
    dict_insert(
        &mut top,
        bytes("announce"),
        BencodeValue::Bytes(bytes("http://tracker.example/announce")),
    );
    encode(&BencodeValue::Dict(top))
}

#[test]
fn parse_single_file_descriptor() {
    let descriptor = single_file_descriptor(4, 10, &[[1u8; 20], [2u8; 20], [3u8; 20]]);
    let t = Torrent::parse(&descriptor).unwrap();
    assert_eq!(t.announce, bytes("http://tracker.example/announce"));
    assert_eq!(t.info.name, bytes("demo.bin"));
    assert_eq!(t.info.piece_length, 4);
    assert_eq!(t.info.pieces.0.len(), 3);
    assert_eq!(t.info.pieces.0[1], [2u8; 20]);
    match t.info.keys {
        Keys::SingleFile { length } => assert_eq!(length, 10),
        _ => panic!("expected a single-file layout"),
    }
}

#[test]
fn parse_rejects_bencode_syntax_fault() {
    assert!(matches!(
        Torrent::parse(&bytes("d8:announce")),
        Err(ClientError::MalformedEncoding)
    ));
}

#[test]
fn parse_rejects_missing_fields() {
    let enc = bytes("d8:announce4:here4:infod4:name1:xee");
    assert!(matches!(Torrent::parse(&enc), Err(ClientError::InvalidMetadata)));
}

#[test]
fn parse_rejects_ragged_piece_hashes() {
    // "pieces" holds 21 bytes, not a whole number of 20-byte hashes
    let descriptor = bytes(
        "d8:announce1:a4:infod6:lengthi1e4:name1:x12:piece lengthi1e6:pieces21:AAAAAAAAAAAAAAAAAAAAAee",
    );
    assert!(matches!(
        Torrent::parse(&descriptor),
        Err(ClientError::InvalidMetadata)
    ));
}

#[test]
fn parse_rejects_zero_piece_length() {
    let descriptor = bytes(
        "d8:announce1:a4:infod6:lengthi0e4:name1:x12:piece lengthi0e6:pieces0:ee",
    );
    assert!(matches!(
        Torrent::parse(&descriptor),
        Err(ClientError::InvalidMetadata)
    ));
}

#[test]
fn parse_rejects_wrong_hash_count() {
    // 10 bytes at piece length 4 need 3 hashes, not 2
    let descriptor = single_file_descriptor(4, 10, &[[1u8; 20], [2u8; 20]]);
    assert!(matches!(
        Torrent::parse(&descriptor),
        Err(ClientError::InvalidMetadata)
    ));
}

#[test]
fn parse_multi_file_descriptor() {
    let mut file1: Vec<(Vec<u8>, BencodeValue)> = Vec::new();
    dict_insert(&mut file1, bytes("length"), BencodeValue::Int(3));
    dict_insert(
        &mut file1,
        bytes("path"),
        BencodeValue::List(vec![BencodeValue::Bytes(bytes("a.txt"))]),
    );
    let mut file2: Vec<(Vec<u8>, BencodeValue)> = Vec::new();
    dict_insert(&mut file2, bytes("length"), BencodeValue::Int(7));
    dict_insert(
        &mut file2,
        bytes("path"),
        BencodeValue::List(vec![
            BencodeValue::Bytes(bytes("sub")),
            BencodeValue::Bytes(bytes("b.txt")),
        ]),
    );
    let mut info: Vec<(Vec<u8>, BencodeValue)> = Vec::new();
    dict_insert(
        &mut info,
        bytes("files"),
        BencodeValue::List(vec![BencodeValue::Dict(file1), BencodeValue::Dict(file2)]),
    );
    dict_insert(&mut info, bytes("name"), BencodeValue::Bytes(bytes("dir")));
    dict_insert(&mut info, bytes("piece length"), BencodeValue::Int(4));
    dict_insert(
        &mut info,
        bytes("pieces"),
        BencodeValue::Bytes([[0u8; 20], [1u8; 20], [2u8; 20]].concat()),
    );
    let mut top: Vec<(Vec<u8>, BencodeValue)> = Vec::new();
    dict_insert(&mut top, bytes("announce"), BencodeValue::Bytes(bytes("u")));
    dict_insert(&mut top, bytes("info"), BencodeValue::Dict(info));
    let t = Torrent::parse(&encode(&BencodeValue::Dict(top))).unwrap();
    match &t.info.keys {
        Keys::MultipleFile { files } => {
            assert_eq!(files.len(), 2);
            assert_eq!(files[0].length, 3);
            assert_eq!(files[1].length, 7);
            assert_eq!(files[1].path, vec![bytes("sub"), bytes("b.txt")]);
        }
        _ => panic!("expected a multi-file layout"),
    }
    assert_eq!(t.info.total_length(), 10);
}

#[test]
fn piece_byte_range_formula() {
    // pieceLength = 4, totalLength = 10: three pieces of sizes 4, 4, 2
    let descriptor = single_file_descriptor(4, 10, &[[1u8; 20], [2u8; 20], [3u8; 20]]);
    let t = Torrent::parse(&descriptor).unwrap();
    assert_eq!(t.info.piece_count(), 3);
    assert_eq!(t.info.piece_byte_range(0), Ok((0, 4)));
    assert_eq!(t.info.piece_byte_range(1), Ok((4, 4)));
    assert_eq!(t.info.piece_byte_range(2), Ok((8, 2)));
    assert_eq!(t.info.piece_byte_range(3), Err(ClientError::IndexOutOfRange));
}

#[test]
fn info_hash_matches_direct_digest_of_reencoding() {
    let descriptor = single_file_descriptor(4, 10, &[[1u8; 20], [2u8; 20], [3u8; 20]]);
    let t = Torrent::parse(&descriptor).unwrap();
    // the canonical info dictionary, re-encoded by hand
    let mut expected_info: Vec<u8> = Vec::new();
    expected_info.extend_from_slice(b"d6:lengthi10e4:name8:demo.bin12:piece lengthi4e6:pieces60:");
    expected_info.extend_from_slice(&[1u8; 20]);
    expected_info.extend_from_slice(&[2u8; 20]);
    expected_info.extend_from_slice(&[3u8; 20]);
    expected_info.extend_from_slice(b"e");
    let mut hasher = Sha1::new();
    hasher.update(&expected_info);
    let expected: [u8; 20] = hasher.finalize().into();
    assert_eq!(t.info_hash(), expected);
}

#[test]
fn info_hash_deterministic_across_construction_orders() {
    // the same descriptor with its dictionaries written in different field
    // orders: the decoder accepts both, and the re-encoding is canonical
    let a = single_file_descriptor(4, 10, &[[9u8; 20], [8u8; 20], [7u8; 20]]);
    let ta = Torrent::parse(&a).unwrap();
    let mut b = bytes("d4:infod4:name8:demo.bin6:pieces60:");
    b.extend_from_slice(&[9u8; 20]);
    b.extend_from_slice(&[8u8; 20]);
    b.extend_from_slice(&[7u8; 20]);
    b.extend_from_slice(b"12:piece lengthi4e6:lengthi10ee");
    b.extend_from_slice(b"8:announce31:http://tracker.example/announcee");
    let tb = Torrent::parse(&b).unwrap();
    assert_eq!(ta.info_hash(), tb.info_hash());
}

#[test]
fn pieces_concat_restores_descriptor_bytes() {
    let hashes = Hashes(vec![[4u8; 20], [5u8; 20]]);
    let flat = hashes.concat();
    assert_eq!(flat.len(), 40);
    assert_eq!(&flat[..20], &[4u8; 20]);
    assert_eq!(&flat[20..], &[5u8; 20]);
}

#[test]
fn total_length_sums_files() {
    let info = Info {
        name: bytes("x"),
        piece_length: 4,
        pieces: Hashes(vec![[0u8; 20]]),
        keys: Keys::SingleFile { length: 3 },
    };
    assert_eq!(info.total_length(), 3);
}
