use bittorrent_client::bencode::{decode, dict_insert, encode, BencodeValue};
use bittorrent_client::error::ClientError;

fn bytes(s: &str) -> Vec<u8> {
    s.as_bytes().to_vec()
}

fn assert_round_trip(v: &BencodeValue) -> Vec<u8> {
    let enc = encode(v);
    let (back, end) = decode(&enc).expect("decoding an encoding succeeds");
    assert_eq!(end, enc.len());
    let enc2 = encode(&back);
    assert_eq!(enc, enc2);
    enc
}

#[test]
fn decode_integer() {
    let (v, end) = decode(&bytes("i42e")).unwrap();
    assert!(matches!(v, BencodeValue::Int(42)));
    assert_eq!(end, 4);
}

#[test]
fn decode_negative_integer() {
    let (v, _) = decode(&bytes("i-37e")).unwrap();
    assert!(matches!(v, BencodeValue::Int(-37)));
}

#[test]
fn decode_extreme_integers() {
    let (v, _) = decode(&bytes("i9223372036854775807e")).unwrap();
    assert!(matches!(v, BencodeValue::Int(i64::MAX)));
    let (v, _) = decode(&bytes("i-9223372036854775808e")).unwrap();
    assert!(matches!(v, BencodeValue::Int(i64::MIN)));
    assert_eq!(
        decode(&bytes("i9223372036854775808e")),
        Err(ClientError::MalformedEncoding)
    );
}

#[test]
fn decode_byte_string() {
    let (v, end) = decode(&bytes("4:spam")).unwrap();
    match v {
        BencodeValue::Bytes(b) => assert_eq!(b, bytes("spam")),
        _ => panic!("expected a byte string"),
    }
    assert_eq!(end, 6);
}

#[test]
fn decode_list_and_remainder() {
    let (v, end) = decode(&bytes("l4:spami7eetrailing")).unwrap();
    match v {
        BencodeValue::List(items) => {
            assert_eq!(items.len(), 2);
            assert!(matches!(items[1], BencodeValue::Int(7)));
        }
        _ => panic!("expected a list"),
    }
    assert_eq!(end, 11);
}

#[test]
fn decode_dictionary() {
    let (v, _) = decode(&bytes("d3:cow3:moo4:spami3ee")).unwrap();
    match v {
        BencodeValue::Dict(entries) => {
            assert_eq!(entries.len(), 2);
            assert_eq!(entries[0].0, bytes("cow"));
            assert!(matches!(entries[1].1, BencodeValue::Int(3)));
        }
        _ => panic!("expected a dictionary"),
    }
}

#[test]
fn decode_rejects_malformed() {
    for case in [
        "", "x", "i12", "ie", "i-e", "i--2e", "3:ab", "l", "li2e", "d", "d3:cow", "d3:cowe",
        "di2ei3ee", "5", "5:", ":abc",
    ] {
        assert_eq!(
            decode(&bytes(case)),
            Err(ClientError::MalformedEncoding),
            "input {:?} should be rejected",
            case
        );
    }
}

#[test]
fn encode_decode_round_trip_scenarios() {
    assert_round_trip(&BencodeValue::Int(0));
    assert_round_trip(&BencodeValue::Int(-12345));
    assert_round_trip(&BencodeValue::Bytes(Vec::new()));
    assert_round_trip(&BencodeValue::Bytes(vec![0, 255, 58, 101]));
    assert_round_trip(&BencodeValue::List(vec![
        BencodeValue::Int(1),
        BencodeValue::Bytes(bytes("two")),
        BencodeValue::List(vec![BencodeValue::Int(3)]),
    ]));
    let mut entries: Vec<(Vec<u8>, BencodeValue)> = Vec::new();
    dict_insert(&mut entries, bytes("b"), BencodeValue::Int(2));
    dict_insert(&mut entries, bytes("a"), BencodeValue::Bytes(bytes("x")));
    let enc = assert_round_trip(&BencodeValue::Dict(entries));
    assert_eq!(enc, bytes("d1:a1:x1:bi2ee"));
}

#[test]
fn encode_canonical_bytes() {
    assert_eq!(encode(&BencodeValue::Int(42)), bytes("i42e"));
    assert_eq!(encode(&BencodeValue::Int(-7)), bytes("i-7e"));
    assert_eq!(encode(&BencodeValue::Bytes(bytes("spam"))), bytes("4:spam"));
    assert_eq!(
        encode(&BencodeValue::List(vec![BencodeValue::Int(1), BencodeValue::Int(2)])),
        bytes("li1ei2ee")
    );
}

#[test]
fn dict_insert_orders_keys_regardless_of_construction_order() {
    let mut forward: Vec<(Vec<u8>, BencodeValue)> = Vec::new();
    dict_insert(&mut forward, bytes("apple"), BencodeValue::Int(1));
    dict_insert(&mut forward, bytes("pear"), BencodeValue::Int(2));
    dict_insert(&mut forward, bytes("zebra"), BencodeValue::Int(3));
    let mut backward: Vec<(Vec<u8>, BencodeValue)> = Vec::new();
    dict_insert(&mut backward, bytes("zebra"), BencodeValue::Int(3));
    dict_insert(&mut backward, bytes("pear"), BencodeValue::Int(2));
    dict_insert(&mut backward, bytes("apple"), BencodeValue::Int(1));
    let fwd = encode(&BencodeValue::Dict(forward));
    let bwd = encode(&BencodeValue::Dict(backward));
    assert_eq!(fwd, bwd);
    assert_eq!(fwd, bytes("d5:applei1e4:peari2e5:zebrai3ee"));
}

#[test]
fn dict_insert_replaces_equal_key() {
    let mut entries: Vec<(Vec<u8>, BencodeValue)> = Vec::new();
    dict_insert(&mut entries, bytes("k"), BencodeValue::Int(1));
    dict_insert(&mut entries, bytes("k"), BencodeValue::Int(2));
    assert_eq!(encode(&BencodeValue::Dict(entries)), bytes("d1:ki2ee"));
}

#[test]
fn decode_of_canonical_dict_reencodes_identically() {
    let canonical = bytes("d8:announce9:localhost4:infod6:lengthi10eee");
    let (v, end) = decode(&canonical).unwrap();
    assert_eq!(end, canonical.len());
    assert_eq!(encode(&v), canonical);
}
