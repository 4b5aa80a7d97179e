use vstd::prelude::*;

use crate::bencode::BencodeValue;
use crate::bencode::SpecBencode;
use crate::bencode::decode;
use crate::bencode::dict_get;
use crate::bencode::spec_decode_at;
use crate::bencode::spec_dict_get;
use crate::error::ClientError;

verus! {

/// The fixed announce parameters this client sends. The info-hash travels
/// beside them, percent-encoded byte by byte (see [`urlencode`]) because it
/// is raw binary, not text.
pub struct TrackerRequest {
    pub peer_id: String,
    pub port: u16,
    pub uploaded: usize,
    pub downloaded: usize,
    pub left: usize,
    pub compact: u8,
}

/// The characters of the fixed local peer id.
pub open spec fn spec_local_peer_id() -> Seq<char> {
    seq!['0', '0', '1', '1', '2', '2', '3', '3', '4', '4', '5', '5', '6', '6', '7', '7', '8', '8', '9', '9']
}

impl TrackerRequest {
    /// The announce parameters for a download with `left` bytes remaining:
    /// the fixed 20-byte local identity, port 6881, nothing uploaded or
    /// downloaded yet, and the compact peer-list format.
    pub fn new(left: usize) -> (r: Self)
        ensures
            r.peer_id@ == spec_local_peer_id(),
            r.port == 6881,
            r.uploaded == 0,
            r.downloaded == 0,
            r.left == left,
            r.compact == 1,
    {
        let peer_id = "00112233445566778899".to_owned();
        proof {
            reveal_strlit("00112233445566778899");
            assert(peer_id@ =~= spec_local_peer_id());
        }
        TrackerRequest { peer_id, port: 6881, uploaded: 0, downloaded: 0, left, compact: 1 }
    }
}

/// One peer of a compact peer list: an IPv4 address and a port.
pub struct PeerAddr {
    pub ip: [u8; 4],
    pub port: u16,
}

/// The mathematical image of a [`PeerAddr`].
pub struct SpecPeerAddr {
    pub ip: Seq<u8>,
    pub port: int,
}

impl View for PeerAddr {
    type V = SpecPeerAddr;

    open spec fn view(&self) -> SpecPeerAddr {
        SpecPeerAddr { ip: self.ip@, port: self.port as int }
    }
}

/// The peers a compact byte string carries: 6 bytes each, 4 address octets
/// then a big-endian port.
pub open spec fn spec_peers_of(b: Seq<u8>) -> Seq<SpecPeerAddr> {
    Seq::new(
        (b.len() / 6) as nat,
        |i: int|
            SpecPeerAddr {
                ip: b.subrange(6 * i, 6 * i + 4),
                port: b[6 * i + 4] * 256 + b[6 * i + 5],
            },
    )
}

/// The compact encoding of the peers from index `i` on.
pub open spec fn spec_peers_bytes(ps: Seq<SpecPeerAddr>, i: int) -> Seq<u8>
    decreases ps.len() - i,
{
    if i < 0 || i >= ps.len() {
        Seq::empty()
    } else {
        ps[i].ip + seq![(ps[i].port / 256 % 256) as u8, (ps[i].port % 256) as u8]
            + spec_peers_bytes(ps, i + 1)
    }
}

/// The peer list of a tracker response.
pub struct Peers(pub Vec<PeerAddr>);

impl View for Peers {
    type V = Seq<SpecPeerAddr>;

    open spec fn view(&self) -> Seq<SpecPeerAddr> {
        Seq::new(self.0@.len(), |i: int| self.0@[i]@)
    }
}

impl Peers {
    /// Decode a compact peer list: 6 bytes per peer. A byte length that is
    /// not a multiple of 6 is `MalformedPeerList`, and nothing else is.
    #[verifier::loop_isolation(false)]
    pub fn from_bytes(b: &Vec<u8>) -> (r: Result<Peers, ClientError>)
        ensures
            match r {
                Ok(p) => b@.len() % 6 == 0 && p@ == spec_peers_of(b@),
                Err(e) => b@.len() % 6 != 0 && e == ClientError::MalformedPeerList,
            },
    {
        let n = b.len();
        if n % 6 != 0 {
            return Err(ClientError::MalformedPeerList);
        }
        let count = n / 6;
        proof {
            vstd::arithmetic::div_mod::lemma_fundamental_div_mod(n as int, 6);
        }
        let mut peers: Vec<PeerAddr> = Vec::new();
        for i in 0..count
            invariant
                peers@.len() == i,
                forall|j: int| 0 <= j < i ==> (#[trigger] peers@[j])@ == spec_peers_of(b@)[j],
        {
            let base = i * 6;
            assert(base + 6 <= n) by {
                assert(i as int * 6 + 6 <= count as int * 6) by (nonlinear_arith)
                    requires
                        i as int + 1 <= count as int,
                ;
            }
            let ip: [u8; 4] = [b[base], b[base + 1], b[base + 2], b[base + 3]];
            let port: u16 = (b[base + 4] as u16) * 256 + (b[base + 5] as u16);
            let p = PeerAddr { ip, port };
            proof {
                assert(p@.ip =~= b@.subrange(6 * (i as int), 6 * (i as int) + 4));
            }
            peers.push(p);
        }
        let r = Peers(peers);
        proof {
            assert(r@ =~= spec_peers_of(b@));
        }
        Ok(r)
    }

    /// Encode the peer list compactly: 6 bytes per peer, the exact inverse
    /// of [`Peers::from_bytes`].
    #[verifier::loop_isolation(false)]
    pub fn to_bytes(&self) -> (r: Vec<u8>)
        ensures
            r@ == spec_peers_bytes(self@, 0),
            r@.len() == 6 * self@.len(),
    {
        let ghost ps = self@;
        let mut out: Vec<u8> = Vec::new();
        let n = self.0.len();
        for i in 0..n
            invariant
                out@ + spec_peers_bytes(ps, i as int) =~= spec_peers_bytes(ps, 0),
                out@.len() == 6 * i,
        {
            let p = &self.0[i];
            out.push(p.ip[0]);
            out.push(p.ip[1]);
            out.push(p.ip[2]);
            out.push(p.ip[3]);
            out.push((p.port / 256) as u8);
            out.push((p.port % 256) as u8);
            proof {
                assert(ps[i as int] == self.0@[i as int]@);
                assert(ps[i as int].ip =~= seq![
                    p.ip@[0],
                    p.ip@[1],
                    p.ip@[2],
                    p.ip@[3],
                ]);
                assert(out@ + spec_peers_bytes(ps, i + 1) =~= spec_peers_bytes(ps, 0));
            }
        }
        proof {
            assert(spec_peers_bytes(ps, n as int) =~= Seq::<u8>::empty());
            assert(out@ =~= spec_peers_bytes(ps, 0));
        }
        out
    }
}

/// A tracker's answer to an announce: the polling interval and the compact
/// peer list.
pub struct TrackerResponse {
    pub interval: usize,
    pub peers: Peers,
}

/// The bytes of the dictionary key `interval`.
pub open spec fn spec_key_interval() -> Seq<u8> {
    seq![105u8, 110, 116, 101, 114, 118, 97, 108]
}

/// The bytes of the dictionary key `peers`.
pub open spec fn spec_key_peers() -> Seq<u8> {
    seq![112u8, 101, 101, 114, 115]
}

/// The key `interval` as a vector.
fn key_interval() -> (r: Vec<u8>)
    ensures
        r@ == spec_key_interval(),
{
    let mut v: Vec<u8> = Vec::new();
    v.push(105);
    v.push(110);
    v.push(116);
    v.push(101);
    v.push(114);
    v.push(118);
    v.push(97);
    v.push(108);
    assert(v@ =~= spec_key_interval());
    v
}

/// The key `peers` as a vector.
fn key_peers() -> (r: Vec<u8>)
    ensures
        r@ == spec_key_peers(),
{
    let mut v: Vec<u8> = Vec::new();
    v.push(112);
    v.push(101);
    v.push(101);
    v.push(114);
    v.push(115);
    assert(v@ =~= spec_key_peers());
    v
}

/// Which fault a rejected tracker response carries: a peer string of ragged
/// length is `MalformedPeerList`; every other fault in the dictionary is
/// `InvalidMetadata`.
pub open spec fn spec_response_fault(v: SpecBencode) -> ClientError {
    match v {
        SpecBencode::Dict(es) => match (
            spec_dict_get(es, spec_key_interval()),
            spec_dict_get(es, spec_key_peers()),
        ) {
            (Some(SpecBencode::Int(iv)), Some(SpecBencode::Bytes(pb))) => if 0 <= iv <= usize::MAX
                && pb.len() % 6 != 0 {
                ClientError::MalformedPeerList
            } else {
                ClientError::InvalidMetadata
            },
            _ => ClientError::InvalidMetadata,
        },
        _ => ClientError::InvalidMetadata,
    }
}

/// Project a decoded tracker response: a dictionary with a non-negative
/// `interval` that fits the machine and a `peers` byte string holding whole
/// 6-byte entries.
pub open spec fn spec_project_response(v: SpecBencode) -> Option<(int, Seq<SpecPeerAddr>)> {
    match v {
        SpecBencode::Dict(es) => match (
            spec_dict_get(es, spec_key_interval()),
            spec_dict_get(es, spec_key_peers()),
        ) {
            (Some(SpecBencode::Int(iv)), Some(SpecBencode::Bytes(pb))) => if 0 <= iv <= usize::MAX
                && pb.len() % 6 == 0 {
                Some((iv, spec_peers_of(pb)))
            } else {
                None
            },
            _ => None,
        },
        _ => None,
    }
}

impl TrackerResponse {
    /// Parse a bencoded tracker response. A syntax fault is
    /// `MalformedEncoding`; a missing or mistyped field is
    /// `InvalidMetadata`; a peer string that is not whole 6-byte entries is
    /// `MalformedPeerList`.
    pub fn parse(bytes: &Vec<u8>) -> (r: Result<TrackerResponse, ClientError>)
        ensures
            match spec_decode_at(bytes@, 0) {
                None => r == Err::<TrackerResponse, ClientError>(ClientError::MalformedEncoding),
                Some((v, end)) => if end != bytes@.len() {
                    r == Err::<TrackerResponse, ClientError>(ClientError::MalformedEncoding)
                } else {
                    match spec_project_response(v) {
                        Some((iv, ps)) => r is Ok && r.unwrap().interval as int == iv
                            && r.unwrap().peers@ == ps,
                        None => r == Err::<TrackerResponse, ClientError>(spec_response_fault(v)),
                    }
                },
            },
    {
        let (value, end) = match decode(bytes) {
            Ok(p) => p,
            Err(e) => {
                return Err(e);
            },
        };
        if end != bytes.len() {
            return Err(ClientError::MalformedEncoding);
        }
        let entries = match &value {
            BencodeValue::Dict(es) => es,
            _ => {
                return Err(ClientError::InvalidMetadata);
            },
        };
        let interval: usize = match dict_get(entries, &key_interval()) {
            Some(BencodeValue::Int(l)) => {
                let l = *l;
                if l < 0 {
                    return Err(ClientError::InvalidMetadata);
                }
                if (l as u64) > (usize::MAX as u64) {
                    return Err(ClientError::InvalidMetadata);
                }
                l as usize
            },
            _ => {
                return Err(ClientError::InvalidMetadata);
            },
        };
        let peers = match dict_get(entries, &key_peers()) {
            Some(BencodeValue::Bytes(pb)) => {
                match Peers::from_bytes(pb) {
                    Ok(p) => p,
                    Err(e) => {
                        return Err(e);
                    },
                }
            },
            _ => {
                return Err(ClientError::InvalidMetadata);
            },
        };
        Ok(TrackerResponse { interval, peers })
    }
}

/// The low hex digit (lowercase) of a nibble.
pub open spec fn spec_hex_digit(d: int) -> u8 {
    if d < 10 {
        (48 + d) as u8
    } else {
        (87 + d) as u8
    }
}

/// The lowercase hex digits of the bytes from index `i` on, high nibble
/// first.
pub open spec fn spec_hex_from(b: Seq<u8>, i: int) -> Seq<u8>
    decreases b.len() - i,
{
    if i < 0 || i >= b.len() {
        Seq::empty()
    } else {
        seq![
            spec_hex_digit(b[i] as int / 16),
            spec_hex_digit(b[i] as int % 16),
        ] + spec_hex_from(b, i + 1)
    }
}

/// Relies on hex::encode: two lowercase ASCII hex digits per input byte,
/// high nibble first, from the table `0123456789abcdef`.
#[verifier::external_body]
fn hex_bytes(b: &Vec<u8>) -> (r: Vec<u8>)
    ensures
        r@ == spec_hex_from(b@, 0),
{
    hex::encode(b).into_bytes()
}

/// The percent-encoding of the bytes from index `i` on: `%` then two hex
/// digits for each byte.
pub open spec fn spec_urlencode_from(b: Seq<u8>, i: int) -> Seq<u8>
    decreases b.len() - i,
{
    if i < 0 || i >= b.len() {
        Seq::empty()
    } else {
        seq![
            37u8,
            spec_hex_digit(b[i] as int / 16),
            spec_hex_digit(b[i] as int % 16),
        ] + spec_urlencode_from(b, i + 1)
    }
}

/// Percent-encode a 20-byte info-hash byte by byte (`%XX` for every byte,
/// hex digits lowercase), as the announce query demands for raw binary.
#[verifier::loop_isolation(false)]
pub fn urlencode(t: &[u8; 20]) -> (r: Vec<u8>)
    ensures
        r@ == spec_urlencode_from(t@, 0),
        r@.len() == 60,
{
    let ghost ts = t@;
    let mut out: Vec<u8> = Vec::new();
    for i in 0..20
        invariant
            out@ + spec_urlencode_from(ts, i as int) =~= spec_urlencode_from(ts, 0),
            out@.len() == 3 * i,
    {
        let mut one: Vec<u8> = Vec::new();
        one.push(t[i]);
        let h = hex_bytes(&one);
        proof {
            assert(one@ =~= seq![ts[i as int]]);
            assert(spec_hex_from(one@, 1) =~= Seq::<u8>::empty());
            assert(h@ =~= seq![
                spec_hex_digit(ts[i as int] as int / 16),
                spec_hex_digit(ts[i as int] as int % 16),
            ]);
        }
        out.push(37);
        out.push(h[0]);
        out.push(h[1]);
        proof {
            assert(out@ + spec_urlencode_from(ts, i + 1) =~= spec_urlencode_from(ts, 0));
        }
    }
    proof {
        assert(spec_urlencode_from(ts, 20) =~= Seq::<u8>::empty());
        assert(out@ =~= spec_urlencode_from(ts, 0));
    }
    out
}

} // verus!
