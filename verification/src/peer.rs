use vstd::prelude::*;

use crate::error::ClientError;

verus! {

/// The 19 bytes of the protocol name, "BitTorrent protocol".
pub open spec fn spec_protocol_name() -> Seq<u8> {
    seq![
        66u8,
        105,
        116,
        84,
        111,
        114,
        114,
        101,
        110,
        116,
        32,
        112,
        114,
        111,
        116,
        111,
        99,
        111,
        108,
    ]
}

/// The protocol-name bytes as a fixed array.
fn protocol_name_bytes() -> (r: [u8; 19])
    ensures
        r@ == spec_protocol_name(),
{
    let r: [u8; 19] = [
        66,
        105,
        116,
        84,
        111,
        114,
        114,
        101,
        110,
        116,
        32,
        112,
        114,
        111,
        116,
        111,
        99,
        111,
        108,
    ];
    assert(r@ =~= spec_protocol_name());
    r
}

/// The fixed 68-byte record exchanged once per connection: a length byte
/// (always 19), the protocol name, 8 reserved bytes, the info-hash, and the
/// peer id.
pub struct Handshake {
    pub length: u8,
    pub bittorrent: [u8; 19],
    pub reserved: [u8; 8],
    pub info_hash: [u8; 20],
    pub peer_id: [u8; 20],
}

/// The 68-byte wire layout of a handshake record.
pub open spec fn spec_handshake_bytes(h: Handshake) -> Seq<u8> {
    seq![h.length] + h.bittorrent@ + h.reserved@ + h.info_hash@ + h.peer_id@
}

/// Whether a handshake reply is acceptable against the locally computed
/// info-hash: correct length byte, correct protocol name, matching hash.
pub open spec fn spec_reply_ok(h: Handshake, expected: Seq<u8>) -> bool {
    h.length == 19 && h.bittorrent@ == spec_protocol_name() && h.info_hash@ == expected
}

impl Handshake {
    /// Build the local handshake for `info_hash`, identifying as `peer_id`.
    pub fn new(info_hash: [u8; 20], peer_id: [u8; 20]) -> (r: Self)
        ensures
            r.length == 19,
            r.bittorrent@ == spec_protocol_name(),
            r.reserved@ =~= seq![0u8, 0, 0, 0, 0, 0, 0, 0],
            r.info_hash@ == info_hash@,
            r.peer_id@ == peer_id@,
    {
        Handshake {
            length: 19,
            bittorrent: protocol_name_bytes(),
            reserved: [0, 0, 0, 0, 0, 0, 0, 0],
            info_hash,
            peer_id,
        }
    }

    /// Serialize into the fixed 68-byte wire layout.
    pub fn to_bytes(&self) -> (r: Vec<u8>)
        ensures
            r@ == spec_handshake_bytes(*self),
            r@.len() == 68,
    {
        let mut out: Vec<u8> = Vec::new();
        out.push(self.length);
        let ghost m1 = out@;
        for i in 0..19
            invariant
                out@ =~= m1 + self.bittorrent@.subrange(0, i as int),
        {
            out.push(self.bittorrent[i]);
            proof {
                assert(out@ =~= m1 + self.bittorrent@.subrange(0, i + 1));
            }
        }
        proof {
            assert(self.bittorrent@.subrange(0, 19) =~= self.bittorrent@);
        }
        let ghost m2 = out@;
        for i in 0..8
            invariant
                out@ =~= m2 + self.reserved@.subrange(0, i as int),
        {
            out.push(self.reserved[i]);
            proof {
                assert(out@ =~= m2 + self.reserved@.subrange(0, i + 1));
            }
        }
        proof {
            assert(self.reserved@.subrange(0, 8) =~= self.reserved@);
        }
        let ghost m3 = out@;
        for i in 0..20
            invariant
                out@ =~= m3 + self.info_hash@.subrange(0, i as int),
        {
            out.push(self.info_hash[i]);
            proof {
                assert(out@ =~= m3 + self.info_hash@.subrange(0, i + 1));
            }
        }
        proof {
            assert(self.info_hash@.subrange(0, 20) =~= self.info_hash@);
        }
        let ghost m4 = out@;
        for i in 0..20
            invariant
                out@ =~= m4 + self.peer_id@.subrange(0, i as int),
        {
            out.push(self.peer_id[i]);
            proof {
                assert(out@ =~= m4 + self.peer_id@.subrange(0, i + 1));
            }
        }
        proof {
            assert(self.peer_id@.subrange(0, 20) =~= self.peer_id@);
            assert(out@ =~= spec_handshake_bytes(*self));
        }
        out
    }

    /// Parse the fixed 68-byte wire layout read back from the peer.
    pub fn from_bytes(bytes: &Vec<u8>) -> (r: Self)
        requires
            bytes@.len() == 68,
        ensures
            spec_handshake_bytes(r) == bytes@,
            r.length == bytes@[0],
            r.bittorrent@ == bytes@.subrange(1, 20),
            r.info_hash@ == bytes@.subrange(28, 48),
            r.peer_id@ == bytes@.subrange(48, 68),
    {
        let length = bytes[0];
        let bittorrent: [u8; 19] = [
            bytes[1],
            bytes[2],
            bytes[3],
            bytes[4],
            bytes[5],
            bytes[6],
            bytes[7],
            bytes[8],
            bytes[9],
            bytes[10],
            bytes[11],
            bytes[12],
            bytes[13],
            bytes[14],
            bytes[15],
            bytes[16],
            bytes[17],
            bytes[18],
            bytes[19],
        ];
        let reserved: [u8; 8] = [
            bytes[20],
            bytes[21],
            bytes[22],
            bytes[23],
            bytes[24],
            bytes[25],
            bytes[26],
            bytes[27],
        ];
        let info_hash: [u8; 20] = [
            bytes[28],
            bytes[29],
            bytes[30],
            bytes[31],
            bytes[32],
            bytes[33],
            bytes[34],
            bytes[35],
            bytes[36],
            bytes[37],
            bytes[38],
            bytes[39],
            bytes[40],
            bytes[41],
            bytes[42],
            bytes[43],
            bytes[44],
            bytes[45],
            bytes[46],
            bytes[47],
        ];
        let peer_id: [u8; 20] = [
            bytes[48],
            bytes[49],
            bytes[50],
            bytes[51],
            bytes[52],
            bytes[53],
            bytes[54],
            bytes[55],
            bytes[56],
            bytes[57],
            bytes[58],
            bytes[59],
            bytes[60],
            bytes[61],
            bytes[62],
            bytes[63],
            bytes[64],
            bytes[65],
            bytes[66],
            bytes[67],
        ];
        let r = Handshake { length, bittorrent, reserved, info_hash, peer_id };
        proof {
            assert(r.bittorrent@ =~= bytes@.subrange(1, 20));
            assert(r.reserved@ =~= bytes@.subrange(20, 28));
            assert(r.info_hash@ =~= bytes@.subrange(28, 48));
            assert(r.peer_id@ =~= bytes@.subrange(48, 68));
            assert(spec_handshake_bytes(r) =~= bytes@);
        }
        r
    }

    /// Validate a handshake reply: the length byte must be 19, the protocol
    /// name must match, and the info-hash must equal the locally computed
    /// one. Any mismatch is `HandshakeFailed`; the caller abandons the
    /// connection.
    pub fn verify_reply(reply: &Handshake, expected_hash: &[u8; 20]) -> (r: Result<
        (),
        ClientError,
    >)
        ensures
            r is Ok <==> spec_reply_ok(*reply, expected_hash@),
            r is Err ==> r == Err::<(), ClientError>(ClientError::HandshakeFailed),
    {
        if reply.length != 19 {
            return Err(ClientError::HandshakeFailed);
        }
        let proto = protocol_name_bytes();
        for i in 0..19
            invariant
                proto@ == spec_protocol_name(),
                forall|j: int| 0 <= j < i ==> reply.bittorrent@[j] == spec_protocol_name()[j],
        {
            if reply.bittorrent[i] != proto[i] {
                return Err(ClientError::HandshakeFailed);
            }
        }
        proof {
            assert(reply.bittorrent@ =~= spec_protocol_name());
        }
        for i in 0..20
            invariant
                forall|j: int| 0 <= j < i ==> reply.info_hash@[j] == expected_hash@[j],
        {
            if reply.info_hash[i] != expected_hash[i] {
                return Err(ClientError::HandshakeFailed);
            }
        }
        proof {
            assert(reply.info_hash@ =~= expected_hash@);
        }
        Ok(())
    }
}

/// The ten message kinds of the peer wire protocol.
#[derive(Clone, Copy, Debug, PartialEq, Eq, Structural)]
pub enum MessageTag {
    Choke,
    Unchoke,
    Interested,
    NotInterested,
    Have,
    Bitfield,
    Request,
    Piece,
    Cancel,
    Port,
}

impl MessageTag {
    /// The tag's wire byte.
    pub open spec fn spec_byte(self) -> u8 {
        match self {
            MessageTag::Choke => 0,
            MessageTag::Unchoke => 1,
            MessageTag::Interested => 2,
            MessageTag::NotInterested => 3,
            MessageTag::Have => 4,
            MessageTag::Bitfield => 5,
            MessageTag::Request => 6,
            MessageTag::Piece => 7,
            MessageTag::Cancel => 8,
            MessageTag::Port => 9,
        }
    }

    /// The tag a wire byte names, if any.
    pub open spec fn spec_from_byte(b: u8) -> Option<MessageTag> {
        if b == 0 {
            Some(MessageTag::Choke)
        } else if b == 1 {
            Some(MessageTag::Unchoke)
        } else if b == 2 {
            Some(MessageTag::Interested)
        } else if b == 3 {
            Some(MessageTag::NotInterested)
        } else if b == 4 {
            Some(MessageTag::Have)
        } else if b == 5 {
            Some(MessageTag::Bitfield)
        } else if b == 6 {
            Some(MessageTag::Request)
        } else if b == 7 {
            Some(MessageTag::Piece)
        } else if b == 8 {
            Some(MessageTag::Cancel)
        } else if b == 9 {
            Some(MessageTag::Port)
        } else {
            None
        }
    }

    /// Exec counterpart of [`MessageTag::spec_byte`].
    pub fn byte(self) -> (r: u8)
        ensures
            r == self.spec_byte(),
            Self::spec_from_byte(r) == Some(self),
    {
        match self {
            MessageTag::Choke => 0,
            MessageTag::Unchoke => 1,
            MessageTag::Interested => 2,
            MessageTag::NotInterested => 3,
            MessageTag::Have => 4,
            MessageTag::Bitfield => 5,
            MessageTag::Request => 6,
            MessageTag::Piece => 7,
            MessageTag::Cancel => 8,
            MessageTag::Port => 9,
        }
    }

    /// Exec counterpart of [`MessageTag::spec_from_byte`].
    pub fn from_byte(b: u8) -> (r: Option<MessageTag>)
        ensures
            r == Self::spec_from_byte(b),
    {
        if b == 0 {
            Some(MessageTag::Choke)
        } else if b == 1 {
            Some(MessageTag::Unchoke)
        } else if b == 2 {
            Some(MessageTag::Interested)
        } else if b == 3 {
            Some(MessageTag::NotInterested)
        } else if b == 4 {
            Some(MessageTag::Have)
        } else if b == 5 {
            Some(MessageTag::Bitfield)
        } else if b == 6 {
            Some(MessageTag::Request)
        } else if b == 7 {
            Some(MessageTag::Piece)
        } else if b == 8 {
            Some(MessageTag::Cancel)
        } else if b == 9 {
            Some(MessageTag::Port)
        } else {
            None
        }
    }
}

/// One framed message: a tag and its payload bytes.
#[derive(Debug, PartialEq)]
pub struct Message {
    pub tag: MessageTag,
    pub payload: Vec<u8>,
}

/// Ceiling on the declared frame length (tag byte plus payload), guarding
/// against a hostile peer driving unbounded buffer growth.
pub const MAX_FRAME: usize = 65536;

/// The big-endian bytes of a 32-bit value.
pub open spec fn spec_be32(n: int) -> Seq<u8> {
    seq![
        (n / 0x1000000 % 256) as u8,
        (n / 0x10000 % 256) as u8,
        (n / 0x100 % 256) as u8,
        (n % 256) as u8,
    ]
}

/// The 32-bit big-endian value stored at `pos`.
pub open spec fn spec_read_be32_at(s: Seq<u8>, pos: int) -> int {
    s[pos] * 0x1000000 + s[pos + 1] * 0x10000 + s[pos + 2] * 0x100 + s[pos + 3]
}

/// Reading back the big-endian bytes of a 32-bit value yields the value.
pub proof fn lemma_be32_round_trip(n: u32)
    ensures
        spec_read_be32_at(spec_be32(n as int), 0) == n as int,
{
    assert(n / 0x1000000 % 256 * 0x1000000 + n / 0x10000 % 256 * 0x10000 + n / 0x100 % 256
        * 0x100 + n % 256 == n) by (bit_vector);
}

/// The wire bytes of one frame: a big-endian length (tag byte plus payload),
/// the tag byte, then the payload.
pub open spec fn spec_frame_bytes(tag: MessageTag, payload: Seq<u8>) -> Seq<u8> {
    spec_be32(payload.len() as int + 1) + seq![tag.spec_byte()] + payload
}

/// What the framing decoder does with a buffered byte sequence.
pub enum SpecFrameOutcome {
    /// Fewer than 5 bytes, or fewer than the declared frame: read more.
    NeedMore,
    /// The declared length exceeds [`MAX_FRAME`].
    TooLarge,
    /// The declared length is zero, leaving no room for the tag byte.
    ZeroLength,
    /// The tag byte names no message kind.
    UnknownTag,
    /// A whole frame: its tag, its payload, and the bytes left in the buffer.
    Frame(MessageTag, Seq<u8>, Seq<u8>),
}

/// The framing decoder's decision on a buffer, as the format prescribes:
/// with fewer than 5 bytes buffered nothing is consumed; a declared length
/// over the ceiling or of zero is rejected before any payload byte is read;
/// otherwise the frame is extracted once `4 + length` bytes have arrived.
pub open spec fn spec_frame_decode(s: Seq<u8>) -> SpecFrameOutcome {
    if s.len() < 5 {
        SpecFrameOutcome::NeedMore
    } else {
        let l = spec_read_be32_at(s, 0);
        if l > MAX_FRAME {
            SpecFrameOutcome::TooLarge
        } else if l == 0 {
            SpecFrameOutcome::ZeroLength
        } else if s.len() < 4 + l {
            SpecFrameOutcome::NeedMore
        } else {
            match MessageTag::spec_from_byte(s[4]) {
                Some(tag) => SpecFrameOutcome::Frame(tag, s.subrange(5, 4 + l), s.skip(4 + l)),
                None => SpecFrameOutcome::UnknownTag,
            }
        }
    }
}

/// The streaming framing codec: turns an accumulating byte buffer into
/// discrete tagged messages and back.
pub struct MessageFramer;

impl MessageFramer {
    /// Try to extract one frame from the front of `src`. `Ok(None)` means
    /// more bytes are needed and nothing was consumed; on `Ok(Some(_))` the
    /// consumed frame has been removed from `src`; on any error `src` is
    /// left untouched and the caller abandons the connection.
    pub fn decode(&mut self, src: &mut Vec<u8>) -> (r: Result<Option<Message>, ClientError>)
        ensures
            match spec_frame_decode(old(src)@) {
                SpecFrameOutcome::NeedMore => r is Ok && r.unwrap() is None && final(src)@ == old(
                    src,
                )@,
                SpecFrameOutcome::TooLarge => r == Err::<Option<Message>, ClientError>(
                    ClientError::FrameTooLarge,
                ) && final(src)@ == old(src)@,
                SpecFrameOutcome::ZeroLength => r == Err::<Option<Message>, ClientError>(
                    ClientError::ZeroLengthFrame,
                ) && final(src)@ == old(src)@,
                SpecFrameOutcome::UnknownTag => r == Err::<Option<Message>, ClientError>(
                    ClientError::UnknownMessageTag,
                ) && final(src)@ == old(src)@,
                SpecFrameOutcome::Frame(tag, payload, rest) => r is Ok && r.unwrap() is Some && ({
                    let m = r.unwrap().unwrap();
                    m.tag == tag && m.payload@ == payload && final(src)@ == rest
                }),
            },
    {
        let n = src.len();
        if n < 5 {
            return Ok(None);
        }
        let length: usize = (src[0] as usize) * 0x1000000 + (src[1] as usize) * 0x10000 + (
        src[2] as usize) * 0x100 + (src[3] as usize);
        assert(length == spec_read_be32_at(src@, 0));
        if length > MAX_FRAME {
            return Err(ClientError::FrameTooLarge);
        }
        if length == 0 {
            return Err(ClientError::ZeroLengthFrame);
        }
        if n < 4 + length {
            return Ok(None);
        }
        let tag = match MessageTag::from_byte(src[4]) {
            Some(t) => t,
            None => {
                return Err(ClientError::UnknownMessageTag);
            },
        };
        let mut payload: Vec<u8> = Vec::new();
        let plen = length - 1;
        for j in 0..plen
            invariant
                n == src@.len(),
                5 + plen <= n,
                payload@ =~= src@.subrange(5, 5 + j as int),
        {
            payload.push(src[5 + j]);
            proof {
                assert(payload@ =~= src@.subrange(5, 5 + j + 1));
            }
        }
        let consumed = 4 + length;
        let mut rest: Vec<u8> = Vec::new();
        for j in 0..n - consumed
            invariant
                consumed + (n - consumed) == src@.len(),
                n == src@.len(),
                consumed <= n,
                rest@ =~= src@.subrange(consumed as int, consumed as int + j as int),
        {
            rest.push(src[consumed + j]);
            proof {
                assert(rest@ =~= src@.subrange(consumed as int, consumed as int + j + 1));
            }
        }
        proof {
            assert(payload@ =~= src@.subrange(5, 4 + length as int));
            assert(rest@ =~= src@.skip(4 + length as int));
        }
        *src = rest;
        Ok(Some(Message { tag, payload }))
    }

    /// Append one frame carrying `item` to `dst`. A payload that would
    /// exceed the ceiling is rejected before anything is written, so a
    /// partial frame is never emitted.
    pub fn encode(&mut self, item: &Message, dst: &mut Vec<u8>) -> (r: Result<(), ClientError>)
        ensures
            match r {
                Ok(()) => item.payload@.len() + 1 <= MAX_FRAME && final(dst)@ == old(dst)@
                    + spec_frame_bytes(item.tag, item.payload@),
                Err(e) => item.payload@.len() + 1 > MAX_FRAME && e == ClientError::PayloadTooLarge
                    && final(dst)@ == old(dst)@,
            },
    {
        let plen = item.payload.len();
        if plen >= MAX_FRAME {
            return Err(ClientError::PayloadTooLarge);
        }
        let len32: u32 = (plen + 1) as u32;
        push_be32(len32, dst);
        dst.push(item.tag.byte());
        let ghost mid = dst@;
        for j in 0..plen
            invariant
                plen == item.payload@.len(),
                dst@ =~= mid + item.payload@.subrange(0, j as int),
        {
            dst.push(item.payload[j]);
            proof {
                assert(dst@ =~= mid + item.payload@.subrange(0, j + 1));
            }
        }
        proof {
            assert(item.payload@.subrange(0, plen as int) =~= item.payload@);
            assert(dst@ =~= old(dst)@ + spec_frame_bytes(item.tag, item.payload@));
        }
        Ok(())
    }
}

/// Append the big-endian bytes of `n`.
fn push_be32(n: u32, out: &mut Vec<u8>)
    ensures
        final(out)@ == old(out)@ + spec_be32(n as int),
{
    out.push((n / 0x1000000 % 256) as u8);
    out.push((n / 0x10000 % 256) as u8);
    out.push((n / 0x100 % 256) as u8);
    out.push((n % 256) as u8);
    assert(out@ =~= old(out)@ + spec_be32(n as int));
}

/// Read the 32-bit big-endian value stored at `pos`.
fn read_be32_at(input: &Vec<u8>, pos: usize) -> (r: u32)
    requires
        pos + 4 <= input@.len(),
    ensures
        r as int == spec_read_be32_at(input@, pos as int),
{
    let n = input.len();
    let b0 = input[pos];
    let b1 = input[pos + 1];
    let b2 = input[pos + 2];
    let b3 = input[pos + 3];
    let r: u32 = (b0 as u32) * 0x1000000 + (b1 as u32) * 0x10000 + (b2 as u32) * 0x100 + (
    b3 as u32);
    r
}

/// The fixed 12-byte payload of a block request: piece index, block offset,
/// and block length, each 32-bit big-endian.
pub struct Request {
    pub index: u32,
    pub begin: u32,
    pub length: u32,
}

impl Request {
    /// The request's wire payload.
    pub open spec fn spec_bytes(self) -> Seq<u8> {
        spec_be32(self.index as int) + spec_be32(self.begin as int) + spec_be32(self.length as int)
    }

    /// Build a block request.
    pub fn new(index: u32, begin: u32, length: u32) -> (r: Self)
        ensures
            r.index == index,
            r.begin == begin,
            r.length == length,
    {
        Request { index, begin, length }
    }

    /// Serialize into the fixed 12-byte payload of a Request frame.
    pub fn to_bytes(&self) -> (r: Vec<u8>)
        ensures
            r@ == self.spec_bytes(),
            r@.len() == 12,
    {
        let mut out: Vec<u8> = Vec::new();
        push_be32(self.index, &mut out);
        push_be32(self.begin, &mut out);
        push_be32(self.length, &mut out);
        proof {
            assert(out@ =~= self.spec_bytes());
        }
        out
    }
}

/// The decoded payload of a Piece frame: piece index, block offset, and the
/// block bytes.
pub struct Piece {
    pub index: u32,
    pub begin: u32,
    pub block: Vec<u8>,
}

impl Piece {
    /// Parse the payload of a Piece frame: two 32-bit big-endian fields and
    /// the block bytes after them. A payload shorter than the two fields is
    /// rejected.
    pub fn from_bytes(payload: &Vec<u8>) -> (r: Option<Piece>)
        ensures
            match r {
                Some(p) => payload@.len() >= 8 && p.index as int == spec_read_be32_at(payload@, 0)
                    && p.begin as int == spec_read_be32_at(payload@, 4) && p.block@
                    == payload@.skip(8),
                None => payload@.len() < 8,
            },
    {
        let n = payload.len();
        if n < 8 {
            return None;
        }
        let index = read_be32_at(payload, 0);
        let begin = read_be32_at(payload, 4);
        let mut block: Vec<u8> = Vec::new();
        for j in 0..n - 8
            invariant
                n >= 8,
                n == payload@.len(),
                block@ =~= payload@.subrange(8, 8 + j as int),
        {
            block.push(payload[8 + j]);
            proof {
                assert(block@ =~= payload@.subrange(8, 8 + j + 1));
            }
        }
        proof {
            assert(block@ =~= payload@.skip(8));
        }
        Some(Piece { index, begin, block })
    }

    /// The piece index named by the frame.
    pub fn index(&self) -> (r: u32)
        ensures
            r == self.index,
    {
        self.index
    }

    /// The block offset named by the frame.
    pub fn begin(&self) -> (r: u32)
        ensures
            r == self.begin,
    {
        self.begin
    }

    /// The block bytes carried by the frame.
    pub fn block(&self) -> (r: &Vec<u8>)
        ensures
            r@ == self.block@,
    {
        &self.block
    }
}

/// Framing round-trip law: the wire bytes of any message within the size
/// ceiling, with any bytes buffered after them, decode to that very tag and
/// payload, consuming exactly the frame; and a buffer of fewer than 5 bytes
/// asks for more data without consuming anything.
pub proof fn lemma_frame_round_trip(tag: MessageTag, payload: Seq<u8>, rest: Seq<u8>)
    requires
        payload.len() + 1 <= MAX_FRAME,
    ensures
        spec_frame_decode(spec_frame_bytes(tag, payload) + rest) == SpecFrameOutcome::Frame(
            tag,
            payload,
            rest,
        ),
        rest.len() < 5 ==> spec_frame_decode(rest) == SpecFrameOutcome::NeedMore,
{
    let s = spec_frame_bytes(tag, payload) + rest;
    let l = payload.len() + 1;
    assert(l <= u32::MAX) by {
        assert(MAX_FRAME < u32::MAX);
    }
    lemma_be32_round_trip(l as u32);
    assert(spec_read_be32_at(s, 0) == spec_read_be32_at(spec_be32(l as int), 0)) by {
        assert(s[0] == spec_be32(l as int)[0]);
        assert(s[1] == spec_be32(l as int)[1]);
        assert(s[2] == spec_be32(l as int)[2]);
        assert(s[3] == spec_be32(l as int)[3]);
    }
    assert(spec_read_be32_at(s, 0) == l);
    assert(s[4] == tag.spec_byte());
    assert(MessageTag::spec_from_byte(tag.spec_byte()) == Some(tag));
    assert(s.subrange(5, 4 + l as int) =~= payload);
    assert(s.skip(4 + l as int) =~= rest);
}

/// A frame whose declared length exceeds the ceiling is rejected as soon as
/// its length field is buffered, whatever bytes follow: no payload byte is
/// ever read for it.
pub proof fn lemma_frame_too_large(s: Seq<u8>, t: Seq<u8>)
    requires
        s.len() >= 5,
        spec_read_be32_at(s, 0) > MAX_FRAME,
    ensures
        spec_frame_decode(s) == SpecFrameOutcome::TooLarge,
        spec_frame_decode(s + t) == SpecFrameOutcome::TooLarge,
{
    assert(spec_read_be32_at(s + t, 0) == spec_read_be32_at(s, 0)) by {
        assert((s + t)[0] == s[0]);
        assert((s + t)[1] == s[1]);
        assert((s + t)[2] == s[2]);
        assert((s + t)[3] == s[3]);
    }
}

} // verus!
