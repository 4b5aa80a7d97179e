use vstd::prelude::*;

use crate::BLOCK_MAX;
use crate::digest::sha1_digest;
use crate::digest::sha1_of;
use crate::error::ClientError;
use crate::peer::Message;
use crate::peer::MessageTag;
use crate::peer::Piece;
use crate::peer::Request;
use crate::peer::spec_read_be32_at;
use crate::torrent::File;
use crate::torrent::Hashes;
use crate::torrent::Info;
use crate::torrent::file_views;
use crate::torrent::spec_files_total;
use crate::torrent::spec_piece_count;
use crate::torrent::spec_piece_size;

verus! {

/// Where a download session stands.
#[derive(Clone, Copy, Debug, PartialEq, Eq, Structural)]
pub enum SessionPhase {
    /// The first frame, the peer's bitfield, has not arrived yet.
    AwaitBitfield,
    /// Interested is owed, and the peer's unchoke not yet received.
    AwaitUnchoke,
    /// Blocks are being requested and assembled, one at a time.
    Downloading,
    /// Every piece has been verified and handed out.
    Completed,
    /// A fatal fault ended the session; nothing more will be requested.
    Failed,
}

/// What the caller must do next to drive the session.
pub enum Step {
    /// Read one frame and hand it in; the peer owes its bitfield.
    AwaitBitfield,
    /// Send an Interested frame (empty payload), then read one frame.
    SendInterested,
    /// Send a Request frame with this payload, then read one frame.
    SendRequest(Request),
    /// The download is complete.
    Finished,
    /// The session failed; make no further request.
    Halted,
}

/// A verified piece ready for the output sink: its index, its byte offset in
/// the content, and its bytes, whose SHA-1 digest equals the descriptor's.
#[derive(Debug, PartialEq)]
pub struct FlushCmd {
    pub piece: usize,
    pub offset: usize,
    pub bytes: Vec<u8>,
}

/// The sequential per-connection download state machine: it decides, frame
/// by frame, what to request next and when a piece is complete and
/// verified. The caller performs the sends and reads around it.
pub struct DownloadSession {
    /// Bytes per piece, from the descriptor.
    pub piece_length: usize,
    /// Total content bytes, from the descriptor.
    pub total_length: usize,
    /// The descriptor's piece hashes.
    pub pieces: Hashes,
    /// Where the session stands.
    pub phase: SessionPhase,
    /// The piece being assembled.
    pub piece: usize,
    /// The next block to request within that piece.
    pub block: usize,
    /// The blocks received so far for that piece, in offset order.
    pub acc: Vec<u8>,
}

impl DownloadSession {
    /// The byte length of the piece being assembled.
    pub open spec fn spec_psize(&self) -> int {
        spec_piece_size(self.total_length as int, self.piece_length as int, self.piece as int)
    }

    /// How many blocks that piece takes.
    pub open spec fn spec_nblocks(&self) -> int {
        spec_piece_count(self.spec_psize(), BLOCK_MAX as int)
    }

    /// The byte length of the block about to be requested.
    pub open spec fn spec_bsize(&self) -> int {
        spec_piece_size(self.spec_psize(), BLOCK_MAX as int, self.block as int)
    }

    /// Validity of the session: a positive piece length within the wire
    /// format's 32-bit fields, a piece count to match, and, while a piece is
    /// being assembled, a current piece and block in range with exactly the
    /// finished blocks accumulated.
    pub open spec fn wf(&self) -> bool {
        &&& 0 < self.piece_length <= u32::MAX
        &&& self.pieces@.len() == spec_piece_count(
            self.total_length as int,
            self.piece_length as int,
        )
        &&& self.pieces@.len() <= u32::MAX
        &&& self.phase is Downloading ==> {
            &&& self.piece < self.pieces@.len()
            &&& self.block < self.spec_nblocks()
            &&& self.acc@.len() == self.block as int * BLOCK_MAX as int
        }
    }

    /// Open a session for a parsed descriptor. The wire format carries piece
    /// indices and offsets as 32-bit values, so the piece count and piece
    /// length must fit them.
    pub fn new(info: &Info) -> (r: Self)
        requires
            info.wf(),
            info.piece_length <= u32::MAX,
            info.pieces@.len() <= u32::MAX,
        ensures
            r.wf(),
            r.phase == SessionPhase::AwaitBitfield,
            r.piece_length == info.piece_length,
            r.total_length as int == info.spec_total(),
            r.pieces@ == info.pieces@,
    {
        let total_length = info.total_length();
        let mut hs: Vec<[u8; 20]> = Vec::new();
        let n = info.pieces.0.len();
        for i in 0..n
            invariant
                n == info.pieces.0@.len(),
                hs@.len() == i,
                forall|j: int| 0 <= j < i ==> hs@[j] == info.pieces.0@[j],
        {
            hs.push(info.pieces.0[i]);
        }
        let pieces = Hashes(hs);
        proof {
            assert(pieces@ =~= info.pieces@);
        }
        DownloadSession {
            piece_length: info.piece_length,
            total_length,
            pieces,
            phase: SessionPhase::AwaitBitfield,
            piece: 0,
            block: 0,
            acc: Vec::new(),
        }
    }

    /// What the caller must do next, as a pure function of the state: read
    /// the bitfield, send Interested, request the current block, or stop.
    /// A failed session never yields another request.
    pub fn next_step(&self) -> (r: Step)
        requires
            self.wf(),
        ensures
            match self.phase {
                SessionPhase::AwaitBitfield => r is AwaitBitfield,
                SessionPhase::AwaitUnchoke => r is SendInterested,
                SessionPhase::Downloading => r matches Step::SendRequest(q) && q.index as int
                    == self.piece as int && q.begin as int == self.block as int * BLOCK_MAX as int
                    && q.length as int == self.spec_bsize(),
                SessionPhase::Completed => r is Finished,
                SessionPhase::Failed => r is Halted,
            },
    {
        match self.phase {
            SessionPhase::AwaitBitfield => Step::AwaitBitfield,
            SessionPhase::AwaitUnchoke => Step::SendInterested,
            SessionPhase::Downloading => {
                let psize = self.cur_piece_size();
                proof {
                    crate::torrent::lemma_piece_offset_in_total(
                        self.spec_psize(),
                        BLOCK_MAX as int,
                        self.block as int,
                    );
                }
                let begin = self.block * BLOCK_MAX;
                let remaining = psize - begin;
                let length = if remaining < BLOCK_MAX {
                    remaining
                } else {
                    BLOCK_MAX
                };
                proof {
                    assert((self.block as int + 1) * (BLOCK_MAX as int) == self.block as int
                        * (BLOCK_MAX as int) + BLOCK_MAX as int) by (nonlinear_arith);
                    assert(begin < psize);
                    assert(length as int == self.spec_bsize());
                }
                Step::SendRequest(
                    Request::new(self.piece as u32, begin as u32, length as u32),
                )
            },
            SessionPhase::Completed => Step::Finished,
            SessionPhase::Failed => Step::Halted,
        }
    }

    /// The byte length of the piece being assembled.
    fn cur_piece_size(&self) -> (r: usize)
        requires
            self.wf(),
            self.phase is Downloading,
        ensures
            r as int == self.spec_psize(),
            r >= 1,
            r <= self.piece_length,
    {
        proof {
            crate::torrent::lemma_piece_offset_in_total(
                self.total_length as int,
                self.piece_length as int,
                self.piece as int,
            );
        }
        let offset = self.piece * self.piece_length;
        let remaining = self.total_length - offset;
        proof {
            assert((self.piece as int + 1) * (self.piece_length as int) == self.piece as int
                * (self.piece_length as int) + self.piece_length as int) by (nonlinear_arith);
        }
        if remaining < self.piece_length {
            remaining
        } else {
            self.piece_length
        }
    }
}

/// Whether a Piece frame's payload answers the block the session just
/// requested: the named piece index and offset match, and the block bytes
/// have exactly the requested length.
pub open spec fn spec_block_matches(s: DownloadSession, payload: Seq<u8>) -> bool {
    &&& payload.len() >= 8
    &&& spec_read_be32_at(payload, 0) == s.piece as int
    &&& spec_read_be32_at(payload, 4) == s.block as int * BLOCK_MAX as int
    &&& payload.skip(8).len() == s.spec_bsize()
}

impl DownloadSession {
    /// Feed one inbound frame into the state machine. Exactly the expected
    /// frame advances it: the bitfield first, then an empty unchoke, then
    /// one Piece frame per outstanding request, whose index, offset and
    /// length must match the request. A completed piece is verified against
    /// the descriptor's hash and handed out for flushing. Any fault ends the
    /// session: the phase becomes `Failed` and no request follows.
    #[verifier::loop_isolation(false)]
    pub fn on_message(&mut self, msg: &Message) -> (r: Result<Option<FlushCmd>, ClientError>)
        requires
            old(self).wf(),
        ensures
            final(self).wf(),
            final(self).piece_length == old(self).piece_length,
            final(self).total_length == old(self).total_length,
            final(self).pieces@ == old(self).pieces@,
            match old(self).phase {
                SessionPhase::AwaitBitfield => if msg.tag == MessageTag::Bitfield {
                    r == Ok::<Option<FlushCmd>, ClientError>(None) && final(self).phase
                        == SessionPhase::AwaitUnchoke
                } else {
                    r == Err::<Option<FlushCmd>, ClientError>(ClientError::ProtocolViolation)
                        && final(self).phase == SessionPhase::Failed
                },
                SessionPhase::AwaitUnchoke => if msg.tag == MessageTag::Unchoke
                    && msg.payload@.len() == 0 {
                    &&& r == Ok::<Option<FlushCmd>, ClientError>(None)
                    &&& if old(self).pieces@.len() == 0 {
                        final(self).phase == SessionPhase::Completed
                    } else {
                        &&& final(self).phase == SessionPhase::Downloading
                        &&& final(self).piece == 0
                        &&& final(self).block == 0
                        &&& final(self).acc@ == Seq::<u8>::empty()
                    }
                } else {
                    r == Err::<Option<FlushCmd>, ClientError>(ClientError::ProtocolViolation)
                        && final(self).phase == SessionPhase::Failed
                },
                SessionPhase::Downloading => if msg.tag != MessageTag::Piece {
                    r == Err::<Option<FlushCmd>, ClientError>(ClientError::ProtocolViolation)
                        && final(self).phase == SessionPhase::Failed
                } else if !spec_block_matches(*old(self), msg.payload@) {
                    r == Err::<Option<FlushCmd>, ClientError>(ClientError::UnexpectedPieceData)
                        && final(self).phase == SessionPhase::Failed
                } else {
                    let acc2 = old(self).acc@ + msg.payload@.skip(8);
                    if old(self).block + 1 < old(self).spec_nblocks() {
                        &&& r == Ok::<Option<FlushCmd>, ClientError>(None)
                        &&& final(self).phase == SessionPhase::Downloading
                        &&& final(self).piece == old(self).piece
                        &&& final(self).block == old(self).block + 1
                        &&& final(self).acc@ == acc2
                    } else if sha1_of(acc2) != old(self).pieces@[old(self).piece as int] {
                        r == Err::<Option<FlushCmd>, ClientError>(ClientError::PieceHashMismatch)
                            && final(self).phase == SessionPhase::Failed
                    } else {
                        &&& r is Ok && r.unwrap() is Some
                        &&& {
                            let f = r.unwrap().unwrap();
                            &&& f.piece == old(self).piece
                            &&& f.offset as int == old(self).piece as int * old(
                                self,
                            ).piece_length as int
                            &&& f.bytes@ == acc2
                            &&& f.bytes@.len() == old(self).spec_psize()
                            &&& sha1_of(f.bytes@) == old(self).pieces@[old(self).piece as int]
                        }
                        &&& if old(self).piece as int + 1 < old(self).pieces@.len() {
                            &&& final(self).phase == SessionPhase::Downloading
                            &&& final(self).piece == old(self).piece + 1
                            &&& final(self).block == 0
                            &&& final(self).acc@ == Seq::<u8>::empty()
                        } else {
                            final(self).phase == SessionPhase::Completed
                        }
                    }
                },
                SessionPhase::Completed => r == Err::<Option<FlushCmd>, ClientError>(
                    ClientError::ProtocolViolation,
                ) && *final(self) == *old(self),
                SessionPhase::Failed => r == Err::<Option<FlushCmd>, ClientError>(
                    ClientError::ProtocolViolation,
                ) && *final(self) == *old(self),
            },
    {
        match self.phase {
            SessionPhase::AwaitBitfield => {
                if msg.tag == MessageTag::Bitfield {
                    self.phase = SessionPhase::AwaitUnchoke;
                    Ok(None)
                } else {
                    self.phase = SessionPhase::Failed;
                    Err(ClientError::ProtocolViolation)
                }
            },
            SessionPhase::AwaitUnchoke => {
                if msg.tag == MessageTag::Unchoke && msg.payload.len() == 0 {
                    if self.pieces.0.len() == 0 {
                        self.phase = SessionPhase::Completed;
                    } else {
                        self.phase = SessionPhase::Downloading;
                        self.piece = 0;
                        self.block = 0;
                        self.acc = Vec::new();
                        proof {
                            crate::torrent::lemma_below_count_iff_offset_below(
                                self.total_length as int,
                                self.piece_length as int,
                                0,
                            );
                            crate::torrent::lemma_below_count_iff_offset_below(
                                self.spec_psize(),
                                BLOCK_MAX as int,
                                0,
                            );
                        }
                    }
                    Ok(None)
                } else {
                    self.phase = SessionPhase::Failed;
                    Err(ClientError::ProtocolViolation)
                }
            },
            SessionPhase::Downloading => {
                if !(msg.tag == MessageTag::Piece) {
                    self.phase = SessionPhase::Failed;
                    return Err(ClientError::ProtocolViolation);
                }
                let p = match Piece::from_bytes(&msg.payload) {
                    Some(p) => p,
                    None => {
                        self.phase = SessionPhase::Failed;
                        return Err(ClientError::UnexpectedPieceData);
                    },
                };
                let psize = self.cur_piece_size();
                proof {
                    crate::torrent::lemma_piece_offset_in_total(
                        self.spec_psize(),
                        BLOCK_MAX as int,
                        self.block as int,
                    );
                }
                let begin = self.block * BLOCK_MAX;
                let remaining = psize - begin;
                let bsize = if remaining < BLOCK_MAX {
                    remaining
                } else {
                    BLOCK_MAX
                };
                proof {
                    assert((self.block as int + 1) * (BLOCK_MAX as int) == self.block as int
                        * (BLOCK_MAX as int) + BLOCK_MAX as int) by (nonlinear_arith);
                    assert(bsize as int == self.spec_bsize());
                }
                if (p.index as u64) != (self.piece as u64) || (p.begin as u64) != (begin as u64)
                    || p.block.len() != bsize {
                    self.phase = SessionPhase::Failed;
                    return Err(ClientError::UnexpectedPieceData);
                }
                let mut blk = p.block;
                self.acc.append(&mut blk);
                let ghost acc2 = self.acc@;
                if remaining > BLOCK_MAX {
                    self.block = self.block + 1;
                    proof {
                        crate::torrent::lemma_below_count_iff_offset_below(
                            self.spec_psize(),
                            BLOCK_MAX as int,
                            self.block as int,
                        );
                    }
                    Ok(None)
                } else {
                    proof {
                        assert(self.acc@.len() == self.spec_psize());
                    }
                    let digest = sha1_digest(&self.acc);
                    let expected = &self.pieces.0[self.piece];
                    let mut matches = true;
                    for k in 0..20
                        invariant
                            matches <==> (forall|j: int|
                                0 <= j < k ==> digest@[j] == expected@[j]),
                    {
                        if digest[k] != expected[k] {
                            matches = false;
                        }
                    }
                    proof {
                        if matches {
                            assert(digest@ =~= expected@);
                        } else {
                            assert(digest@ != expected@);
                        }
                        assert(self.pieces@[self.piece as int] == expected@);
                    }
                    if !matches {
                        self.phase = SessionPhase::Failed;
                        return Err(ClientError::PieceHashMismatch);
                    }
                    proof {
                        crate::torrent::lemma_piece_offset_in_total(
                            self.total_length as int,
                            self.piece_length as int,
                            self.piece as int,
                        );
                    }
                    let offset = self.piece * self.piece_length;
                    let bytes = crate::torrent::copy_bytes(&self.acc);
                    let flush = FlushCmd { piece: self.piece, offset, bytes };
                    if self.piece + 1 < self.pieces.0.len() {
                        self.piece = self.piece + 1;
                        self.block = 0;
                        self.acc = Vec::new();
                        proof {
                            crate::torrent::lemma_below_count_iff_offset_below(
                                self.total_length as int,
                                self.piece_length as int,
                                self.piece as int,
                            );
                            crate::torrent::lemma_below_count_iff_offset_below(
                                self.spec_psize(),
                                BLOCK_MAX as int,
                                0,
                            );
                        }
                    } else {
                        self.phase = SessionPhase::Completed;
                    }
                    Ok(Some(flush))
                }
            },
            SessionPhase::Completed => Err(ClientError::ProtocolViolation),
            SessionPhase::Failed => Err(ClientError::ProtocolViolation),
        }
    }
}

/// The whole downloaded content beside its file layout, ready to be split
/// into per-file byte ranges.
pub struct Downloaded {
    pub bytes: Vec<u8>,
    pub files: Vec<File>,
}

impl Downloaded {
    /// Validity: the files' lengths tile the content exactly.
    pub open spec fn wf(&self) -> bool {
        spec_files_total(file_views(self.files@), 0) == self.bytes@.len()
    }

    /// Walk the per-file byte ranges.
    pub fn iter<'d>(&'d self) -> (r: DownloadedIter<'d>)
        requires
            self.wf(),
        ensures
            r.wf(),
            r.idx == 0,
    {
        DownloadedIter::new(self)
    }
}

/// A cursor over the files of a [`Downloaded`], yielding each file's byte
/// range of the flat content in order.
pub struct DownloadedIter<'d> {
    pub downloaded: &'d Downloaded,
    pub idx: usize,
    pub offset: usize,
}

impl<'d> DownloadedIter<'d> {
    /// Validity: the cursor's offset is the summed length of the files
    /// already yielded.
    pub open spec fn wf(&self) -> bool {
        &&& self.downloaded.wf()
        &&& self.idx <= self.downloaded.files@.len()
        &&& self.offset as int + spec_files_total(
            file_views(self.downloaded.files@),
            self.idx as int,
        ) == self.downloaded.bytes@.len()
    }

    /// Start at the first file.
    pub fn new(downloaded: &'d Downloaded) -> (r: Self)
        requires
            downloaded.wf(),
        ensures
            r.wf(),
            r.idx == 0,
            r.offset == 0,
            r.downloaded == downloaded,
    {
        DownloadedIter { downloaded, idx: 0, offset: 0 }
    }

    /// The next file's byte range `(offset, length)` of the flat content,
    /// or `None` once every file has been yielded.
    pub fn next(&mut self) -> (r: Option<(usize, usize)>)
        requires
            old(self).wf(),
        ensures
            final(self).wf(),
            final(self).downloaded == old(self).downloaded,
            match r {
                Some((offset, length)) => {
                    &&& old(self).idx < old(self).downloaded.files@.len()
                    &&& offset == old(self).offset
                    &&& length as int == file_views(old(self).downloaded.files@)[old(
                        self,
                    ).idx as int].length
                    &&& final(self).idx == old(self).idx + 1
                    &&& final(self).offset == old(self).offset + length
                    &&& offset + length <= old(self).downloaded.bytes@.len()
                },
                None => old(self).idx == old(self).downloaded.files@.len() && *final(self)
                    == *old(self),
            },
    {
        let fs = &self.downloaded.files;
        let bl = self.downloaded.bytes.len();
        if self.idx >= fs.len() {
            return None;
        }
        let ghost fv = file_views(self.downloaded.files@);
        proof {
            assert(forall|j: int| 0 <= j < fv.len() ==> (#[trigger] fv[j].length) >= 0);
            crate::torrent::lemma_files_total_nonneg(fv, self.idx as int + 1);
            assert(fv[self.idx as int].length == fs@[self.idx as int]@.length);
        }
        let offset = self.offset;
        let length = fs[self.idx].length;
        self.idx = self.idx + 1;
        self.offset = self.offset + length;
        Some((offset, length))
    }
}

} // verus!
