use vstd::prelude::*;

use crate::bencode::BencodeValue;
use crate::bencode::SpecBencode;
use crate::bencode::decode;
use crate::bencode::dict_get;
use crate::bencode::encode;
use crate::bencode::entry_views;
use crate::bencode::seq_views;
use crate::bencode::spec_decode_at;
use crate::bencode::spec_dict_get;
use crate::bencode::spec_encode;
use crate::digest::sha1_digest;
use crate::digest::sha1_of;
use crate::error::ClientError;

verus! {

/// The concatenated piece hashes of a descriptor, 20 bytes each.
pub struct Hashes(pub Vec<[u8; 20]>);

impl View for Hashes {
    type V = Seq<Seq<u8>>;

    open spec fn view(&self) -> Seq<Seq<u8>> {
        Seq::new(self.0@.len(), |i: int| self.0@[i]@)
    }
}

/// One file of a multi-file layout: its byte length and its path segments.
pub struct File {
    pub length: usize,
    pub path: Vec<Vec<u8>>,
}

/// The mathematical image of a [`File`].
pub struct SpecFile {
    pub length: int,
    pub path: Seq<Seq<u8>>,
}

impl View for File {
    type V = SpecFile;

    open spec fn view(&self) -> SpecFile {
        SpecFile {
            length: self.length as int,
            path: Seq::new(self.path@.len(), |i: int| self.path@[i]@),
        }
    }
}

/// The layout of the content: one file with its length, or an ordered
/// sequence of files.
pub enum Keys {
    SingleFile { length: usize },
    MultipleFile { files: Vec<File> },
}

/// The mathematical image of a [`Keys`].
pub enum SpecKeys {
    SingleFile { length: int },
    MultipleFile { files: Seq<SpecFile> },
}

impl View for Keys {
    type V = SpecKeys;

    open spec fn view(&self) -> SpecKeys {
        match self {
            Keys::SingleFile { length } => SpecKeys::SingleFile { length: *length as int },
            Keys::MultipleFile { files } => SpecKeys::MultipleFile {
                files: Seq::new(files@.len(), |i: int| files@[i]@),
            },
        }
    }
}

/// The info dictionary of a descriptor, projected into the typed model.
pub struct Info {
    pub name: Vec<u8>,
    pub piece_length: usize,
    pub pieces: Hashes,
    pub keys: Keys,
}

/// The mathematical image of an [`Info`].
pub struct SpecInfo {
    pub name: Seq<u8>,
    pub piece_length: int,
    pub pieces: Seq<Seq<u8>>,
    pub keys: SpecKeys,
}

impl View for Info {
    type V = SpecInfo;

    open spec fn view(&self) -> SpecInfo {
        SpecInfo {
            name: self.name@,
            piece_length: self.piece_length as int,
            pieces: self.pieces@,
            keys: self.keys@,
        }
    }
}

/// A parsed torrent descriptor: the tracker URL and the info dictionary.
pub struct Torrent {
    pub announce: Vec<u8>,
    pub info: Info,
}

/// The mathematical image of a [`Torrent`].
pub struct SpecTorrent {
    pub announce: Seq<u8>,
    pub info: SpecInfo,
}

impl View for Torrent {
    type V = SpecTorrent;

    open spec fn view(&self) -> SpecTorrent {
        SpecTorrent { announce: self.announce@, info: self.info@ }
    }
}

/// The sum of the byte lengths of the files from index `i` on.
pub open spec fn spec_files_total(files: Seq<SpecFile>, i: int) -> int
    decreases files.len() - i,
{
    if i < 0 || i >= files.len() {
        0
    } else {
        files[i].length + spec_files_total(files, i + 1)
    }
}

/// A suffix sum of file lengths is never negative when every length is not.
pub proof fn lemma_files_total_nonneg(files: Seq<SpecFile>, i: int)
    requires
        forall|j: int| 0 <= j < files.len() ==> (#[trigger] files[j].length) >= 0,
    ensures
        spec_files_total(files, i) >= 0,
    decreases files.len() - i,
{
    if 0 <= i < files.len() {
        lemma_files_total_nonneg(files, i + 1);
    }
}

/// The total number of content bytes the descriptor announces.
pub open spec fn spec_total_len(keys: SpecKeys) -> int {
    match keys {
        SpecKeys::SingleFile { length } => length,
        SpecKeys::MultipleFile { files } => spec_files_total(files, 0),
    }
}

/// The number of pieces a content of `total` bytes needs at `plen` bytes per
/// piece: the rounded-up quotient.
pub open spec fn spec_piece_count(total: int, plen: int) -> int {
    total / plen + if total % plen != 0 {
        1int
    } else {
        0int
    }
}

/// The byte length of piece `index`: the full piece length, except that the
/// final piece carries only what remains.
pub open spec fn spec_piece_size(total: int, plen: int, index: int) -> int {
    if (index + 1) * plen <= total {
        plen
    } else {
        total - index * plen
    }
}

impl Info {
    /// The total number of content bytes.
    pub open spec fn spec_total(&self) -> int {
        spec_total_len(self.keys@)
    }

    /// Validity of the model: a positive piece length, a total that fits the
    /// machine, every file length non-negative (given by the type), and as
    /// many piece hashes as the rounded-up quotient demands.
    pub open spec fn wf(&self) -> bool {
        &&& self.piece_length > 0
        &&& 0 <= self.spec_total() <= usize::MAX
        &&& self.pieces@.len() == spec_piece_count(self.spec_total(), self.piece_length as int)
    }

    /// The number of pieces.
    pub fn piece_count(&self) -> (r: usize)
        ensures
            r == self.pieces@.len(),
    {
        self.pieces.0.len()
    }

    /// The total number of content bytes, summed over the layout.
    pub fn total_length(&self) -> (r: usize)
        requires
            self.wf(),
        ensures
            r as int == self.spec_total(),
    {
        match &self.keys {
            Keys::SingleFile { length } => *length,
            Keys::MultipleFile { files } => {
                let ghost fs = self.keys@->MultipleFile_files;
                let mut sum: usize = 0;
                let n = files.len();
                proof {
                    assert(fs =~= Seq::new(files@.len(), |i: int| files@[i]@));
                }
                for i in 0..n
                    invariant
                        n == files@.len(),
                        fs == Seq::new(files@.len(), |j: int| files@[j]@),
                        fs.len() == n,
                        sum as int + spec_files_total(fs, i as int) == spec_files_total(fs, 0),
                        spec_files_total(fs, 0) <= usize::MAX,
                {
                    proof {
                        assert(forall|j: int|
                            0 <= j < fs.len() ==> (#[trigger] fs[j].length) >= 0);
                        lemma_files_total_nonneg(fs, i + 1);
                        assert(fs[i as int].length == files@[i as int]@.length);
                    }
                    sum = sum + files[i].length;
                }
                sum
            },
        }
    }

    /// The byte range `(offset, length)` of piece `index`, or
    /// `IndexOutOfRange` exactly when `index` is at or past the piece count.
    pub fn piece_byte_range(&self, index: usize) -> (r: Result<(usize, usize), ClientError>)
        requires
            self.wf(),
        ensures
            match r {
                Ok((offset, length)) => index < self.pieces@.len() && offset as int == index
                    * (self.piece_length as int) && length as int == spec_piece_size(
                    self.spec_total(),
                    self.piece_length as int,
                    index as int,
                ),
                Err(e) => index >= self.pieces@.len() && e == ClientError::IndexOutOfRange,
            },
    {
        if index >= self.pieces.0.len() {
            return Err(ClientError::IndexOutOfRange);
        }
        let total = self.total_length();
        let plen = self.piece_length;
        proof {
            lemma_piece_offset_in_total(total as int, plen as int, index as int);
        }
        let offset = index * plen;
        let remaining = total - offset;
        let length = if remaining < plen {
            remaining
        } else {
            plen
        };
        proof {
            assert((index as int + 1) * (plen as int) == index as int * (plen as int)
                + plen as int) by (nonlinear_arith);
        }
        Ok((offset, length))
    }
}

/// Any piece index below the rounded-up quotient starts strictly inside the
/// content: its byte offset is below the total.
pub proof fn lemma_piece_offset_in_total(total: int, plen: int, index: int)
    requires
        plen > 0,
        total >= 0,
        0 <= index < spec_piece_count(total, plen),
    ensures
        index * plen < total,
{
    vstd::arithmetic::div_mod::lemma_fundamental_div_mod(total, plen);
    let q = total / plen;
    let m = total % plen;
    if m != 0 {
        assert(index <= q);
        assert(index * plen <= q * plen) by (nonlinear_arith)
            requires
                index <= q,
                plen > 0,
        ;
        assert(q * plen == total - m);
        assert(0 <= m < plen) by {
            vstd::arithmetic::div_mod::lemma_mod_bound(total, plen);
        }
    } else {
        assert(index <= q - 1);
        assert(index * plen <= (q - 1) * plen) by (nonlinear_arith)
            requires
                index <= q - 1,
                plen > 0,
        ;
        assert((q - 1) * plen == q * plen - plen) by (nonlinear_arith);
        assert(q * plen == total);
    }
}

/// A piece index is below the rounded-up quotient exactly when its byte
/// offset is below the total.
pub proof fn lemma_below_count_iff_offset_below(total: int, plen: int, k: int)
    requires
        plen > 0,
        total >= 0,
        k >= 0,
    ensures
        (k < spec_piece_count(total, plen)) <==> (k * plen < total),
{
    vstd::arithmetic::div_mod::lemma_fundamental_div_mod(total, plen);
    vstd::arithmetic::div_mod::lemma_mod_bound(total, plen);
    let q = total / plen;
    let m = total % plen;
    if k < spec_piece_count(total, plen) {
        lemma_piece_offset_in_total(total, plen, k);
    }
    if k * plen < total {
        if m == 0 {
            assert(k < q) by (nonlinear_arith)
                requires
                    k * plen < total,
                    total == plen * q + m,
                    m == 0,
                    plen > 0,
            ;
        } else {
            assert(k < q + 1) by (nonlinear_arith)
                requires
                    k * plen < total,
                    total == plen * q + m,
                    0 < m < plen,
                    plen > 0,
            ;
        }
    }
}

/// The bytes of the dictionary key `announce`.
pub open spec fn spec_key_announce() -> Seq<u8> {
    seq![97u8, 110, 110, 111, 117, 110, 99, 101]
}

/// The bytes of the dictionary key `info`.
pub open spec fn spec_key_info() -> Seq<u8> {
    seq![105u8, 110, 102, 111]
}

/// The bytes of the dictionary key `name`.
pub open spec fn spec_key_name() -> Seq<u8> {
    seq![110u8, 97, 109, 101]
}

/// The bytes of the dictionary key `piece length`.
pub open spec fn spec_key_piece_length() -> Seq<u8> {
    seq![112u8, 105, 101, 99, 101, 32, 108, 101, 110, 103, 116, 104]
}

/// The bytes of the dictionary key `pieces`.
pub open spec fn spec_key_pieces() -> Seq<u8> {
    seq![112u8, 105, 101, 99, 101, 115]
}

/// The bytes of the dictionary key `length`.
pub open spec fn spec_key_length() -> Seq<u8> {
    seq![108u8, 101, 110, 103, 116, 104]
}

/// The bytes of the dictionary key `files`.
pub open spec fn spec_key_files() -> Seq<u8> {
    seq![102u8, 105, 108, 101, 115]
}

/// The bytes of the dictionary key `path`.
pub open spec fn spec_key_path() -> Seq<u8> {
    seq![112u8, 97, 116, 104]
}

/// The key `name` as a vector.
fn key_name() -> (r: Vec<u8>)
    ensures
        r@ == spec_key_name(),
{
    let mut v: Vec<u8> = Vec::new();
    v.push(110);
    v.push(97);
    v.push(109);
    v.push(101);
    assert(v@ =~= spec_key_name());
    v
}

/// The key `piece length` as a vector.
fn key_piece_length() -> (r: Vec<u8>)
    ensures
        r@ == spec_key_piece_length(),
{
    let mut v: Vec<u8> = Vec::new();
    v.push(112);
    v.push(105);
    v.push(101);
    v.push(99);
    v.push(101);
    v.push(32);
    v.push(108);
    v.push(101);
    v.push(110);
    v.push(103);
    v.push(116);
    v.push(104);
    assert(v@ =~= spec_key_piece_length());
    v
}

/// The key `pieces` as a vector.
fn key_pieces() -> (r: Vec<u8>)
    ensures
        r@ == spec_key_pieces(),
{
    let mut v: Vec<u8> = Vec::new();
    v.push(112);
    v.push(105);
    v.push(101);
    v.push(99);
    v.push(101);
    v.push(115);
    assert(v@ =~= spec_key_pieces());
    v
}

/// The key `length` as a vector.
fn key_length() -> (r: Vec<u8>)
    ensures
        r@ == spec_key_length(),
{
    let mut v: Vec<u8> = Vec::new();
    v.push(108);
    v.push(101);
    v.push(110);
    v.push(103);
    v.push(116);
    v.push(104);
    assert(v@ =~= spec_key_length());
    v
}

/// The key `files` as a vector.
fn key_files() -> (r: Vec<u8>)
    ensures
        r@ == spec_key_files(),
{
    let mut v: Vec<u8> = Vec::new();
    v.push(102);
    v.push(105);
    v.push(108);
    v.push(101);
    v.push(115);
    assert(v@ =~= spec_key_files());
    v
}

/// The key `path` as a vector.
fn key_path() -> (r: Vec<u8>)
    ensures
        r@ == spec_key_path(),
{
    let mut v: Vec<u8> = Vec::new();
    v.push(112);
    v.push(97);
    v.push(116);
    v.push(104);
    assert(v@ =~= spec_key_path());
    v
}

/// A byte-for-byte copy.
pub(crate) fn copy_bytes(src: &Vec<u8>) -> (r: Vec<u8>)
    ensures
        r@ == src@,
{
    let mut out: Vec<u8> = Vec::new();
    let n = src.len();
    for i in 0..n
        invariant
            n == src@.len(),
            out@ =~= src@.subrange(0, i as int),
    {
        out.push(src[i]);
        proof {
            assert(out@ =~= src@.subrange(0, i + 1));
        }
    }
    proof {
        assert(out@ =~= src@);
    }
    out
}

/// The concatenation of the piece hashes from index `i` on.
pub open spec fn spec_concat_hashes(hs: Seq<Seq<u8>>, i: int) -> Seq<u8>
    decreases hs.len() - i,
{
    if i < 0 || i >= hs.len() {
        Seq::empty()
    } else {
        hs[i] + spec_concat_hashes(hs, i + 1)
    }
}

impl Hashes {
    /// The concatenated 20-byte hashes, as the descriptor stores them.
    pub fn concat(&self) -> (r: Vec<u8>)
        ensures
            r@ == spec_concat_hashes(self@, 0),
    {
        let ghost hs = self@;
        let mut out: Vec<u8> = Vec::new();
        let n = self.0.len();
        for i in 0..n
            invariant
                n == self.0@.len(),
                hs == self@,
                hs.len() == n,
                out@ + spec_concat_hashes(hs, i as int) =~= spec_concat_hashes(hs, 0),
        {
            let ghost before = out@;
            let h = &self.0[i];
            for k in 0..20
                invariant
                    0 <= i < n,
                    n == self.0@.len(),
                    h@ == self.0@[i as int]@,
                    out@ =~= before + h@.subrange(0, k as int),
            {
                out.push(h[k]);
                proof {
                    assert(out@ =~= before + h@.subrange(0, k + 1));
                }
            }
            proof {
                assert(h@.subrange(0, 20) =~= h@);
                assert(hs[i as int] == h@);
                assert(spec_concat_hashes(hs, i as int) == hs[i as int] + spec_concat_hashes(
                    hs,
                    i + 1,
                ));
                assert(out@ + spec_concat_hashes(hs, i + 1) =~= spec_concat_hashes(hs, 0));
            }
        }
        proof {
            assert(spec_concat_hashes(hs, n as int) =~= Seq::<u8>::empty());
            assert(out@ =~= spec_concat_hashes(hs, 0));
        }
        out
    }
}

/// The bencode dictionary of one file entry: its length and its path.
pub open spec fn spec_file_dict(f: SpecFile) -> SpecBencode {
    SpecBencode::Dict(
        seq![
            (spec_key_length(), SpecBencode::Int(f.length)),
            (
                spec_key_path(),
                SpecBencode::List(Seq::new(f.path.len(), |i: int| SpecBencode::Bytes(f.path[i]))),
            ),
        ],
    )
}

/// The canonical bencode dictionary of an info model, keys in ascending
/// byte order.
pub open spec fn spec_info_dict(info: SpecInfo) -> SpecBencode {
    match info.keys {
        SpecKeys::SingleFile { length } => SpecBencode::Dict(
            seq![
                (spec_key_length(), SpecBencode::Int(length)),
                (spec_key_name(), SpecBencode::Bytes(info.name)),
                (spec_key_piece_length(), SpecBencode::Int(info.piece_length)),
                (spec_key_pieces(), SpecBencode::Bytes(spec_concat_hashes(info.pieces, 0))),
            ],
        ),
        SpecKeys::MultipleFile { files } => SpecBencode::Dict(
            seq![
                (
                    spec_key_files(),
                    SpecBencode::List(Seq::new(files.len(), |i: int| spec_file_dict(files[i]))),
                ),
                (spec_key_name(), SpecBencode::Bytes(info.name)),
                (spec_key_piece_length(), SpecBencode::Int(info.piece_length)),
                (spec_key_pieces(), SpecBencode::Bytes(spec_concat_hashes(info.pieces, 0))),
            ],
        ),
    }
}

/// Bound on the field values that the bencode integer kind can carry.
pub open spec fn spec_info_encodable(info: SpecInfo) -> bool {
    &&& 0 <= info.piece_length <= i64::MAX
    &&& match info.keys {
        SpecKeys::SingleFile { length } => 0 <= length <= i64::MAX,
        SpecKeys::MultipleFile { files } => forall|i: int|
            0 <= i < files.len() ==> 0 <= (#[trigger] files[i].length) <= i64::MAX,
    }
}

/// Build one file's bencode dictionary.
fn file_dict(f: &File) -> (r: BencodeValue)
    requires
        0 <= f@.length <= i64::MAX,
    ensures
        r@ == spec_file_dict(f@),
{
    let mut path_items: Vec<BencodeValue> = Vec::new();
    let n = f.path.len();
    let ghost ps = f@.path;
    for i in 0..n
        invariant
            n == f.path@.len(),
            ps == f@.path,
            ps.len() == n,
            crate::bencode::seq_views(path_items@) =~= Seq::new(
                i as nat,
                |j: int| SpecBencode::Bytes(ps[j]),
            ).take(i as int),
            path_items@.len() == i,
            forall|j: int|
                0 <= j < i ==> (#[trigger] path_items@[j])@ == SpecBencode::Bytes(ps[j]),
    {
        path_items.push(BencodeValue::Bytes(copy_bytes(&f.path[i])));
    }
    let mut entries: Vec<(Vec<u8>, BencodeValue)> = Vec::new();
    entries.push((key_length(), BencodeValue::Int(f.length as i64)));
    entries.push((key_path(), BencodeValue::List(path_items)));
    let r = BencodeValue::Dict(entries);
    proof {
        assert(crate::bencode::seq_views(path_items@) =~= Seq::new(
            ps.len(),
            |j: int| SpecBencode::Bytes(ps[j]),
        ));
        assert(crate::bencode::entry_views(entries@) =~= spec_file_dict(f@)->Dict_0);
    }
    r
}

impl Torrent {
    /// The SHA-1 digest of the canonical re-encoding of the info
    /// dictionary. Derived, never stored: it is a function of the info
    /// model alone, so identical models give identical hashes whatever the
    /// order their dictionaries were written in.
    pub fn info_hash(&self) -> (r: [u8; 20])
        requires
            spec_info_encodable(self.info@),
        ensures
            r@ == sha1_of(spec_encode(spec_info_dict(self.info@))),
    {
        let mut entries: Vec<(Vec<u8>, BencodeValue)> = Vec::new();
        match &self.info.keys {
            Keys::SingleFile { length } => {
                entries.push((key_length(), BencodeValue::Int(*length as i64)));
            },
            Keys::MultipleFile { files } => {
                let ghost fs = self.info@.keys->MultipleFile_files;
                let mut fdicts: Vec<BencodeValue> = Vec::new();
                let n = files.len();
                proof {
                    assert(fs =~= Seq::new(files@.len(), |i: int| files@[i]@));
                }
                for i in 0..n
                    invariant
                        n == files@.len(),
                        fs == Seq::new(files@.len(), |j: int| files@[j]@),
                        fs.len() == n,
                        forall|j: int|
                            0 <= j < fs.len() ==> 0 <= (#[trigger] fs[j].length) <= i64::MAX,
                        fdicts@.len() == i,
                        forall|j: int|
                            0 <= j < i ==> (#[trigger] fdicts@[j])@ == spec_file_dict(fs[j]),
                {
                    proof {
                        assert(fs[i as int] == files@[i as int]@);
                    }
                    fdicts.push(file_dict(&files[i]));
                }
                proof {
                    assert(crate::bencode::seq_views(fdicts@) =~= Seq::new(
                        fs.len(),
                        |j: int| spec_file_dict(fs[j]),
                    ));
                }
                entries.push((key_files(), BencodeValue::List(fdicts)));
            },
        }
        entries.push((key_name(), BencodeValue::Bytes(copy_bytes(&self.info.name))));
        entries.push((key_piece_length(), BencodeValue::Int(self.info.piece_length as i64)));
        entries.push((key_pieces(), BencodeValue::Bytes(self.info.pieces.concat())));
        let dict = BencodeValue::Dict(entries);
        proof {
            assert(crate::bencode::entry_views(entries@) =~= spec_info_dict(self.info@)->Dict_0);
        }
        let enc = encode(&dict);
        sha1_digest(&enc)
    }
}

/// The piece hashes a `pieces` byte string carries: its 20-byte chunks.
pub open spec fn spec_chunk_hashes(pb: Seq<u8>) -> Seq<Seq<u8>> {
    Seq::new((pb.len() / 20) as nat, |i: int| pb.subrange(20 * i, 20 * i + 20))
}

/// Project one entry of the `files` list into the typed model: a dictionary
/// with a non-negative `length` that fits the machine and a `path` list of
/// byte strings.
pub open spec fn spec_project_file(v: SpecBencode) -> Option<SpecFile> {
    match v {
        SpecBencode::Dict(es) => match (
            spec_dict_get(es, spec_key_length()),
            spec_dict_get(es, spec_key_path()),
        ) {
            (Some(SpecBencode::Int(l)), Some(SpecBencode::List(ps))) => if 0 <= l <= usize::MAX
                && (forall|i: int| 0 <= i < ps.len() ==> (#[trigger] ps[i]) is Bytes) {
                Some(
                    SpecFile {
                        length: l,
                        path: Seq::new(ps.len(), |i: int| ps[i]->Bytes_0),
                    },
                )
            } else {
                None
            },
            _ => None,
        },
        _ => None,
    }
}

/// Project the `files` list entries from index `i` on.
pub open spec fn spec_project_files(fs: Seq<SpecBencode>, i: int) -> Option<Seq<SpecFile>>
    decreases fs.len() - i,
{
    if i < 0 || i >= fs.len() {
        Some(Seq::empty())
    } else {
        match (spec_project_file(fs[i]), spec_project_files(fs, i + 1)) {
            (Some(f), Some(rest)) => Some(seq![f] + rest),
            _ => None,
        }
    }
}

/// Project the layout keys of an info dictionary: a `length` field names a
/// single file and wins over any `files` field; otherwise a `files` list is
/// projected entry by entry.
pub open spec fn spec_project_keys(es: Seq<(Seq<u8>, SpecBencode)>) -> Option<SpecKeys> {
    match spec_dict_get(es, spec_key_length()) {
        Some(SpecBencode::Int(l)) => if 0 <= l <= usize::MAX {
            Some(SpecKeys::SingleFile { length: l })
        } else {
            None
        },
        Some(_) => None,
        None => match spec_dict_get(es, spec_key_files()) {
            Some(SpecBencode::List(fs)) => match spec_project_files(fs, 0) {
                Some(files) => Some(SpecKeys::MultipleFile { files }),
                None => None,
            },
            _ => None,
        },
    }
}

/// Project an info dictionary into the typed model, rejecting a missing or
/// mistyped field, a non-positive piece length, a `pieces` string that is
/// not a whole number of 20-byte hashes, a total that does not fit the
/// machine, and a hash count other than the rounded-up quotient.
pub open spec fn spec_project_info(v: SpecBencode) -> Option<SpecInfo> {
    match v {
        SpecBencode::Dict(es) => match (
            spec_dict_get(es, spec_key_name()),
            spec_dict_get(es, spec_key_piece_length()),
            spec_dict_get(es, spec_key_pieces()),
        ) {
            (
                Some(SpecBencode::Bytes(nm)),
                Some(SpecBencode::Int(pl)),
                Some(SpecBencode::Bytes(pb)),
            ) => if 0 < pl <= usize::MAX && pb.len() % 20 == 0 {
                match spec_project_keys(es) {
                    Some(keys) => if 0 <= spec_total_len(keys) <= usize::MAX && pb.len() / 20
                        == spec_piece_count(spec_total_len(keys), pl) {
                        Some(
                            SpecInfo {
                                name: nm,
                                piece_length: pl,
                                pieces: spec_chunk_hashes(pb),
                                keys,
                            },
                        )
                    } else {
                        None
                    },
                    None => None,
                }
            } else {
                None
            },
            _ => None,
        },
        _ => None,
    }
}

/// Project a decoded descriptor into the typed model: a dictionary with an
/// `announce` byte string and an `info` dictionary.
pub open spec fn spec_project_torrent(v: SpecBencode) -> Option<SpecTorrent> {
    match v {
        SpecBencode::Dict(es) => match (
            spec_dict_get(es, spec_key_announce()),
            spec_dict_get(es, spec_key_info()),
        ) {
            (Some(SpecBencode::Bytes(a)), Some(iv)) => match spec_project_info(iv) {
                Some(i) => Some(SpecTorrent { announce: a, info: i }),
                None => None,
            },
            _ => None,
        },
        _ => None,
    }
}

/// The views of a sequence of files.
pub open spec fn file_views(files: Seq<File>) -> Seq<SpecFile> {
    Seq::new(files.len(), |i: int| files[i]@)
}

/// Whether the layout's lengths fit the bencode integer kind.
pub open spec fn spec_keys_encodable(keys: SpecKeys) -> bool {
    match keys {
        SpecKeys::SingleFile { length } => length <= i64::MAX,
        SpecKeys::MultipleFile { files } => forall|i: int|
            0 <= i < files.len() ==> (#[trigger] files[i].length) <= i64::MAX,
    }
}

/// Read a decoded integer as a byte count: it must be non-negative and fit
/// the machine.
fn int_to_len(l: i64) -> (r: Result<usize, ClientError>)
    ensures
        match r {
            Ok(n) => 0 <= l <= usize::MAX && n as int == l as int,
            Err(e) => !(0 <= l <= usize::MAX) && e == ClientError::InvalidMetadata,
        },
{
    if l < 0 {
        return Err(ClientError::InvalidMetadata);
    }
    if (l as u64) > (usize::MAX as u64) {
        return Err(ClientError::InvalidMetadata);
    }
    Ok(l as usize)
}

/// Exec counterpart of [`spec_project_file`].
#[verifier::loop_isolation(false)]
fn project_file(v: &BencodeValue) -> (r: Result<File, ClientError>)
    ensures
        match spec_project_file(v@) {
            Some(f) => r is Ok && r.unwrap()@ == f && r.unwrap()@.length <= i64::MAX,
            None => r == Err::<File, ClientError>(ClientError::InvalidMetadata),
        },
{
    let entries = match v {
        BencodeValue::Dict(es) => es,
        _ => {
            return Err(ClientError::InvalidMetadata);
        },
    };
    let length: usize = match dict_get(entries, &key_length()) {
        Some(BencodeValue::Int(l)) => match int_to_len(*l) {
            Ok(n) => n,
            Err(e) => {
                return Err(e);
            },
        },
        _ => {
            return Err(ClientError::InvalidMetadata);
        },
    };
    let path_items = match dict_get(entries, &key_path()) {
        Some(BencodeValue::List(ps)) => ps,
        _ => {
            return Err(ClientError::InvalidMetadata);
        },
    };
    let ghost psv = seq_views(path_items@);
    let mut path: Vec<Vec<u8>> = Vec::new();
    let n = path_items.len();
    for i in 0..n
        invariant
            n == path_items@.len(),
            psv == seq_views(path_items@),
            psv.len() == n,
            forall|j: int| 0 <= j < i ==> (#[trigger] psv[j]) is Bytes,
            path@.len() == i,
            forall|j: int| 0 <= j < i ==> (#[trigger] path@[j])@ == psv[j]->Bytes_0,
    {
        proof {
            assert(psv[i as int] == path_items@[i as int]@);
        }
        match &path_items[i] {
            BencodeValue::Bytes(b) => {
                path.push(copy_bytes(b));
            },
            _ => {
                return Err(ClientError::InvalidMetadata);
            },
        }
    }
    let f = File { length, path };
    proof {
        assert(f@.path =~= Seq::new(psv.len(), |i: int| psv[i]->Bytes_0));
    }
    Ok(f)
}

/// Exec counterpart of [`spec_project_keys`].
#[verifier::loop_isolation(false)]
fn project_keys(entries: &Vec<(Vec<u8>, BencodeValue)>) -> (r: Result<Keys, ClientError>)
    ensures
        match spec_project_keys(entry_views(entries@)) {
            Some(k) => r is Ok && r.unwrap()@ == k && spec_keys_encodable(k),
            None => r == Err::<Keys, ClientError>(ClientError::InvalidMetadata),
        },
{
    match dict_get(entries, &key_length()) {
        Some(BencodeValue::Int(l)) => {
            let length = match int_to_len(*l) {
                Ok(n) => n,
                Err(e) => {
                    return Err(e);
                },
            };
            Ok(Keys::SingleFile { length })
        },
        Some(_) => Err(ClientError::InvalidMetadata),
        None => {
            let fs = match dict_get(entries, &key_files()) {
                Some(BencodeValue::List(fs)) => fs,
                _ => {
                    return Err(ClientError::InvalidMetadata);
                },
            };
            let ghost fsv = seq_views(fs@);
            let mut files: Vec<File> = Vec::new();
            let n = fs.len();
            proof {
                if let Some(rest) = spec_project_files(fsv, 0) {
                    assert(file_views(files@) + rest =~= rest);
                }
            }
            for i in 0..n
                invariant
                    n == fs@.len(),
                    fsv == seq_views(fs@),
                    fsv.len() == n,
                    forall|j: int|
                        0 <= j < files@.len() ==> (#[trigger] files@[j])@.length <= i64::MAX,
                    match spec_project_files(fsv, i as int) {
                        Some(rest) => spec_project_files(fsv, 0) == Some(
                            file_views(files@) + rest,
                        ),
                        None => spec_project_files(fsv, 0) is None,
                    },
            {
                proof {
                    assert(fsv[i as int] == fs@[i as int]@);
                }
                let f = match project_file(&fs[i]) {
                    Ok(f) => f,
                    Err(e) => {
                        return Err(e);
                    },
                };
                proof {
                    let a = file_views(files@);
                    assert(file_views(files@.push(f)) =~= a + seq![f@]);
                    if let Some(rest) = spec_project_files(fsv, i + 1) {
                        assert(a + (seq![f@] + rest) =~= (a + seq![f@]) + rest);
                    }
                }
                files.push(f);
            }
            proof {
                assert(spec_project_files(fsv, n as int) == Some(Seq::<SpecFile>::empty()));
                if let Some(rest) = spec_project_files(fsv, n as int) {
                    assert(file_views(files@) + rest =~= file_views(files@));
                }
            }
            let r = Keys::MultipleFile { files };
            proof {
                assert(r@->MultipleFile_files =~= file_views(files@));
            }
            Ok(r)
        },
    }
}

/// Split a `pieces` byte string into its 20-byte hashes.
fn chunk_hashes(pb: &Vec<u8>) -> (r: Hashes)
    requires
        pb@.len() % 20 == 0,
    ensures
        r@ == spec_chunk_hashes(pb@),
{
    let n = pb.len();
    let count = n / 20;
    proof {
        vstd::arithmetic::div_mod::lemma_fundamental_div_mod(n as int, 20);
    }
    let mut hs: Vec<[u8; 20]> = Vec::new();
    for i in 0..count
        invariant
            n == pb@.len(),
            count == n as int / 20,
            20 * count as int <= n as int,
            hs@.len() == i,
            forall|j: int|
                0 <= j < i ==> (#[trigger] hs@[j])@ =~= pb@.subrange(20 * j, 20 * j + 20),
    {
        let base = i * 20;
        assert(base + 20 <= n) by {
            assert(i as int * 20 + 20 <= count as int * 20) by (nonlinear_arith)
                requires
                    i as int + 1 <= count as int,
            ;
        }
        let h: [u8; 20] = [
            pb[base],
            pb[base + 1],
            pb[base + 2],
            pb[base + 3],
            pb[base + 4],
            pb[base + 5],
            pb[base + 6],
            pb[base + 7],
            pb[base + 8],
            pb[base + 9],
            pb[base + 10],
            pb[base + 11],
            pb[base + 12],
            pb[base + 13],
            pb[base + 14],
            pb[base + 15],
            pb[base + 16],
            pb[base + 17],
            pb[base + 18],
            pb[base + 19],
        ];
        proof {
            assert(h@ =~= pb@.subrange(20 * (i as int), 20 * (i as int) + 20));
        }
        hs.push(h);
    }
    let r = Hashes(hs);
    proof {
        assert(r@ =~= spec_chunk_hashes(pb@));
    }
    r
}

/// Exec counterpart of [`spec_project_info`]; on success the model is
/// well-formed and its lengths fit the bencode integer kind.
fn project_info(v: &BencodeValue) -> (r: Result<Info, ClientError>)
    ensures
        match spec_project_info(v@) {
            Some(m) => r is Ok && r.unwrap()@ == m && r.unwrap().wf() && spec_info_encodable(
                r.unwrap()@,
            ),
            None => r == Err::<Info, ClientError>(ClientError::InvalidMetadata),
        },
{
    let entries = match v {
        BencodeValue::Dict(es) => es,
        _ => {
            return Err(ClientError::InvalidMetadata);
        },
    };
    let name = match dict_get(entries, &key_name()) {
        Some(BencodeValue::Bytes(nm)) => copy_bytes(nm),
        _ => {
            return Err(ClientError::InvalidMetadata);
        },
    };
    let piece_length = match dict_get(entries, &key_piece_length()) {
        Some(BencodeValue::Int(l)) => match int_to_len(*l) {
            Ok(n) => {
                if n == 0 {
                    return Err(ClientError::InvalidMetadata);
                }
                n
            },
            Err(e) => {
                return Err(e);
            },
        },
        _ => {
            return Err(ClientError::InvalidMetadata);
        },
    };
    let pb = match dict_get(entries, &key_pieces()) {
        Some(BencodeValue::Bytes(pb)) => pb,
        _ => {
            return Err(ClientError::InvalidMetadata);
        },
    };
    if pb.len() % 20 != 0 {
        return Err(ClientError::InvalidMetadata);
    }
    let keys = match project_keys(entries) {
        Ok(k) => k,
        Err(e) => {
            return Err(e);
        },
    };
    let total = match checked_total(&keys) {
        Ok(t) => t,
        Err(e) => {
            return Err(e);
        },
    };
    let count = pb.len() / 20;
    let md = total % piece_length;
    proof {
        vstd::arithmetic::div_mod::lemma_fundamental_div_mod(total as int, piece_length as int);
        let q = total as int / piece_length as int;
        assert(q * piece_length as int >= q) by (nonlinear_arith)
            requires
                q >= 0,
                piece_length as int >= 1,
        ;
    }
    let expect = total / piece_length + if md != 0 {
        1usize
    } else {
        0usize
    };
    if count != expect {
        return Err(ClientError::InvalidMetadata);
    }
    let pieces = chunk_hashes(pb);
    let info = Info { name, piece_length, pieces, keys };
    Ok(info)
}

/// Sum the layout's lengths, rejecting a total that does not fit the
/// machine.
#[verifier::loop_isolation(false)]
fn checked_total(keys: &Keys) -> (r: Result<usize, ClientError>)
    ensures
        match r {
            Ok(t) => 0 <= spec_total_len(keys@) <= usize::MAX && t as int == spec_total_len(
                keys@,
            ),
            Err(e) => spec_total_len(keys@) > usize::MAX && e == ClientError::InvalidMetadata,
        },
{
    match keys {
        Keys::SingleFile { length } => Ok(*length),
        Keys::MultipleFile { files } => {
            let ghost fs = keys@->MultipleFile_files;
            proof {
                assert(fs =~= Seq::new(files@.len(), |i: int| files@[i]@));
                assert(forall|j: int| 0 <= j < fs.len() ==> (#[trigger] fs[j].length) >= 0);
                lemma_files_total_nonneg(fs, 0);
            }
            let mut sum: usize = 0;
            let n = files.len();
            for i in 0..n
                invariant
                    n == files@.len(),
                    fs == Seq::new(files@.len(), |j: int| files@[j]@),
                    fs.len() == n,
                    sum as int + spec_files_total(fs, i as int) == spec_files_total(fs, 0),
            {
                proof {
                    assert(forall|j: int| 0 <= j < fs.len() ==> (#[trigger] fs[j].length) >= 0);
                    lemma_files_total_nonneg(fs, i + 1);
                    assert(fs[i as int].length == files@[i as int]@.length);
                }
                sum = match sum.checked_add(files[i].length) {
                    Some(s) => s,
                    None => {
                        return Err(ClientError::InvalidMetadata);
                    },
                };
            }
            Ok(sum)
        },
    }
}

impl Torrent {
    /// Parse a bencoded torrent descriptor: decode the whole input, then
    /// project the dictionary into the typed model. A syntax fault is
    /// `MalformedEncoding`; a missing, mistyped or inconsistent field is
    /// `InvalidMetadata`. On success the info model is well-formed.
    pub fn parse(bytes: &Vec<u8>) -> (r: Result<Torrent, ClientError>)
        ensures
            match spec_decode_at(bytes@, 0) {
                None => r == Err::<Torrent, ClientError>(ClientError::MalformedEncoding),
                Some((v, end)) => if end != bytes@.len() {
                    r == Err::<Torrent, ClientError>(ClientError::MalformedEncoding)
                } else {
                    match spec_project_torrent(v) {
                        Some(m) => r is Ok && r.unwrap()@ == m && r.unwrap().info.wf()
                            && spec_info_encodable(r.unwrap().info@),
                        None => r == Err::<Torrent, ClientError>(ClientError::InvalidMetadata),
                    }
                },
            },
    {
        let (value, end) = match decode(bytes) {
            Ok(p) => p,
            Err(e) => {
                return Err(e);
            },
        };
        if end != bytes.len() {
            return Err(ClientError::MalformedEncoding);
        }
        let entries = match &value {
            BencodeValue::Dict(es) => es,
            _ => {
                return Err(ClientError::InvalidMetadata);
            },
        };
        let announce = match dict_get(entries, &key_announce()) {
            Some(BencodeValue::Bytes(a)) => copy_bytes(a),
            _ => {
                return Err(ClientError::InvalidMetadata);
            },
        };
        let iv = match dict_get(entries, &key_info()) {
            Some(iv) => iv,
            None => {
                return Err(ClientError::InvalidMetadata);
            },
        };
        let info = match project_info(iv) {
            Ok(i) => i,
            Err(e) => {
                return Err(e);
            },
        };
        Ok(Torrent { announce, info })
    }
}

/// The key `announce` as a vector.
fn key_announce() -> (r: Vec<u8>)
    ensures
        r@ == spec_key_announce(),
{
    let mut v: Vec<u8> = Vec::new();
    v.push(97);
    v.push(110);
    v.push(110);
    v.push(111);
    v.push(117);
    v.push(110);
    v.push(99);
    v.push(101);
    assert(v@ =~= spec_key_announce());
    v
}

/// The key `info` as a vector.
fn key_info() -> (r: Vec<u8>)
    ensures
        r@ == spec_key_info(),
{
    let mut v: Vec<u8> = Vec::new();
    v.push(105);
    v.push(110);
    v.push(102);
    v.push(111);
    assert(v@ =~= spec_key_info());
    v
}

/// The canonical info dictionary is well-formed: its keys ascend in byte
/// order and its integers fit the bencode integer kind, so the round-trip
/// and order laws of the codec apply to it.
pub proof fn lemma_info_dict_wf(info: SpecInfo)
    requires
        spec_info_encodable(info),
    ensures
        crate::bencode::spec_wf(spec_info_dict(info)),
{
    let d = spec_info_dict(info);
    let es = d->Dict_0;
    assert(crate::bencode::lex_lt(spec_key_length(), spec_key_name())) by {
        reveal_with_fuel(crate::bencode::lex_lt, 2);
    }
    assert(crate::bencode::lex_lt(spec_key_files(), spec_key_name())) by {
        reveal_with_fuel(crate::bencode::lex_lt, 2);
    }
    assert(crate::bencode::lex_lt(spec_key_name(), spec_key_piece_length())) by {
        reveal_with_fuel(crate::bencode::lex_lt, 2);
    }
    assert(crate::bencode::lex_lt(spec_key_piece_length(), spec_key_pieces())) by {
        reveal_with_fuel(crate::bencode::lex_lt, 8);
        assert(spec_key_piece_length().drop_first() =~= seq![
            105u8,
            101,
            99,
            101,
            32,
            108,
            101,
            110,
            103,
            116,
            104,
        ]);
        assert(spec_key_pieces().drop_first() =~= seq![105u8, 101, 99, 101, 115]);
    }
    assert(crate::bencode::lex_lt(spec_key_length(), spec_key_path())) by {
        reveal_with_fuel(crate::bencode::lex_lt, 2);
    }
    match info.keys {
        SpecKeys::SingleFile { length } => {
            assert(crate::bencode::entries_sorted(es)) by {
                assert(es.len() == 4);
            }
            assert(forall|i: int|
                0 <= i < es.len() ==> crate::bencode::spec_wf(#[trigger] es[i].1));
        },
        SpecKeys::MultipleFile { files } => {
            let fl = es[0].1->List_0;
            assert forall|i: int| 0 <= i < fl.len() implies crate::bencode::spec_wf(
                #[trigger] fl[i],
            ) by {
                let f = files[i];
                assert(fl[i] == spec_file_dict(f));
                let fes = spec_file_dict(f)->Dict_0;
                assert(0 <= f.length <= i64::MAX);
                assert(crate::bencode::entries_sorted(fes)) by {
                    assert(fes.len() == 2);
                }
                let ps = fes[1].1->List_0;
                assert forall|j: int| 0 <= j < ps.len() implies crate::bencode::spec_wf(
                    #[trigger] ps[j],
                ) by {
                    assert(ps[j] == SpecBencode::Bytes(f.path[j]));
                }
                assert forall|k: int| 0 <= k < fes.len() implies crate::bencode::spec_wf(
                    (#[trigger] fes[k]).1,
                ) by {
                    if k == 0 {
                        assert(fes[0].1 == SpecBencode::Int(f.length));
                    } else {
                        assert(fes[1].1 is List);
                    }
                }
            }
            assert(crate::bencode::entries_sorted(es)) by {
                assert(es.len() == 4);
            }
            assert(forall|i: int|
                0 <= i < es.len() ==> crate::bencode::spec_wf(#[trigger] es[i].1));
        },
    }
}

/// The info-hash does not depend on the order a descriptor wrote its info
/// dictionary: any two well-formed dictionaries binding the same keys to
/// the same values re-encode identically and hash identically.
pub proof fn lemma_info_hash_order_independent(
    a: Seq<(Seq<u8>, SpecBencode)>,
    b: Seq<(Seq<u8>, SpecBencode)>,
)
    requires
        crate::bencode::spec_wf(SpecBencode::Dict(a)),
        crate::bencode::spec_wf(SpecBencode::Dict(b)),
        crate::bencode::entries_map(a) == crate::bencode::entries_map(b),
    ensures
        sha1_of(spec_encode(SpecBencode::Dict(a))) == sha1_of(spec_encode(SpecBencode::Dict(b))),
{
    crate::bencode::lemma_encode_same_map(a, b);
}

/// Determinism of the info-hash: two torrents whose info models agree have
/// the same canonical dictionary, the same encoding, and hence the same
/// SHA-1 digest.
pub proof fn lemma_info_hash_deterministic(a: SpecInfo, b: SpecInfo)
    requires
        a == b,
    ensures
        sha1_of(spec_encode(spec_info_dict(a))) == sha1_of(spec_encode(spec_info_dict(b))),
{
}

} // verus!
