use bittorrent_client::download::{Downloaded, DownloadedIter, DownloadSession, Step};
use bittorrent_client::error::ClientError;
use bittorrent_client::peer::{Message, MessageTag};
use bittorrent_client::torrent::{File, Hashes, Info, Keys};
use bittorrent_client::BLOCK_MAX;
use sha1::{Digest, Sha1};

fn sha1_of(data: &[u8]) -> [u8; 20] {
    let mut hasher = Sha1::new();
    hasher.update(data);
    hasher.finalize().into()
}

fn piece_frame(index: u32, begin: u32, block: &[u8]) -> Message {
    let mut payload = Vec::new();
    payload.extend_from_slice(&index.to_be_bytes());
    payload.extend_from_slice(&begin.to_be_bytes());
    payload.extend_from_slice(block);
    Message { tag: MessageTag::Piece, payload }
}

fn info_for(data: &[u8], piece_length: usize) -> Info {
    let mut hashes = Vec::new();
    let mut off = 0;
    while off < data.len() {
        let end = (off + piece_length).min(data.len());
        hashes.push(sha1_of(&data[off..end]));
        off = end;
    }
    Info {
        name: b"demo.bin".to_vec(),
        piece_length,
        pieces: Hashes(hashes),
        keys: Keys::SingleFile { length: data.len() },
    }
}

#[test]
fn end_to_end_two_piece_download() {
    // two pieces of one block each, 16 KiB piece length
    let mut data = vec![0u8; 2 * BLOCK_MAX];
    for (i, b) in data.iter_mut().enumerate() {
        *b = (i % 251) as u8;
    }
    let info = info_for(&data, BLOCK_MAX);
    let mut session = DownloadSession::new(&info);
    assert!(matches!(session.next_step(), Step::AwaitBitfield));
    let bitfield = Message { tag: MessageTag::Bitfield, payload: vec![0xff] };
    assert!(session.on_message(&bitfield).unwrap().is_none());
    assert!(matches!(session.next_step(), Step::SendInterested));
    let unchoke = Message { tag: MessageTag::Unchoke, payload: Vec::new() };
    assert!(session.on_message(&unchoke).unwrap().is_none());

    let mut flushed: Vec<u8> = Vec::new();
    let mut flush_count = 0;
    loop {
        let q = match session.next_step() {
            Step::SendRequest(q) => q,
            Step::Finished => break,
            _ => panic!("unexpected step"),
        };
        let start = q.index as usize * BLOCK_MAX + q.begin as usize;
        let block = &data[start..start + q.length as usize];
        let reply = piece_frame(q.index, q.begin, block);
        if let Some(flush) = session.on_message(&reply).unwrap() {
            assert_eq!(flush.piece, flush_count);
            assert_eq!(flush.offset, flush.piece * BLOCK_MAX);
            assert_eq!(sha1_of(&flush.bytes), info.pieces.0[flush.piece]);
            flushed.extend_from_slice(&flush.bytes);
            flush_count += 1;
        }
    }
    assert_eq!(flush_count, 2);
    assert_eq!(flushed, data);
}

#[test]
fn download_splits_piece_into_blocks_with_short_tail() {
    // one piece of 40000 bytes: blocks of 16384, 16384 and 7232 bytes
    let mut data = vec![0u8; 40000];
    for (i, b) in data.iter_mut().enumerate() {
        *b = (i % 13) as u8;
    }
    let info = info_for(&data, 40000);
    let mut session = DownloadSession::new(&info);
    let bitfield = Message { tag: MessageTag::Bitfield, payload: vec![0xff] };
    session.on_message(&bitfield).unwrap();
    let unchoke = Message { tag: MessageTag::Unchoke, payload: Vec::new() };
    session.on_message(&unchoke).unwrap();

    let mut lengths = Vec::new();
    let mut flushed = None;
    loop {
        let q = match session.next_step() {
            Step::SendRequest(q) => q,
            Step::Finished => break,
            _ => panic!("unexpected step"),
        };
        lengths.push(q.length as usize);
        let start = q.begin as usize;
        let block = &data[start..start + q.length as usize];
        if let Some(flush) = session.on_message(&piece_frame(q.index, q.begin, block)).unwrap() {
            flushed = Some(flush.bytes);
        }
    }
    assert_eq!(lengths, vec![16384, 16384, 7232]);
    assert_eq!(flushed.unwrap(), data);
}

#[test]
fn wrong_begin_offset_halts_the_session() {
    let data = vec![7u8; BLOCK_MAX];
    let info = info_for(&data, BLOCK_MAX);
    let mut session = DownloadSession::new(&info);
    let bitfield = Message { tag: MessageTag::Bitfield, payload: vec![0xff] };
    session.on_message(&bitfield).unwrap();
    let unchoke = Message { tag: MessageTag::Unchoke, payload: Vec::new() };
    session.on_message(&unchoke).unwrap();
    let q = match session.next_step() {
        Step::SendRequest(q) => q,
        _ => panic!("expected a request"),
    };
    // reply names the wrong offset
    let reply = piece_frame(q.index, q.begin + 1, &data[..q.length as usize]);
    assert_eq!(
        session.on_message(&reply),
        Err(ClientError::UnexpectedPieceData)
    );
    assert!(matches!(session.next_step(), Step::Halted));
    // the session stays halted: nothing more is accepted
    assert_eq!(
        session.on_message(&piece_frame(q.index, q.begin, &data[..q.length as usize])),
        Err(ClientError::ProtocolViolation)
    );
}

#[test]
fn wrong_block_length_is_unexpected_piece_data() {
    let data = vec![3u8; 100];
    let info = info_for(&data, 100);
    let mut session = DownloadSession::new(&info);
    session
        .on_message(&Message { tag: MessageTag::Bitfield, payload: vec![0xff] })
        .unwrap();
    session
        .on_message(&Message { tag: MessageTag::Unchoke, payload: Vec::new() })
        .unwrap();
    let reply = piece_frame(0, 0, &data[..50]);
    assert_eq!(
        session.on_message(&reply),
        Err(ClientError::UnexpectedPieceData)
    );
}

#[test]
fn corrupted_piece_is_a_hash_mismatch() {
    let data = vec![1u8; 100];
    let info = info_for(&data, 100);
    let mut session = DownloadSession::new(&info);
    session
        .on_message(&Message { tag: MessageTag::Bitfield, payload: vec![0xff] })
        .unwrap();
    session
        .on_message(&Message { tag: MessageTag::Unchoke, payload: Vec::new() })
        .unwrap();
    let wrong = vec![2u8; 100];
    assert_eq!(
        session.on_message(&piece_frame(0, 0, &wrong)),
        Err(ClientError::PieceHashMismatch)
    );
    assert!(matches!(session.next_step(), Step::Halted));
}

#[test]
fn wrong_tag_is_a_protocol_violation() {
    let data = vec![1u8; 10];
    let info = info_for(&data, 10);
    let mut session = DownloadSession::new(&info);
    let have = Message { tag: MessageTag::Have, payload: vec![0, 0, 0, 0] };
    assert_eq!(
        session.on_message(&have),
        Err(ClientError::ProtocolViolation)
    );
    assert!(matches!(session.next_step(), Step::Halted));
}

#[test]
fn unchoke_with_payload_is_a_protocol_violation() {
    let data = vec![1u8; 10];
    let info = info_for(&data, 10);
    let mut session = DownloadSession::new(&info);
    session
        .on_message(&Message { tag: MessageTag::Bitfield, payload: vec![0xff] })
        .unwrap();
    let bad_unchoke = Message { tag: MessageTag::Unchoke, payload: vec![1] };
    assert_eq!(
        session.on_message(&bad_unchoke),
        Err(ClientError::ProtocolViolation)
    );
}

#[test]
fn downloaded_iter_yields_file_ranges_in_order() {
    let downloaded = Downloaded {
        bytes: (0u8..10).collect(),
        files: vec![
            File { length: 3, path: vec![b"a.txt".to_vec()] },
            File { length: 7, path: vec![b"sub".to_vec(), b"b.txt".to_vec()] },
        ],
    };
    let mut iter = DownloadedIter::new(&downloaded);
    assert_eq!(iter.next(), Some((0, 3)));
    assert_eq!(iter.next(), Some((3, 7)));
    assert_eq!(iter.next(), None);
    assert_eq!(iter.next(), None);
}
