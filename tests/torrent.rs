use bittorrent_client::torrent::{
    Block, MetainfoError, Piece, Torrent, TorrentInfo, TorrentSubFile, MAX_BLOCK_SIZE,
};
use sha1::{Digest, Sha1};

#[test]
fn check_correct_piece_integrity() {
    let data = &[0, 1, 2, 3, 4];
    let hash = Sha1::digest(data).to_vec();
    let piece = Piece::new(0, 0, 30, hash.to_owned());

    assert!(!piece.check_integrity(hash).is_err());
}

#[test]
fn check_wrong_piece_integrity() {
    let data_1 = &[0, 1, 2, 3, 4];
    let data_2 = &[0, 1, 2, 3, 5];
    let hash_1 = Sha1::digest(data_1).to_vec();
    let hash_2 = Sha1::digest(data_2).to_vec();
    let piece = Piece::new(0, 0, 30, hash_1.to_owned());

    assert!(piece.check_integrity(hash_2).is_err());
}

#[test]
fn create_block_queue() {
    let hash = Sha1::digest(&[0, 1, 2, 3, 4]).to_vec();
    let piece = Piece::new(0, 0, (MAX_BLOCK_SIZE as f32 * 4.5) as u32, hash);
    let block_queue = piece.create_block_queue();
    let mut control_block_queue = vec![];
    for i in 0..5 {
        let begin = MAX_BLOCK_SIZE * i;
        let mut length = MAX_BLOCK_SIZE;

        if i == 4 {
            length = (MAX_BLOCK_SIZE as f32 * 0.5) as u32
        }

        let block = Block::new(begin, begin + length, length);

        control_block_queue.push(block);
    }

    assert_eq!(control_block_queue, block_queue);
}

#[test]
fn integrity_error_holds_both_hashes() {
    let expected = Sha1::digest(b"abc").to_vec();
    let got = Sha1::digest(b"abd").to_vec();
    let piece = Piece::new(3, 0, 3, expected.clone());
    match piece.check_integrity(got.clone()) {
        Err(e) => {
            assert_eq!(e.0, expected);
            assert_eq!(e.1, got);
        }
        Ok(()) => panic!("a wrong hash was accepted"),
    }
}

#[test]
fn piece_new_sets_end() {
    let piece = Piece::new(2, 200, 50, vec![7; 20]);
    assert_eq!(piece.index, 2);
    assert_eq!(piece.begin, 200);
    assert_eq!(piece.length, 50);
    assert_eq!(piece.end, 250);
    assert_eq!(piece.hash, vec![7; 20]);
}

#[test]
fn block_queue_exact_multiple() {
    let piece = Piece::new(0, 0, 2 * MAX_BLOCK_SIZE, vec![0; 20]);
    let blocks = piece.create_block_queue();
    assert_eq!(blocks.len(), 2);
    assert_eq!(blocks[1], Block::new(16384, 32768, 16384));
}

#[test]
fn block_queue_short_piece() {
    let piece = Piece::new(0, 0, 100, vec![0; 20]);
    let blocks = piece.create_block_queue();
    assert_eq!(blocks, vec![Block::new(0, 100, 100)]);
}

#[test]
fn block_queue_empty_piece() {
    let piece = Piece::new(0, 0, 0, vec![0; 20]);
    assert!(piece.create_block_queue().is_empty());
}

#[test]
fn block_queue_covers_piece_once() {
    for length in [1u32, 16383, 16384, 16385, 50000, 65536, 100000] {
        let piece = Piece::new(0, 0, length, vec![0; 20]);
        let blocks = piece.create_block_queue();
        let mut next = 0u32;
        for (i, b) in blocks.iter().enumerate() {
            assert_eq!(b.begin, next);
            assert_eq!(b.end, b.begin + b.length);
            assert!(b.data.is_none());
            if i + 1 < blocks.len() {
                assert_eq!(b.length, MAX_BLOCK_SIZE);
            } else if length % MAX_BLOCK_SIZE != 0 {
                assert_eq!(b.length, length % MAX_BLOCK_SIZE);
            } else {
                assert_eq!(b.length, MAX_BLOCK_SIZE);
            }
            next = b.end;
        }
        assert_eq!(next, length);
    }
}

fn hashes(n: usize) -> Vec<u8> {
    let mut v = Vec::new();
    for i in 0..n {
        v.extend(std::iter::repeat(i as u8).take(20));
    }
    v
}

fn info(length: Option<u64>, files: Option<Vec<TorrentSubFile>>, piece_length: u32, pieces: Vec<u8>) -> TorrentInfo {
    TorrentInfo { name: "payload.bin".to_string(), files, length, piece_length, pieces }
}

#[test]
fn torrent_from_info_single_file() {
    let t = Torrent::from_info("http://tracker/announce".to_string(), info(Some(32778), None, 16384, hashes(3)), b"d4:infoe")
        .unwrap();
    assert_eq!(t.announce, "http://tracker/announce");
    assert_eq!(t.name, "payload.bin");
    assert_eq!(t.length, 32778);
    assert_eq!(t.piece_length, 16384);
    assert_eq!(t.pieces.len(), 3);
    assert_eq!(t.pieces[2], vec![2u8; 20]);
    assert_eq!(t.info_hash, Sha1::digest(b"d4:infoe").to_vec());
    assert!(t.has_valid_layout());
}

#[test]
fn torrent_length_from_files() {
    let files = vec![
        TorrentSubFile { path: vec!["a".to_string()], length: 100 },
        TorrentSubFile { path: vec!["b".to_string()], length: 60 },
    ];
    let t = Torrent::from_info("u".to_string(), info(None, Some(files), 100, hashes(2)), b"x").unwrap();
    assert_eq!(t.length, 160);
    assert_eq!(t.files.as_ref().unwrap().len(), 2);
}

#[test]
fn torrent_total_length_overflow() {
    let files = vec![
        TorrentSubFile { path: vec!["a".to_string()], length: u64::MAX },
        TorrentSubFile { path: vec!["b".to_string()], length: 1 },
    ];
    let i = info(None, Some(files), 100, hashes(1));
    assert_eq!(i.total_length(), None);
    assert!(matches!(Torrent::from_info("u".to_string(), i, b"x"), Err(MetainfoError::LengthOverflow)));
}

#[test]
fn torrent_missing_length() {
    let r = Torrent::from_info("u".to_string(), info(None, None, 100, hashes(1)), b"x");
    assert!(matches!(r, Err(MetainfoError::MissingLength)));
}

#[test]
fn torrent_bad_piece_hashes() {
    let r = Torrent::from_info("u".to_string(), info(Some(10), None, 100, vec![0; 19]), b"x");
    assert!(matches!(r, Err(MetainfoError::BadPieceHashes)));
}

#[test]
fn torrent_bad_layout() {
    let wrong_count = Torrent::from_info("u".to_string(), info(Some(250), None, 100, hashes(2)), b"x");
    assert!(matches!(wrong_count, Err(MetainfoError::BadLayout)));
    let zero_length = Torrent::from_info("u".to_string(), info(Some(250), None, 0, hashes(3)), b"x");
    assert!(matches!(zero_length, Err(MetainfoError::BadLayout)));
}

#[test]
fn piece_queue_lengths_and_offsets() {
    let t = Torrent::from_info("u".to_string(), info(Some(32778), None, 16384, hashes(3)), b"x").unwrap();
    let q = t.create_piece_queue();
    assert_eq!(q.len(), 3);
    let expected = [(0u64, 16384u32), (16384, 16384), (32768, 10)];
    for (i, p) in q.iter().enumerate() {
        assert_eq!(p.index as usize, i);
        assert_eq!((p.begin, p.length), expected[i]);
        assert_eq!(p.end, p.begin + p.length as u64);
        assert_eq!(p.hash, vec![i as u8; 20]);
    }
}

#[test]
fn piece_queue_covers_payload_once() {
    for (length, piece_length) in [(1u64, 1u32), (100, 100), (101, 100), (1000, 7), (65536, 16384)] {
        let n = ((length + piece_length as u64 - 1) / piece_length as u64) as usize;
        let t = Torrent::from_info("u".to_string(), info(Some(length), None, piece_length, hashes(n)), b"x").unwrap();
        let q = t.create_piece_queue();
        let mut next = 0u64;
        for (i, p) in q.iter().enumerate() {
            assert_eq!(p.begin, next);
            if i + 1 < q.len() {
                assert_eq!(p.length, piece_length);
            } else {
                assert_eq!(p.length as u64, length - (n as u64 - 1) * piece_length as u64);
            }
            next = p.end;
        }
        assert_eq!(next, length);
    }
}

#[test]
fn piece_queue_empty_payload() {
    let t = Torrent::from_info("u".to_string(), info(Some(0), None, 16384, vec![]), b"x").unwrap();
    assert!(t.create_piece_queue().is_empty());
}
