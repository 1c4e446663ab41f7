use bittorrent_client::client::{Assignment, Client, TorrentState, PORT};
use bittorrent_client::connection::Connection;
use bittorrent_client::torrent::{Torrent, TorrentInfo};

fn torrent(pieces: usize) -> Torrent {
    let mut hashes = Vec::new();
    for i in 0..pieces {
        hashes.extend(std::iter::repeat(i as u8).take(20));
    }
    let info = TorrentInfo {
        name: "f".to_string(),
        files: None,
        length: Some(100 * pieces as u64),
        piece_length: 100,
        pieces: hashes,
    };
    Torrent::from_info("u".to_string(), info, b"i").unwrap()
}

#[test]
fn queue_hands_out_pieces_in_order() {
    let t = torrent(3);
    let mut s = TorrentState::new(&t);
    assert_eq!(s.total_pieces(), 3);
    assert_eq!(s.done_pieces(), 0);
    assert!(!s.is_done());
    let a = s.get_piece_from_queue().unwrap();
    let b = s.get_piece_from_queue().unwrap();
    assert_eq!((a.index, b.index), (0, 1));
    s.push_piece_to_queue(a);
    assert_eq!(s.get_piece_from_queue().unwrap().index, 2);
    assert_eq!(s.get_piece_from_queue().unwrap().index, 0);
    assert!(s.get_piece_from_queue().is_none());
}

#[test]
fn done_counts_commits_and_stops_at_total() {
    let t = torrent(2);
    let mut s = TorrentState::new(&t);
    s.record_commit();
    assert!(!s.is_done());
    s.record_commit();
    assert!(s.is_done());
    s.record_commit();
    assert_eq!(s.done_pieces(), 2);
}

#[test]
fn take_piece_for_skips_pieces_the_peer_lacks() {
    let t = torrent(4);
    let mut s = TorrentState::new(&t);
    let mut c = Connection::new("p".to_string(), 4);
    c.bitfield = Some(vec![0b0010_0000]);
    match s.take_piece_for(&c) {
        Assignment::Piece(p) => assert_eq!(p.index, 2),
        _ => panic!("piece 2 was not handed out"),
    }
    assert!(matches!(s.take_piece_for(&c), Assignment::Wait));
    let mut order = Vec::new();
    while let Some(p) = s.get_piece_from_queue() {
        order.push(p.index);
    }
    assert_eq!(order, vec![0, 1, 3]);
    assert!(matches!(s.take_piece_for(&c), Assignment::Finished));
}

#[test]
fn take_piece_for_peer_without_bitfield_waits() {
    let t = torrent(2);
    let mut s = TorrentState::new(&t);
    let c = Connection::new("p".to_string(), 2);
    assert!(matches!(s.take_piece_for(&c), Assignment::Wait));
    assert_eq!(s.get_piece_from_queue().unwrap().index, 0);
}

#[test]
fn workers_racing_take_each_piece_once() {
    // Two workers alternate: a worker holding a piece its peer lacks returns
    // it; the other downloads it. Every piece is committed exactly once.
    let t = torrent(5);
    let mut s = TorrentState::new(&t);
    let mut a = Connection::new("a".to_string(), 5);
    a.bitfield = Some(vec![0b1010_1000]);
    let mut b = Connection::new("b".to_string(), 5);
    b.bitfield = Some(vec![0b0101_0000]);
    let mut held: Vec<u32> = Vec::new();
    let mut committed: Vec<u32> = Vec::new();
    for _ in 0..20 {
        for conn in [&a, &b] {
            if let Some(p) = s.get_piece_from_queue() {
                assert!(!held.contains(&p.index));
                held.push(p.index);
                if conn.has_piece(&p.index) {
                    held.retain(|i| *i != p.index);
                    committed.push(p.index);
                    s.record_commit();
                } else {
                    held.retain(|i| *i != p.index);
                    s.push_piece_to_queue(p);
                }
            }
        }
    }
    committed.sort();
    assert_eq!(committed, vec![0, 1, 2, 3, 4]);
    assert_eq!(s.done_pieces(), 5);
    assert!(s.is_done());
}

#[test]
fn client_starts_with_random_id_and_counters_at_zero() {
    let t = torrent(2);
    let c = Client::new(&t);
    assert_eq!(c.id.len(), 20);
    assert_eq!(c.port, 6881);
    assert_eq!(PORT, 6881);
    assert_eq!((c.uploaded, c.downloaded), (0, 0));
    assert_eq!(c.get_done_pieces(), 0);
    assert_eq!(c.torrent.info_hash(), &t.info_hash);
}
