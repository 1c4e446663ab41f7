use bittorrent_client::connection::Connection;
use bittorrent_client::download::PieceState;
use bittorrent_client::message::Message;
use bittorrent_client::torrent::{Block, Piece};
use sha1::{Digest, Sha1};

fn payload(len: usize) -> Vec<u8> {
    (0..len).map(|i| (i % 253) as u8).collect()
}

fn answer(state: &mut PieceState, conn: &mut Connection, index: u32, begin: u32, data: &[u8]) {
    if let Some(block) = state.read_message(conn, Message::Piece(index, begin, data.to_vec())) {
        state.store_block_in_buffer(block);
    }
}

#[test]
fn new_piece_state_is_zeroed() {
    let piece = Piece::new(1, 100, 40000, vec![0; 20]);
    let state = PieceState::new(&piece);
    assert_eq!(state.index, 1);
    assert_eq!(state.begin, 100);
    assert_eq!(state.buf, vec![0; 40000]);
    assert_eq!(state.block_queue.len(), 3);
    assert!(state.requested_blocks.is_empty());
    assert!(state.can_send_request());
    assert!(!state.is_finished());
}

#[test]
fn one_block_happy_path() {
    let data = payload(100);
    let piece = Piece::new(0, 0, 100, Sha1::digest(&data).to_vec());
    let mut conn = Connection::new("p".to_string(), 1);
    conn.interpret_message(Message::Bitfield(vec![0x80]));
    conn.interpret_message(Message::Unchoke);
    let mut state = PieceState::new(&piece);
    let requests = state.request_blocks(&conn);
    assert_eq!(requests.len(), 1);
    assert!(matches!(requests[0], Message::Request(0, 0, 100)));
    answer(&mut state, &mut conn, 0, 0, &data);
    assert!(state.is_finished());
    assert_eq!(state.blocks_done, 1);
    assert_eq!(state.buf, data);
    assert!(state.verify(&piece).is_ok());
}

#[test]
fn wrong_bytes_fail_the_hash_check() {
    let data = payload(100);
    let piece = Piece::new(0, 0, 100, Sha1::digest(&data).to_vec());
    let mut conn = Connection::new("p".to_string(), 1);
    conn.chocked = false;
    let mut state = PieceState::new(&piece);
    state.request_blocks(&conn);
    answer(&mut state, &mut conn, 0, 0, &payload(99));
    assert!(state.is_finished());
    assert!(state.verify(&piece).is_err());
}

#[test]
fn at_most_five_requests_in_flight() {
    let piece = Piece::new(0, 0, 7 * 16384, vec![0; 20]);
    let mut conn = Connection::new("p".to_string(), 1);
    conn.chocked = false;
    let mut state = PieceState::new(&piece);
    let first = state.request_blocks(&conn);
    assert_eq!(first.len(), 5);
    assert!(matches!(first[0], Message::Request(0, 98304, 16384)));
    assert_eq!(state.requested_blocks.len(), 5);
    assert!(!state.can_send_request());
    assert!(state.request_blocks(&conn).is_empty());
    answer(&mut state, &mut conn, 0, 98304, &payload(16384));
    let second = state.request_blocks(&conn);
    assert_eq!(second.len(), 1);
}

#[test]
fn choke_mid_piece_still_accepts_blocks_in_flight() {
    let data = payload(3 * 16384);
    let piece = Piece::new(0, 0, data.len() as u32, Sha1::digest(&data).to_vec());
    let mut conn = Connection::new("p".to_string(), 1);
    conn.chocked = false;
    let mut state = PieceState::new(&piece);
    assert_eq!(state.request_blocks(&conn).len(), 3);
    assert!(state.read_message(&mut conn, Message::Choke).is_none());
    assert!(conn.chocked);
    assert!(state.request_blocks(&conn).is_empty());
    for begin in [0usize, 16384, 32768] {
        answer(&mut state, &mut conn, 0, begin as u32, &data[begin..begin + 16384]);
    }
    assert!(state.is_finished());
    assert!(state.read_message(&mut conn, Message::Unchoke).is_none());
    assert!(!conn.chocked);
    assert!(state.verify(&piece).is_ok());
}

#[test]
fn blocks_for_other_pieces_or_offsets_are_ignored() {
    let piece = Piece::new(4, 0, 100, vec![0; 20]);
    let mut conn = Connection::new("p".to_string(), 8);
    conn.chocked = false;
    let mut state = PieceState::new(&piece);
    state.request_blocks(&conn);
    assert!(state.read_message(&mut conn, Message::Piece(5, 0, vec![1; 100])).is_none());
    assert!(state.read_message(&mut conn, Message::Piece(4, 16384, vec![1; 100])).is_none());
    assert_eq!(state.requested_blocks.len(), 1);
    assert!(state.read_message(&mut conn, Message::Have(6)).is_none());
    assert!(conn.has_piece(&6));
    assert!(state.read_message(&mut conn, Message::Bitfield(vec![0])).is_none());
    assert!(conn.has_piece(&6));
    let block = state.read_message(&mut conn, Message::Piece(4, 0, vec![1; 100])).unwrap();
    assert_eq!(block.data, Some(vec![1; 100]));
    assert_eq!((block.begin, block.end, block.length), (0, 100, 100));
}

#[test]
fn storing_the_same_block_twice_changes_nothing() {
    let piece = Piece::new(0, 0, 40, vec![0; 20]);
    let mut state = PieceState::new(&piece);
    let mut block = Block::new(10, 20, 10);
    block.data = Some(vec![9; 10]);
    state.store_block_in_buffer(block);
    let once = state.buf.clone();
    let mut again = Block::new(10, 20, 10);
    again.data = Some(vec![9; 10]);
    state.store_block_in_buffer(again);
    assert_eq!(state.buf, once);
    let mut expected = vec![0; 40];
    for b in &mut expected[10..20] {
        *b = 9;
    }
    assert_eq!(state.buf, expected);
}

#[test]
fn stored_data_past_the_end_is_dropped() {
    let piece = Piece::new(0, 0, 4, vec![0; 20]);
    let mut state = PieceState::new(&piece);
    let mut block = Block::new(2, 4, 2);
    block.data = Some(vec![1, 2, 3, 4]);
    state.store_block_in_buffer(block);
    assert_eq!(state.buf, vec![0, 0, 1, 2]);
    state.store_block_in_buffer(Block::new(0, 2, 2));
    assert_eq!(state.buf, vec![0, 0, 1, 2]);
}

#[test]
fn send_request_moves_block_in_flight() {
    let piece = Piece::new(2, 0, 10, vec![0; 20]);
    let mut state = PieceState::new(&piece);
    let m = state.send_request(Block::new(0, 10, 10));
    assert!(matches!(m, Message::Request(2, 0, 10)));
    assert_eq!(state.requested_blocks, vec![Block::new(0, 10, 10)]);
}
