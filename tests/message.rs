use bittorrent_client::message::{frame_length, Message, ProtocolError};

fn round_trip(m: Message) -> Message {
    Message::deserialize(&m.serialize()).unwrap()
}

#[test]
fn keep_alive_is_a_bare_zero_prefix() {
    assert_eq!(Message::KeepAlive.serialize(), vec![0, 0, 0, 0]);
    assert!(matches!(round_trip(Message::KeepAlive), Message::KeepAlive));
}

#[test]
fn simple_messages_round_trip() {
    assert_eq!(Message::Choke.serialize(), vec![0, 0, 0, 1, 0]);
    assert_eq!(Message::Unchoke.serialize(), vec![0, 0, 0, 1, 1]);
    assert_eq!(Message::Interested.serialize(), vec![0, 0, 0, 1, 2]);
    assert_eq!(Message::NotInterested.serialize(), vec![0, 0, 0, 1, 3]);
    assert_eq!(Message::Cancel.serialize(), vec![0, 0, 0, 1, 8]);
    assert!(matches!(round_trip(Message::Choke), Message::Choke));
    assert!(matches!(round_trip(Message::Unchoke), Message::Unchoke));
    assert!(matches!(round_trip(Message::Interested), Message::Interested));
    assert!(matches!(round_trip(Message::NotInterested), Message::NotInterested));
    assert!(matches!(round_trip(Message::Cancel), Message::Cancel));
}

#[test]
fn have_round_trip() {
    assert_eq!(Message::Have(0x01020304).serialize(), vec![0, 0, 0, 5, 4, 1, 2, 3, 4]);
    assert!(matches!(round_trip(Message::Have(u32::MAX)), Message::Have(u32::MAX)));
}

#[test]
fn request_round_trip() {
    let bytes = Message::Request(1, 16384, 16384).serialize();
    assert_eq!(bytes, vec![0, 0, 0, 13, 6, 0, 0, 0, 1, 0, 0, 0x40, 0, 0, 0, 0x40, 0]);
    assert!(matches!(round_trip(Message::Request(7, 8, 9)), Message::Request(7, 8, 9)));
}

#[test]
fn bitfield_and_piece_round_trip_over_sizes() {
    for size in [0usize, 1, 2, 7, 100, 16384] {
        let data: Vec<u8> = (0..size).map(|i| (i * 31 % 251) as u8).collect();
        match round_trip(Message::Bitfield(data.clone())) {
            Message::Bitfield(b) => assert_eq!(b, data),
            _ => panic!("not a bitfield"),
        }
        match round_trip(Message::Piece(3, 16384, data.clone())) {
            Message::Piece(i, b, d) => {
                assert_eq!((i, b), (3, 16384));
                assert_eq!(d, data);
            }
            _ => panic!("not a piece"),
        }
    }
}

#[test]
fn unknown_id_is_an_error() {
    assert!(matches!(Message::new(9, &[]), Err(ProtocolError::UnknownId(9))));
    assert!(matches!(Message::deserialize(&[0, 0, 0, 1, 20]), Err(ProtocolError::UnknownId(20))));
}

#[test]
fn short_payload_is_an_error() {
    assert!(matches!(Message::new(4, &[0, 0, 1]), Err(ProtocolError::ShortPayload(4))));
    assert!(matches!(Message::new(6, &[0; 11]), Err(ProtocolError::ShortPayload(6))));
    assert!(matches!(Message::new(7, &[0; 7]), Err(ProtocolError::ShortPayload(7))));
}

#[test]
fn frame_errors() {
    assert!(matches!(Message::deserialize(&[0, 0, 0]), Err(ProtocolError::Truncated)));
    assert!(matches!(Message::deserialize(&[0, 0, 0, 2, 1]), Err(ProtocolError::LengthMismatch)));
}

#[test]
fn body_decoding() {
    assert!(matches!(Message::from_body(&[]), Ok(Message::KeepAlive)));
    assert!(matches!(Message::from_body(&[7, 0, 0, 0, 2, 0, 0, 0, 4, 9, 9]), Ok(Message::Piece(2, 4, _))));
    assert_eq!(frame_length(&[0, 0, 1, 2]), 258);
}
