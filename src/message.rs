//! Peer-wire messages: a 4-byte big-endian length prefix, then an id byte and
//! the id-specific payload. A zero length is a keep-alive.

use crate::wire::{
    be_u32_bytes, be_u32_value, lemma_be_u32_prefix, lemma_be_u32_round_trip, read_be_u32,
    u32_to_be_bytes,
};
use vstd::prelude::*;
use vstd::slice::{slice_subrange, slice_to_vec};

verus! {

#[derive(Debug)]
pub enum Message {
    KeepAlive,
    Choke,
    Unchoke,
    Interested,
    NotInterested,
    Have(u32),
    Bitfield(Vec<u8>),
    Request(u32, u32, u32),
    Piece(u32, u32, Vec<u8>),
    Cancel,
}

/// A message with its byte fields seen as sequences.
pub enum MessageView {
    KeepAlive,
    Choke,
    Unchoke,
    Interested,
    NotInterested,
    Have(u32),
    Bitfield(Seq<u8>),
    Request(u32, u32, u32),
    Piece(u32, u32, Seq<u8>),
    Cancel,
}

/// Why a frame could not be read as a message.
#[derive(Debug, Clone, Copy, PartialEq, Eq, Structural)]
pub enum ProtocolError {
    /// The id byte names no message.
    UnknownId(u8),
    /// The payload is too short for the message that the id names.
    ShortPayload(u8),
    /// Fewer than four bytes: no length prefix.
    Truncated,
    /// The length prefix disagrees with the bytes that follow it.
    LengthMismatch,
}

impl View for Message {
    type V = MessageView;

    open spec fn view(&self) -> MessageView {
        match self {
            Message::KeepAlive => MessageView::KeepAlive,
            Message::Choke => MessageView::Choke,
            Message::Unchoke => MessageView::Unchoke,
            Message::Interested => MessageView::Interested,
            Message::NotInterested => MessageView::NotInterested,
            Message::Have(i) => MessageView::Have(*i),
            Message::Bitfield(b) => MessageView::Bitfield(b@),
            Message::Request(i, b, l) => MessageView::Request(*i, *b, *l),
            Message::Piece(i, b, d) => MessageView::Piece(*i, *b, d@),
            Message::Cancel => MessageView::Cancel,
        }
    }
}

pub open spec fn view_result(r: Result<Message, ProtocolError>) -> Result<MessageView, ProtocolError> {
    match r {
        Ok(m) => Ok(m@),
        Err(e) => Err(e),
    }
}

/// What follows the length prefix: the id byte and the payload, or nothing
/// for a keep-alive.
pub open spec fn body_of(m: MessageView) -> Seq<u8> {
    match m {
        MessageView::KeepAlive => Seq::empty(),
        MessageView::Choke => seq![0u8],
        MessageView::Unchoke => seq![1u8],
        MessageView::Interested => seq![2u8],
        MessageView::NotInterested => seq![3u8],
        MessageView::Have(i) => seq![4u8] + be_u32_bytes(i),
        MessageView::Bitfield(b) => seq![5u8] + b,
        MessageView::Request(i, b, l) => seq![6u8] + be_u32_bytes(i) + be_u32_bytes(b)
            + be_u32_bytes(l),
        MessageView::Piece(i, b, d) => seq![7u8] + be_u32_bytes(i) + be_u32_bytes(b) + d,
        MessageView::Cancel => seq![8u8],
    }
}

/// A message whose body length fits the 4-byte prefix.
pub open spec fn fits_frame(m: MessageView) -> bool {
    body_of(m).len() <= u32::MAX
}

/// The frame sent for `m`: its body length, big-endian, then its body.
pub open spec fn encode(m: MessageView) -> Seq<u8> {
    be_u32_bytes(body_of(m).len() as u32) + body_of(m)
}

/// The message that id `id` with payload `p` stands for.
pub open spec fn decode_message(id: u8, p: Seq<u8>) -> Result<MessageView, ProtocolError> {
    if id == 0 {
        Ok(MessageView::Choke)
    } else if id == 1 {
        Ok(MessageView::Unchoke)
    } else if id == 2 {
        Ok(MessageView::Interested)
    } else if id == 3 {
        Ok(MessageView::NotInterested)
    } else if id == 4 {
        if p.len() >= 4 {
            Ok(MessageView::Have(be_u32_value(p)))
        } else {
            Err(ProtocolError::ShortPayload(id))
        }
    } else if id == 5 {
        Ok(MessageView::Bitfield(p))
    } else if id == 6 {
        if p.len() >= 12 {
            Ok(
                MessageView::Request(
                    be_u32_value(p),
                    be_u32_value(p.subrange(4, 8)),
                    be_u32_value(p.subrange(8, 12)),
                ),
            )
        } else {
            Err(ProtocolError::ShortPayload(id))
        }
    } else if id == 7 {
        if p.len() >= 8 {
            Ok(
                MessageView::Piece(
                    be_u32_value(p),
                    be_u32_value(p.subrange(4, 8)),
                    p.subrange(8, p.len() as int),
                ),
            )
        } else {
            Err(ProtocolError::ShortPayload(id))
        }
    } else if id == 8 {
        Ok(MessageView::Cancel)
    } else {
        Err(ProtocolError::UnknownId(id))
    }
}

/// The message that a frame body (what follows the prefix) stands for.
pub open spec fn decode_body(body: Seq<u8>) -> Result<MessageView, ProtocolError> {
    if body.len() == 0 {
        Ok(MessageView::KeepAlive)
    } else {
        decode_message(body[0], body.drop_first())
    }
}

/// The message that a whole frame, prefix included, stands for.
pub open spec fn decode(frame: Seq<u8>) -> Result<MessageView, ProtocolError> {
    if frame.len() < 4 {
        Err(ProtocolError::Truncated)
    } else if be_u32_value(frame) != frame.len() - 4 {
        Err(ProtocolError::LengthMismatch)
    } else {
        decode_body(frame.subrange(4, frame.len() as int))
    }
}

/// Decoding the frame of any message that fits gives the message back.
pub proof fn lemma_decode_encode(m: MessageView)
    requires
        fits_frame(m),
    ensures
        decode(encode(m)) == Ok::<MessageView, ProtocolError>(m),
{
    let body = body_of(m);
    let frame = encode(m);
    let n = body.len() as u32;
    lemma_be_u32_round_trip(n);
    assert(frame.subrange(0, 4) =~= be_u32_bytes(n).subrange(0, 4));
    lemma_be_u32_prefix(frame, be_u32_bytes(n));
    assert(frame.subrange(4, frame.len() as int) =~= body);
    match m {
        MessageView::KeepAlive => {},
        MessageView::Have(i) => {
            lemma_be_u32_round_trip(i);
            let p = body.drop_first();
            assert(p =~= be_u32_bytes(i));
        },
        MessageView::Bitfield(b) => {
            assert(body.drop_first() =~= b);
        },
        MessageView::Request(i, b, l) => {
            lemma_be_u32_round_trip(i);
            lemma_be_u32_round_trip(b);
            lemma_be_u32_round_trip(l);
            let p = body.drop_first();
            assert(p.subrange(0, 4) =~= be_u32_bytes(i).subrange(0, 4));
            lemma_be_u32_prefix(p, be_u32_bytes(i));
            assert(p.subrange(4, 8) =~= be_u32_bytes(b));
            assert(p.subrange(8, 12) =~= be_u32_bytes(l));
        },
        MessageView::Piece(i, b, d) => {
            lemma_be_u32_round_trip(i);
            lemma_be_u32_round_trip(b);
            let p = body.drop_first();
            assert(p.subrange(0, 4) =~= be_u32_bytes(i).subrange(0, 4));
            lemma_be_u32_prefix(p, be_u32_bytes(i));
            assert(p.subrange(4, 8) =~= be_u32_bytes(b));
            assert(p.subrange(8, p.len() as int) =~= d);
        },
        _ => {
            assert(body.len() == 1);
        },
    }
}

/// The body length that a frame's 4-byte prefix announces.
pub fn frame_length(header: &[u8]) -> (r: u32)
    requires
        header@.len() >= 4,
    ensures
        r == be_u32_value(header@),
{
    read_be_u32(header)
}

impl Message {
    /// The message with id `id` and payload `payload`.
    pub fn new(id: u8, payload: &[u8]) -> (r: Result<Message, ProtocolError>)
        ensures
            view_result(r) == decode_message(id, payload@),
    {
        match id {
            0 => Ok(Message::Choke),
            1 => Ok(Message::Unchoke),
            2 => Ok(Message::Interested),
            3 => Ok(Message::NotInterested),
            4 => {
                if payload.len() < 4 {
                    return Err(ProtocolError::ShortPayload(id));
                }
                Ok(Message::Have(read_be_u32(payload)))
            },
            5 => Ok(Message::Bitfield(slice_to_vec(payload))),
            6 => {
                if payload.len() < 12 {
                    return Err(ProtocolError::ShortPayload(id));
                }
                let index = read_be_u32(payload);
                let begin = read_be_u32(slice_subrange(payload, 4, 8));
                let length = read_be_u32(slice_subrange(payload, 8, 12));
                Ok(Message::Request(index, begin, length))
            },
            7 => {
                if payload.len() < 8 {
                    return Err(ProtocolError::ShortPayload(id));
                }
                let index = read_be_u32(payload);
                let begin = read_be_u32(slice_subrange(payload, 4, 8));
                let piece = slice_to_vec(slice_subrange(payload, 8, payload.len()));
                Ok(Message::Piece(index, begin, piece))
            },
            8 => Ok(Message::Cancel),
            _ => Err(ProtocolError::UnknownId(id)),
        }
    }

    /// The message that a frame body stands for: a keep-alive when it is
    /// empty, else its first byte is the id and the rest the payload.
    pub fn from_body(body: &[u8]) -> (r: Result<Message, ProtocolError>)
        ensures
            view_result(r) == decode_body(body@),
    {
        if body.len() == 0 {
            Ok(Message::KeepAlive)
        } else {
            Message::new(body[0], slice_subrange(body, 1, body.len()))
        }
    }

    /// The message that a whole frame stands for, checking its length prefix.
    pub fn deserialize(frame: &[u8]) -> (r: Result<Message, ProtocolError>)
        ensures
            view_result(r) == decode(frame@),
    {
        if frame.len() < 4 {
            return Err(ProtocolError::Truncated);
        }
        let length = read_be_u32(frame);
        if length as u64 != (frame.len() - 4) as u64 {
            return Err(ProtocolError::LengthMismatch);
        }
        Message::from_body(slice_subrange(frame, 4, frame.len()))
    }

    /// The frame that carries this message.
    pub fn serialize(self) -> (r: Vec<u8>)
        requires
            fits_frame(self@),
        ensures
            r@ == encode(self@),
    {
        let ghost m = self@;
        let mut body: Vec<u8> = Vec::new();
        match self {
            Message::KeepAlive => {},
            Message::Choke => body.push(0),
            Message::Unchoke => body.push(1),
            Message::Interested => body.push(2),
            Message::NotInterested => body.push(3),
            Message::Have(index) => {
                body.push(4);
                body.append(&mut u32_to_be_bytes(index));
            },
            Message::Bitfield(mut bitfield) => {
                body.push(5);
                body.append(&mut bitfield);
            },
            Message::Request(index, begin, length) => {
                body.push(6);
                body.append(&mut u32_to_be_bytes(index));
                body.append(&mut u32_to_be_bytes(begin));
                body.append(&mut u32_to_be_bytes(length));
            },
            Message::Piece(index, begin, mut piece) => {
                body.push(7);
                body.append(&mut u32_to_be_bytes(index));
                body.append(&mut u32_to_be_bytes(begin));
                body.append(&mut piece);
            },
            Message::Cancel => body.push(8),
        }
        assert(body@ =~= body_of(m));
        let mut message = u32_to_be_bytes(body.len() as u32);
        message.append(&mut body);
        message
    }
}

} // verus!
