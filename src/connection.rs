//! The state of one peer connection: whether the peer chokes us and which
//! pieces it has, kept as a bitfield numbered from the high bit of each byte.

use crate::message::{Message, MessageView};
use vstd::prelude::*;

verus! {

/// The bit of piece `i` within its byte: the high bit for `i % 8 == 0`.
pub open spec fn bit_mask(i: nat) -> u8 {
    0x80u8 >> ((i % 8) as u8)
}

/// Piece `i` is marked in bitfield `b`.
pub open spec fn bit_set(b: Seq<u8>, i: nat) -> bool {
    i / 8 < b.len() && b[(i / 8) as int] & bit_mask(i) != 0
}

/// Bitfield `b` with piece `i` marked; unchanged where `i` lies past its end.
pub open spec fn with_bit(b: Seq<u8>, i: nat) -> Seq<u8> {
    if i / 8 < b.len() {
        b.update((i / 8) as int, b[(i / 8) as int] | bit_mask(i))
    } else {
        b
    }
}

/// Bytes in the bitfield of `n` pieces: the ceiling of `n / 8`.
pub open spec fn bitfield_len(n: nat) -> nat {
    ((n + 7) / 8) as nat
}

proof fn lemma_mask_bits(x: u8, k: u8, m: u8)
    requires
        k < 8,
        m < 8,
    ensures
        (x | (0x80u8 >> k)) & (0x80u8 >> k) != 0,
        k != m ==> ((x | (0x80u8 >> k)) & (0x80u8 >> m) != 0 <==> x & (0x80u8 >> m) != 0),
{
    assert((x | (0x80u8 >> k)) & (0x80u8 >> k) != 0) by (bit_vector)
        requires
            k < 8,
    ;
    assert(k != m ==> ((x | (0x80u8 >> k)) & (0x80u8 >> m) != 0 <==> x & (0x80u8 >> m) != 0))
        by (bit_vector)
        requires
            k < 8,
            m < 8,
    ;
}

/// Marking piece `i` in a bitfield long enough to hold it: afterwards piece
/// `i` is marked, and every other piece is marked exactly when it was before.
pub proof fn lemma_set_then_has(b: Seq<u8>, i: nat)
    requires
        i < 8 * b.len(),
    ensures
        bit_set(with_bit(b, i), i),
        with_bit(b, i).len() == b.len(),
        forall|j: nat| j != i ==> bit_set(#[trigger] with_bit(b, i), j) == bit_set(b, j),
{
    let nb = with_bit(b, i);
    assert(i / 8 < b.len());
    lemma_mask_bits(b[(i / 8) as int], (i % 8) as u8, (i % 8) as u8);
    assert forall|j: nat| j != i implies bit_set(#[trigger] with_bit(b, i), j) == bit_set(b, j) by {
        if j / 8 == i / 8 && j / 8 < b.len() {
            assert(j % 8 != i % 8);
            lemma_mask_bits(b[(i / 8) as int], (i % 8) as u8, (j % 8) as u8);
        }
    }
}

/// The bitfield that a Have marks a piece in: the peer's, or an all-clear
/// one for every piece while it has sent none.
pub open spec fn have_base(c: Connection) -> Seq<u8> {
    match c.bitfield {
        Some(b) => b@,
        None => Seq::new(bitfield_len(c.num_pieces as nat), |k: int| 0u8),
    }
}

/// `c2` is `c1` after message `m`, bitfield messages aside: Have marks a
/// piece, Choke and Unchoke set the flag, and any other message changes
/// nothing.
pub open spec fn peer_update(c1: Connection, c2: Connection, m: MessageView) -> bool {
    &&& c2.name == c1.name
    &&& c2.num_pieces == c1.num_pieces
    &&& match m {
        MessageView::Have(i) => {
            &&& c2.bitfield is Some
            &&& c2.have_set() == with_bit(have_base(c1), i as nat)
            &&& c2.chocked == c1.chocked
        },
        MessageView::Choke => c2.chocked && c2.bitfield == c1.bitfield,
        MessageView::Unchoke => !c2.chocked && c2.bitfield == c1.bitfield,
        _ => c2.chocked == c1.chocked && c2.bitfield == c1.bitfield,
    }
}

/// What we know of a connected peer.
pub struct Connection {
    /// The peer's address, for naming its worker.
    pub name: String,
    /// The peer is choking us: no requests may be sent.
    pub chocked: bool,
    /// The pieces the peer has, once it has said.
    pub bitfield: Option<Vec<u8>>,
    /// Pieces in the torrent, which sizes a bitfield made here.
    pub num_pieces: u32,
}

impl Connection {
    /// The pieces the peer has, as a bitfield; empty until it has said.
    pub open spec fn have_set(&self) -> Seq<u8> {
        match self.bitfield {
            Some(b) => b@,
            None => Seq::empty(),
        }
    }

    /// A connection just past its handshake: choked, with no bitfield.
    pub fn new(name: String, num_pieces: u32) -> (r: Connection)
        ensures
            r.name == name,
            r.num_pieces == num_pieces,
            r.chocked,
            r.bitfield is None,
    {
        Connection { name, chocked: true, bitfield: None, num_pieces }
    }

    /// Whether the peer has piece `index`; false while it has sent no
    /// bitfield.
    pub fn has_piece(&self, index: &u32) -> (r: bool)
        ensures
            r == bit_set(self.have_set(), *index as nat),
    {
        match &self.bitfield {
            None => false,
            Some(bitfield) => {
                let byte_index = (*index / 8) as usize;
                let offset = (*index % 8) as u8;
                if byte_index >= bitfield.len() {
                    return false;
                }
                bitfield[byte_index] & (0x80u8 >> offset) != 0
            },
        }
    }

    /// Marks piece `index` as one the peer has, first making an all-clear
    /// bitfield for every piece if the peer has sent none.
    pub fn set_piece(&mut self, index: &u32)
        ensures
            final(self).name == old(self).name,
            final(self).chocked == old(self).chocked,
            final(self).num_pieces == old(self).num_pieces,
            final(self).bitfield is Some,
            final(self).have_set() == with_bit(have_base(*old(self)), *index as nat),
    {
        if self.bitfield.is_none() {
            let n = (self.num_pieces as u64 + 7) / 8;
            let zeros: Vec<u8> = vec![0u8; n as usize];
            assert(zeros@ =~= Seq::new(bitfield_len(self.num_pieces as nat), |k: int| 0u8));
            self.bitfield = Some(zeros);
        }
        let ghost before = self.have_set();
        let byte_index = (*index / 8) as usize;
        let offset = (*index % 8) as u8;
        match &mut self.bitfield {
            Some(bitfield) => {
                if byte_index < bitfield.len() {
                    let byte = bitfield[byte_index] | (0x80u8 >> offset);
                    bitfield.set(byte_index, byte);
                }
            },
            None => {},
        }
        assert(self.have_set() =~= with_bit(before, *index as nat));
    }

    /// Takes in a message read before the download starts. A bitfield is
    /// stored and answered with Unchoke and Interested; Have marks a piece;
    /// Choke and Unchoke set the flag. The result is what to send back.
    pub fn interpret_message(&mut self, message: Message) -> (r: Vec<Message>)
        ensures
            match message@ {
                MessageView::Bitfield(b) => {
                    &&& final(self).name == old(self).name
                    &&& final(self).num_pieces == old(self).num_pieces
                    &&& final(self).chocked == old(self).chocked
                    &&& final(self).bitfield matches Some(v) && v@ == b
                    &&& r@.len() == 2
                    &&& r@[0]@ == MessageView::Unchoke
                    &&& r@[1]@ == MessageView::Interested
                },
                _ => peer_update(*old(self), *final(self), message@) && r@.len() == 0,
            },
    {
        let mut replies: Vec<Message> = Vec::new();
        match message {
            Message::Bitfield(bitfield) => {
                self.bitfield = Some(bitfield);
                replies.push(Message::Unchoke);
                replies.push(Message::Interested);
            },
            Message::Have(index) => self.set_piece(&index),
            Message::Choke => self.chocked = true,
            Message::Unchoke => self.chocked = false,
            _ => {},
        }
        replies
    }
}

/// The info-hash we expected in a peer's handshake, and the one it sent.
#[derive(Debug)]
pub struct WrongHash(pub Vec<u8>, pub Vec<u8>);

/// Why a connection could not be set up or went on no further.
#[derive(Debug)]
pub enum ConnectionError {
    /// The peer's handshake names another torrent.
    WrongHash(WrongHash),
    /// The peer's handshake was shorter than 68 bytes.
    ShortHandshake,
    /// Reading from or writing to the peer failed.
    IOError,
}

} // verus!
