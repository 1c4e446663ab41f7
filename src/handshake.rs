//! The 68-byte handshake that opens a peer connection.

use crate::connection::{ConnectionError, WrongHash};
use crate::wire::bytes_equal;
use vstd::prelude::*;
use vstd::slice::{slice_subrange, slice_to_vec};

verus! {

/// The ASCII bytes of "BitTorrent protocol".
pub open spec fn protocol_id() -> Seq<u8> {
    seq![66u8, 105, 116, 84, 111, 114, 114, 101, 110, 116, 32, 112, 114, 111, 116, 111, 99, 111, 108]
}

/// The bytes of a handshake: the identifier's length and the identifier,
/// eight zero bytes, the info-hash and the peer id.
pub open spec fn handshake_bytes(pstr: Seq<u8>, info_hash: Seq<u8>, peer_id: Seq<u8>) -> Seq<u8> {
    seq![pstr.len() as u8] + pstr + Seq::new(8, |k: int| 0u8) + info_hash + peer_id
}

/// The handshake we send for an info-hash and a peer id of 20 bytes each is
/// 68 bytes long: 19, then "BitTorrent protocol", then eight zero bytes.
pub proof fn lemma_handshake_layout(info_hash: Seq<u8>, peer_id: Seq<u8>)
    requires
        info_hash.len() == 20,
        peer_id.len() == 20,
    ensures
        ({
            let b = handshake_bytes(protocol_id(), info_hash, peer_id);
            &&& b.len() == 68
            &&& b[0] == 19
            &&& b.subrange(1, 20) == protocol_id()
            &&& forall|k: int| 20 <= k < 28 ==> b[k] == 0
            &&& b.subrange(28, 48) == info_hash
            &&& b.subrange(48, 68) == peer_id
        }),
{
    let b = handshake_bytes(protocol_id(), info_hash, peer_id);
    assert(b.subrange(1, 20) =~= protocol_id());
    assert(b.subrange(28, 48) =~= info_hash);
    assert(b.subrange(48, 68) =~= peer_id);
}

/// A handshake: the protocol identifier, the torrent's info-hash and the
/// sender's peer id.
#[derive(Debug)]
pub struct Handshake {
    pub pstr: Vec<u8>,
    pub info_hash: Vec<u8>,
    pub peer_id: Vec<u8>,
}

impl Handshake {
    /// Our handshake for a torrent and a peer id.
    pub fn new(info_hash: &Vec<u8>, peer_id: &Vec<u8>) -> (r: Handshake)
        ensures
            r.pstr@ == protocol_id(),
            r.info_hash@ == info_hash@,
            r.peer_id@ == peer_id@,
    {
        let pstr: Vec<u8> = vec![66u8, 105, 116, 84, 111, 114, 114, 101, 110, 116, 32, 112, 114, 111, 116, 111, 99, 111, 108];
        assert(pstr@ =~= protocol_id());
        Handshake {
            pstr,
            info_hash: slice_to_vec(info_hash.as_slice()),
            peer_id: slice_to_vec(peer_id.as_slice()),
        }
    }

    /// The bytes sent on the wire.
    pub fn as_bytes(&self) -> (r: Vec<u8>)
        requires
            self.pstr@.len() < 256,
        ensures
            r@ == handshake_bytes(self.pstr@, self.info_hash@, self.peer_id@),
    {
        let mut result: Vec<u8> = Vec::new();
        result.push(self.pstr.len() as u8);
        result.extend_from_slice(self.pstr.as_slice());
        let mut zeros: Vec<u8> = vec![0u8; 8];
        result.append(&mut zeros);
        result.extend_from_slice(self.info_hash.as_slice());
        result.extend_from_slice(self.peer_id.as_slice());
        assert(result@ =~= handshake_bytes(self.pstr@, self.info_hash@, self.peer_id@));
        result
    }

    /// Reads a 68-byte handshake: the identifier at bytes 1..20, the info-hash
    /// at 28..48 and the peer id at 48..68.
    pub fn from_bytes(b: &[u8]) -> (r: Result<Handshake, ConnectionError>)
        ensures
            r is Ok <==> b@.len() >= 68,
            r matches Ok(h) ==> {
                &&& h.pstr@ == b@.subrange(1, 20)
                &&& h.info_hash@ == b@.subrange(28, 48)
                &&& h.peer_id@ == b@.subrange(48, 68)
            },
            r matches Err(e) ==> e is ShortHandshake,
    {
        if b.len() < 68 {
            return Err(ConnectionError::ShortHandshake);
        }
        Ok(
            Handshake {
                pstr: slice_to_vec(slice_subrange(b, 1, 20)),
                info_hash: slice_to_vec(slice_subrange(b, 28, 48)),
                peer_id: slice_to_vec(slice_subrange(b, 48, 68)),
            },
        )
    }

    /// Checks a peer's reply to this handshake: it succeeds, giving the
    /// peer's handshake, exactly when the reply holds 68 bytes and names our
    /// info-hash.
    pub fn check_reply(&self, reply: &[u8]) -> (r: Result<Handshake, ConnectionError>)
        ensures
            r is Ok <==> reply@.len() >= 68 && reply@.subrange(28, 48) == self.info_hash@,
            r matches Ok(h) ==> {
                &&& h.pstr@ == reply@.subrange(1, 20)
                &&& h.info_hash@ == self.info_hash@
                &&& h.peer_id@ == reply@.subrange(48, 68)
            },
            r matches Err(e) ==> match e {
                ConnectionError::ShortHandshake => reply@.len() < 68,
                ConnectionError::WrongHash(w) => w.0@ == self.info_hash@ && w.1@
                    == reply@.subrange(28, 48) && w.1@ != w.0@,
                ConnectionError::IOError => false,
            },
    {
        let theirs = match Handshake::from_bytes(reply) {
            Ok(h) => h,
            Err(e) => return Err(e),
        };
        if bytes_equal(&self.info_hash, &theirs.info_hash) {
            Ok(theirs)
        } else {
            Err(
                ConnectionError::WrongHash(
                    WrongHash(slice_to_vec(self.info_hash.as_slice()), theirs.info_hash),
                ),
            )
        }
    }
}

} // verus!
