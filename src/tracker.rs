//! What the tracker tells us: the compact peer list, and the percent-encoding
//! of the raw bytes we send it.

use crate::wire::{be_u16_value, read_be_u16};
use percent_encoding::percent_encode_byte;
use vstd::prelude::*;
use vstd::slice::slice_subrange;

verus! {

/// A peer to connect to: its IPv4 address and port.
#[derive(Clone, Copy, Debug, PartialEq, Eq)]
pub struct Peer {
    pub ip: [u8; 4],
    pub port: u16,
}

/// The tracker's answer.
pub struct TrackerResponse {
    /// Seconds the tracker asks us to wait between announces.
    pub interval: u32,
    pub peers: Vec<Peer>,
}

/// `p` is the peer that the six bytes of `b` from `at` on describe: four
/// address bytes, then the port, big-endian.
pub open spec fn peer_at(p: Peer, b: Seq<u8>, at: int) -> bool {
    &&& p.ip@ == b.subrange(at, at + 4)
    &&& p.port == be_u16_value(b.subrange(at + 4, at + 6))
}

impl Peer {
    /// The peer that the first six bytes of `b` describe.
    pub fn from_bytes(b: &[u8]) -> (r: Peer)
        requires
            b@.len() >= 6,
        ensures
            peer_at(r, b@, 0),
    {
        let ip: [u8; 4] = [b[0], b[1], b[2], b[3]];
        let port = read_be_u16(slice_subrange(b, 4, 6));
        let r = Peer { ip, port };
        assert(r.ip@ =~= b@.subrange(0, 4));
        r
    }

    /// The peers of a compact peer list, six bytes each; `None` when the
    /// length is not a multiple of six.
    pub fn list_from_bytes(v: &[u8]) -> (r: Option<Vec<Peer>>)
        ensures
            r is Some <==> v@.len() % 6 == 0,
            r matches Some(peers) ==> {
                &&& peers@.len() == v@.len() / 6
                &&& forall|i: int| 0 <= i < peers@.len() ==> peer_at(#[trigger] peers@[i], v@, 6 * i)
            },
    {
        if v.len() % 6 != 0 {
            return None;
        }
        let total = v.len();
        let count = total / 6;
        let mut peers: Vec<Peer> = Vec::new();
        let mut i: usize = 0;
        while i < count
            invariant
                total == v@.len(),
                count == v@.len() / 6,
                v@.len() % 6 == 0,
                i <= count,
                peers@.len() == i,
                forall|j: int| 0 <= j < i ==> peer_at(#[trigger] peers@[j], v@, 6 * j),
            decreases count - i,
        {
            assert(6 * i + 6 <= v@.len()) by (nonlinear_arith)
                requires
                    i < count,
                    count == v@.len() / 6,
            ;
            let chunk = slice_subrange(v, 6 * i, 6 * i + 6);
            let peer = Peer::from_bytes(chunk);
            assert(chunk@.subrange(0, 4) =~= v@.subrange(6 * i, 6 * i + 4));
            assert(chunk@.subrange(4, 6) =~= v@.subrange(6 * i + 4, 6 * i + 6));
            peers.push(peer);
            i = i + 1;
        }
        Some(peers)
    }
}

/// The upper-case hexadecimal digit of `d` (below 16).
pub open spec fn hex_digit(d: int) -> char {
    seq!['0', '1', '2', '3', '4', '5', '6', '7', '8', '9', 'A', 'B', 'C', 'D', 'E', 'F'][d]
}

/// `%` and the two upper-case hexadecimal digits of `b`.
pub open spec fn percent_of(b: u8) -> Seq<char> {
    seq!['%', hex_digit(b as int / 16), hex_digit(b as int % 16)]
}

/// Every byte of `bytes` percent-encoded, in order.
pub open spec fn url_encoded(bytes: Seq<u8>) -> Seq<char>
    decreases bytes.len(),
{
    if bytes.len() == 0 {
        Seq::empty()
    } else {
        url_encoded(bytes.drop_last()) + percent_of(bytes.last())
    }
}

/// Relies on percent_encoding's `percent_encode_byte`: `%` and the byte's two
/// upper-case hexadecimal digits, read from a fixed table.
#[verifier::external_body]
fn percent_encoded(byte: u8) -> (r: &'static str)
    ensures
        r@ == percent_of(byte),
{
    percent_encode_byte(byte)
}

/// Percent-encodes every byte, as a tracker expects a raw info-hash or peer
/// id in a query.
pub fn url_encode(bytes: &Vec<u8>) -> (r: String)
    ensures
        r@ == url_encoded(bytes@),
{
    let mut encoded = String::new();
    let mut i: usize = 0;
    while i < bytes.len()
        invariant
            i <= bytes@.len(),
            encoded@ == url_encoded(bytes@.subrange(0, i as int)),
        decreases bytes@.len() - i,
    {
        assert(bytes@.subrange(0, i + 1).drop_last() =~= bytes@.subrange(0, i as int));
        encoded.append(percent_encoded(bytes[i]));
        i = i + 1;
    }
    assert(bytes@.subrange(0, bytes@.len() as int) =~= bytes@);
    encoded
}

/// The start of an announce URL: the tracker's URL, then the info-hash and
/// our peer id as query parameters, every byte percent-encoded.
pub fn announce_url_base(announce: &str, info_hash: &Vec<u8>, peer_id: &Vec<u8>) -> (r: String)
    ensures
        r@ == announce@ + "?info_hash="@ + url_encoded(info_hash@) + "&peer_id="@ + url_encoded(
            peer_id@,
        ),
{
    let mut url = String::from_str(announce);
    url.append("?info_hash=");
    let hash = url_encode(info_hash);
    url.append(hash.as_str());
    url.append("&peer_id=");
    let id = url_encode(peer_id);
    url.append(id.as_str());
    url
}

} // verus!
