//! The state shared by all peer workers: the queue of pieces not yet taken
//! and the count of pieces written. Callers serialise access to it.

use crate::connection::{bit_set, Connection};
use crate::torrent::{Piece, Torrent};
use rand::Rng;
use std::collections::VecDeque;
use vstd::prelude::*;
use vstd::set_lib::set_int_range;
use vstd::slice::slice_to_vec;

verus! {

/// The port we announce.
pub const PORT: u16 = 6881;

/// The shared state seen as values.
pub struct SessionView {
    pub info_hash: Seq<u8>,
    pub total: nat,
    /// Pieces waiting to be taken, front first.
    pub queue: Seq<Piece>,
    /// Pieces verified and written.
    pub done: nat,
}

/// The pieces shared by the workers of one download.
pub struct TorrentState {
    info_hash: Vec<u8>,
    total_pieces: u32,
    piece_queue: VecDeque<Piece>,
    done_pieces: u32,
}

/// What a worker is to do next.
pub enum Assignment {
    /// Download this piece, taken off the queue.
    Piece(Piece),
    /// Pieces are queued but the peer has none of them: wait and ask again.
    Wait,
    /// Nothing is queued: the worker is done.
    Finished,
}

impl View for TorrentState {
    type V = SessionView;

    closed spec fn view(&self) -> SessionView {
        SessionView {
            info_hash: self.info_hash@,
            total: self.total_pieces as nat,
            queue: self.piece_queue@,
            done: self.done_pieces as nat,
        }
    }
}

impl TorrentState {
    /// Every piece of the torrent queued in index order, none written.
    pub fn new(torrent: &Torrent) -> (r: TorrentState)
        requires
            torrent.wf(),
        ensures
            r@.info_hash == torrent.info_hash@,
            r@.total == torrent.pieces@.len(),
            r@.done == 0,
            r@.queue.len() == torrent.pieces@.len(),
            forall|i: int| 0 <= i < r@.queue.len() ==> torrent.is_piece(#[trigger] r@.queue[i], i),
    {
        TorrentState {
            done_pieces: 0,
            piece_queue: torrent.create_piece_queue(),
            total_pieces: torrent.pieces.len() as u32,
            info_hash: slice_to_vec(torrent.info_hash.as_slice()),
        }
    }

    pub fn info_hash(&self) -> (r: &Vec<u8>)
        ensures
            r@ == self@.info_hash,
    {
        &self.info_hash
    }

    pub fn total_pieces(&self) -> (r: u32)
        ensures
            r == self@.total,
    {
        self.total_pieces
    }

    pub fn done_pieces(&self) -> (r: u32)
        ensures
            r == self@.done,
    {
        self.done_pieces
    }

    /// Whether every piece has been written.
    pub fn is_done(&self) -> (r: bool)
        ensures
            r == (self@.done >= self@.total),
    {
        self.done_pieces >= self.total_pieces
    }

    /// Takes the piece at the front of the queue, if any.
    pub fn get_piece_from_queue(&mut self) -> (r: Option<Piece>)
        ensures
            final(self)@.info_hash == old(self)@.info_hash,
            final(self)@.total == old(self)@.total,
            final(self)@.done == old(self)@.done,
            old(self)@.queue.len() == 0 ==> r is None && final(self)@.queue == old(self)@.queue,
            old(self)@.queue.len() > 0 ==> r == Some(old(self)@.queue[0])
                && final(self)@.queue == old(self)@.queue.remove(0),
    {
        let r = self.piece_queue.pop_front();
        proof {
            if old(self)@.queue.len() > 0 {
                assert(self@.queue =~= old(self)@.queue.remove(0));
            }
        }
        r
    }

    /// Puts a piece back at the end of the queue.
    pub fn push_piece_to_queue(&mut self, piece: Piece)
        ensures
            final(self)@.info_hash == old(self)@.info_hash,
            final(self)@.total == old(self)@.total,
            final(self)@.done == old(self)@.done,
            final(self)@.queue == old(self)@.queue.push(piece),
    {
        self.piece_queue.push_back(piece);
    }

    /// Takes the first queued piece that the peer has. When pieces are queued
    /// but the peer has none of them, the queue stays as it is and the worker
    /// is told to wait rather than spin.
    pub fn take_piece_for(&mut self, conn: &Connection) -> (r: Assignment)
        ensures
            final(self)@.info_hash == old(self)@.info_hash,
            final(self)@.total == old(self)@.total,
            final(self)@.done == old(self)@.done,
            match r {
                Assignment::Finished => old(self)@.queue.len() == 0 && final(self)@.queue
                    == old(self)@.queue,
                Assignment::Wait => {
                    &&& old(self)@.queue.len() > 0
                    &&& final(self)@.queue == old(self)@.queue
                    &&& forall|k: int|
                        0 <= k < old(self)@.queue.len() ==> !bit_set(
                            conn.have_set(),
                            #[trigger] old(self)@.queue[k].index as nat,
                        )
                },
                Assignment::Piece(p) => exists|k: int|
                    {
                        &&& 0 <= k < old(self)@.queue.len()
                        &&& p == old(self)@.queue[k]
                        &&& bit_set(conn.have_set(), p.index as nat)
                        &&& final(self)@.queue == old(self)@.queue.remove(k)
                        &&& forall|j: int|
                            0 <= j < k ==> !bit_set(
                                conn.have_set(),
                                #[trigger] old(self)@.queue[j].index as nat,
                            )
                    },
            },
    {
        let n = self.piece_queue.len();
        if n == 0 {
            return Assignment::Finished;
        }
        let mut k: usize = 0;
        while k < n
            invariant
                self@ == old(self)@,
                n == self.piece_queue@.len(),
                k <= n,
                forall|j: int|
                    0 <= j < k ==> !bit_set(
                        conn.have_set(),
                        #[trigger] self.piece_queue@[j].index as nat,
                    ),
            decreases n - k,
        {
            if conn.has_piece(&self.piece_queue[k].index) {
                match self.piece_queue.remove(k) {
                    Some(p) => {
                        assert(self@.queue == old(self)@.queue.remove(k as int));
                        return Assignment::Piece(p);
                    },
                    None => {
                        return Assignment::Wait;
                    },
                }
            }
            k = k + 1;
        }
        Assignment::Wait
    }

    /// Counts one more piece as written; the count stops at the number of
    /// pieces.
    pub fn record_commit(&mut self)
        ensures
            final(self)@.info_hash == old(self)@.info_hash,
            final(self)@.total == old(self)@.total,
            final(self)@.queue == old(self)@.queue,
            final(self)@.done == if old(self)@.done < old(self)@.total {
                old(self)@.done + 1
            } else {
                old(self)@.done
            },
    {
        if self.done_pieces < self.total_pieces {
            self.done_pieces = self.done_pieces + 1;
        }
    }
}

/// Piece index `i` waits in the queue.
pub open spec fn is_queued(q: Seq<Piece>, i: int) -> bool {
    exists|k: int| 0 <= k < q.len() && #[trigger] q[k].index == i
}

/// Every piece index below `total` is in exactly one place: once in the
/// queue, in the hands of a worker (`in_flight`), or written (`completed`);
/// and `done` counts the written ones.
pub open spec fn pieces_accounted(s: SessionView, in_flight: Set<int>, completed: Set<int>) -> bool {
    &&& forall|a: int, b: int|
        0 <= a < b < s.queue.len() ==> #[trigger] s.queue[a].index != #[trigger] s.queue[b].index
    &&& forall|k: int|
        0 <= k < s.queue.len() ==> {
            let i = #[trigger] s.queue[k].index as int;
            &&& i < s.total
            &&& !in_flight.contains(i)
            &&& !completed.contains(i)
        }
    &&& in_flight.disjoint(completed)
    &&& forall|i: int| #[trigger] in_flight.contains(i) ==> 0 <= i < s.total
    &&& forall|i: int| #[trigger] completed.contains(i) ==> 0 <= i < s.total
    &&& forall|i: int|
        0 <= i < s.total ==> #[trigger] in_flight.contains(i) || completed.contains(i)
            || is_queued(s.queue, i)
    &&& completed.finite()
    &&& s.done == completed.len()
}

/// The session after the queued piece at position `k` is taken.
pub open spec fn after_take(s: SessionView, k: int) -> SessionView {
    SessionView { queue: s.queue.remove(k), ..s }
}

/// The session after piece `p` is put back.
pub open spec fn after_return(s: SessionView, p: Piece) -> SessionView {
    SessionView { queue: s.queue.push(p), ..s }
}

/// The session after one more piece is written.
pub open spec fn after_commit(s: SessionView) -> SessionView {
    SessionView { done: s.done + 1, ..s }
}

/// However the workers interleave taking, returning and committing pieces,
/// each piece stays in exactly one place. A piece taken from the queue is in
/// no worker's hands already, so no piece is held twice at once; a piece put
/// back or committed leaves the worker that held it; a commit never takes the
/// count past the number of pieces, so `done` equals the number of commits;
/// and when nothing is queued or held, every piece has been written.
pub proof fn lemma_work_queue_safety(s: SessionView, in_flight: Set<int>, completed: Set<int>)
    requires
        pieces_accounted(s, in_flight, completed),
    ensures
        forall|k: int|
            0 <= k < s.queue.len() ==> !in_flight.contains(#[trigger] s.queue[k].index as int)
                && pieces_accounted(
                after_take(s, k),
                in_flight.insert(s.queue[k].index as int),
                completed,
            ),
        forall|p: Piece|
            #[trigger] in_flight.contains(p.index as int) ==> pieces_accounted(
                after_return(s, p),
                in_flight.remove(p.index as int),
                completed,
            ),
        forall|i: int|
            #[trigger] in_flight.contains(i) ==> s.done < s.total && pieces_accounted(
                after_commit(s),
                in_flight.remove(i),
                completed.insert(i),
            ),
        s.queue.len() == 0 && in_flight.is_empty() ==> s.done == s.total,
{
    let range = set_int_range(0, s.total as int);
    assert(completed.subset_of(range));
    vstd::set_lib::lemma_int_range(0, s.total as int);
    vstd::set_lib::lemma_len_subset(completed, range);
    assert forall|k: int| 0 <= k < s.queue.len() implies !in_flight.contains(
        #[trigger] s.queue[k].index as int,
    ) && pieces_accounted(after_take(s, k), in_flight.insert(s.queue[k].index as int), completed) by {
        let t = after_take(s, k);
        let x = s.queue[k].index as int;
        let f = in_flight.insert(x);
        assert forall|i: int| 0 <= i < t.total implies #[trigger] f.contains(i) || completed.contains(
            i,
        ) || is_queued(t.queue, i) by {
            if !f.contains(i) && !completed.contains(i) {
                assert(is_queued(s.queue, i));
                let m = choose|m: int| 0 <= m < s.queue.len() && #[trigger] s.queue[m].index == i;
                assert(m != k);
                if m < k {
                    assert(t.queue[m] == s.queue[m]);
                } else {
                    assert(t.queue[m - 1] == s.queue[m]);
                }
            }
        }
        assert forall|a: int, b: int|
            0 <= a < b < t.queue.len() implies #[trigger] t.queue[a].index
            != #[trigger] t.queue[b].index by {
            let a2 = if a < k { a } else { a + 1 };
            let b2 = if b < k { b } else { b + 1 };
            assert(t.queue[a] == s.queue[a2]);
            assert(t.queue[b] == s.queue[b2]);
        }
        assert forall|j: int| 0 <= j < t.queue.len() implies {
            let i = #[trigger] t.queue[j].index as int;
            &&& i < t.total
            &&& !f.contains(i)
            &&& !completed.contains(i)
        } by {
            let j2 = if j < k { j } else { j + 1 };
            assert(t.queue[j] == s.queue[j2]);
        }
    }
    assert forall|p: Piece| #[trigger] in_flight.contains(p.index as int) implies pieces_accounted(
        after_return(s, p),
        in_flight.remove(p.index as int),
        completed,
    ) by {
        let t = after_return(s, p);
        let x = p.index as int;
        let f = in_flight.remove(x);
        let n = s.queue.len() as int;
        assert(t.queue[n] == p);
        assert forall|i: int| 0 <= i < t.total implies #[trigger] f.contains(i) || completed.contains(
            i,
        ) || is_queued(t.queue, i) by {
            if i == x {
                assert(t.queue[n].index == i);
            } else if !f.contains(i) && !completed.contains(i) {
                let m = choose|m: int| 0 <= m < s.queue.len() && #[trigger] s.queue[m].index == i;
                assert(t.queue[m] == s.queue[m]);
            }
        }
        assert forall|a: int, b: int|
            0 <= a < b < t.queue.len() implies #[trigger] t.queue[a].index
            != #[trigger] t.queue[b].index by {
            assert(t.queue[a] == s.queue[a]);
            if b < n {
                assert(t.queue[b] == s.queue[b]);
            }
        }
        assert forall|j: int| 0 <= j < t.queue.len() implies {
            let i = #[trigger] t.queue[j].index as int;
            &&& i < t.total
            &&& !f.contains(i)
            &&& !completed.contains(i)
        } by {
            if j < n {
                assert(t.queue[j] == s.queue[j]);
            }
        }
    }
    assert forall|i: int| #[trigger] in_flight.contains(i) implies s.done < s.total
        && pieces_accounted(after_commit(s), in_flight.remove(i), completed.insert(i)) by {
        let c = completed.insert(i);
        assert(c.subset_of(range));
        vstd::set_lib::lemma_len_subset(c, range);
        assert(c.len() == completed.len() + 1);
    }
    if s.queue.len() == 0 && in_flight.is_empty() {
        assert forall|i: int| #[trigger] range.contains(i) implies completed.contains(i) by {
            assert(!in_flight.contains(i));
            assert(!is_queued(s.queue, i));
        }
        assert(completed =~= range);
    }
}

/// Relies on rand's `thread_rng().gen::<[u8; 20]>()`: twenty random bytes.
#[verifier::external_body]
fn random_peer_id() -> (r: Vec<u8>)
    ensures
        r@.len() == 20,
{
    rand::thread_rng().gen::<[u8; 20]>().to_vec()
}

/// Our side of the download: a random peer id, the port and counters we
/// announce, and the shared piece state.
pub struct Client {
    pub id: Vec<u8>,
    pub port: u16,
    pub uploaded: u32,
    pub downloaded: u32,
    pub torrent: TorrentState,
}

impl Client {
    pub fn new(torrent: &Torrent) -> (r: Client)
        requires
            torrent.wf(),
        ensures
            r.id@.len() == 20,
            r.port == PORT,
            r.uploaded == 0,
            r.downloaded == 0,
            r.torrent@.info_hash == torrent.info_hash@,
            r.torrent@.total == torrent.pieces@.len(),
            r.torrent@.done == 0,
            r.torrent@.queue.len() == torrent.pieces@.len(),
            forall|i: int|
                0 <= i < r.torrent@.queue.len() ==> torrent.is_piece(
                    #[trigger] r.torrent@.queue[i],
                    i,
                ),
    {
        Client {
            id: random_peer_id(),
            port: PORT,
            uploaded: 0,
            downloaded: 0,
            torrent: TorrentState::new(torrent),
        }
    }

    /// Pieces written so far.
    pub fn get_done_pieces(&self) -> (r: u32)
        ensures
            r == self.torrent@.done,
    {
        self.torrent.done_pieces()
    }
}

} // verus!
