//! Downloading one piece from one peer: the blocks still to request, the
//! requests in flight (at most five), the buffer the blocks land in, and the
//! final hash check.

use crate::connection::{peer_update, Connection};
use crate::digest::{sha1_digest, sha1_of};
use crate::message::{Message, MessageView};
use crate::torrent::{chunk_count, chunk_len, Block, IntegrityError, Piece, MAX_BLOCK_SIZE};
use vstd::prelude::*;

verus! {

/// Most requests in flight on one connection.
pub const MAX_CONCURRENT_REQUESTS: usize = 5;

/// `buf` with `data` written from offset `at` on; bytes that would fall past
/// the end of `buf` are dropped, so the length stays the same.
pub open spec fn spliced(buf: Seq<u8>, at: int, data: Seq<u8>) -> Seq<u8> {
    Seq::new(
        buf.len(),
        |k: int|
            if at <= k < at + data.len() {
                data[k - at]
            } else {
                buf[k]
            },
    )
}

/// Writing the same bytes at the same offset a second time leaves every byte
/// as the first write left it.
pub proof fn lemma_commit_idempotent(buf: Seq<u8>, at: int, data: Seq<u8>)
    ensures
        spliced(spliced(buf, at, data), at, data) == spliced(buf, at, data),
{
    assert(spliced(spliced(buf, at, data), at, data) =~= spliced(buf, at, data));
}

/// `k` is the first position in `blocks` of a block that starts at `begin`.
pub open spec fn first_with_begin(blocks: Seq<Block>, begin: u32, k: int) -> bool {
    &&& 0 <= k < blocks.len()
    &&& blocks[k].begin == begin
    &&& forall|j: int| 0 <= j < k ==> #[trigger] blocks[j].begin != begin
}

/// The first position in `blocks` of a block that starts at `begin`.
pub open spec fn first_position(blocks: Seq<Block>, begin: u32) -> int {
    choose|k: int| first_with_begin(blocks, begin, k)
}

proof fn lemma_first_position(blocks: Seq<Block>, begin: u32, k: int)
    requires
        first_with_begin(blocks, begin, k),
    ensures
        first_position(blocks, begin) == k,
{
    let c = first_position(blocks, begin);
    assert(first_with_begin(blocks, begin, c));
    if c < k {
        assert(blocks[c].begin != begin);
    } else if k < c {
        assert(blocks[k].begin != begin);
    }
}

/// No block in `blocks` starts at `begin`.
pub open spec fn none_with_begin(blocks: Seq<Block>, begin: u32) -> bool {
    forall|j: int| 0 <= j < blocks.len() ==> #[trigger] blocks[j].begin != begin
}

/// `r` is block `f` come back with `data`.
pub open spec fn received(r: Option<Block>, f: Block, data: Seq<u8>) -> bool {
    match r {
        Some(b) => {
            &&& b.begin == f.begin
            &&& b.end == f.end
            &&& b.length == f.length
            &&& match b.data {
                Some(d) => d@ == data,
                None => false,
            }
        },
        None => false,
    }
}

/// The last `m` blocks of `q`, last first: the order in which they are
/// popped.
pub open spec fn popped(q: Seq<Block>, m: int) -> Seq<Block> {
    Seq::new(m as nat, |j: int| q[q.len() - 1 - j])
}

/// The download of one piece in progress.
pub struct PieceState {
    pub index: u32,
    /// Absolute offset of the piece in the payload.
    pub begin: u64,
    /// Blocks asked for and not yet received.
    pub requested_blocks: Vec<Block>,
    /// Blocks received (counting stops at `u32::MAX`).
    pub blocks_done: u32,
    /// Blocks not yet asked for; the last is asked for first.
    pub block_queue: Vec<Block>,
    /// The piece's bytes as received so far.
    pub buf: Vec<u8>,
}

impl PieceState {
    /// A fresh download of `piece`: every block still to request and a
    /// zeroed buffer of the piece's length.
    pub fn new(piece: &Piece) -> (r: PieceState)
        ensures
            r.index == piece.index,
            r.begin == piece.begin,
            r.requested_blocks@.len() == 0,
            r.blocks_done == 0,
            r.buf@ == Seq::new(piece.length as nat, |k: int| 0u8),
            r.block_queue@.len() == chunk_count(piece.length as nat, MAX_BLOCK_SIZE as nat),
            forall|i: int|
                #![trigger r.block_queue@[i]]
                0 <= i < r.block_queue@.len() ==> {
                    &&& r.block_queue@[i].begin == i * MAX_BLOCK_SIZE
                    &&& r.block_queue@[i].length == chunk_len(
                        piece.length as nat,
                        MAX_BLOCK_SIZE as nat,
                        i as nat,
                    )
                    &&& r.block_queue@[i].end == r.block_queue@[i].begin
                        + r.block_queue@[i].length
                    &&& r.block_queue@[i].data is None
                },
    {
        let buf: Vec<u8> = vec![0u8; piece.length as usize];
        assert(buf@ =~= Seq::new(piece.length as nat, |k: int| 0u8));
        PieceState {
            index: piece.index,
            begin: piece.begin,
            requested_blocks: Vec::new(),
            buf,
            block_queue: piece.create_block_queue(),
            blocks_done: 0,
        }
    }

    /// Whether another request may be sent: fewer than five are in flight.
    pub fn can_send_request(&self) -> (r: bool)
        ensures
            r == (self.requested_blocks@.len() < MAX_CONCURRENT_REQUESTS),
    {
        self.requested_blocks.len() < MAX_CONCURRENT_REQUESTS
    }

    /// Whether every block has been asked for and received.
    pub fn is_finished(&self) -> (r: bool)
        ensures
            r == (self.block_queue@.len() == 0 && self.requested_blocks@.len() == 0),
    {
        self.block_queue.len() == 0 && self.requested_blocks.len() == 0
    }

    /// Moves `block` in flight and gives the request to send for it.
    pub fn send_request(&mut self, block: Block) -> (r: Message)
        ensures
            r@ == MessageView::Request(old(self).index, block.begin, block.length),
            final(self).requested_blocks@ == old(self).requested_blocks@.push(block),
            final(self).index == old(self).index,
            final(self).begin == old(self).begin,
            final(self).blocks_done == old(self).blocks_done,
            final(self).block_queue@ == old(self).block_queue@,
            final(self).buf@ == old(self).buf@,
    {
        let r = Message::Request(self.index, block.begin, block.length);
        self.requested_blocks.push(block);
        r
    }

    /// The requests to send now. None while the peer chokes us; otherwise
    /// blocks are popped off the queue and put in flight until five are in
    /// flight or the queue is empty.
    pub fn request_blocks(&mut self, conn: &Connection) -> (r: Vec<Message>)
        ensures
            final(self).index == old(self).index,
            final(self).begin == old(self).begin,
            final(self).blocks_done == old(self).blocks_done,
            final(self).buf@ == old(self).buf@,
            old(self).requested_blocks@.len() <= MAX_CONCURRENT_REQUESTS
                ==> final(self).requested_blocks@.len() <= MAX_CONCURRENT_REQUESTS,
            ({
                let q = old(self).block_queue@;
                let f = old(self).requested_blocks@;
                let m = if conn.chocked || f.len() >= MAX_CONCURRENT_REQUESTS {
                    0
                } else if q.len() < MAX_CONCURRENT_REQUESTS - f.len() {
                    q.len() as int
                } else {
                    MAX_CONCURRENT_REQUESTS - f.len()
                };
                &&& final(self).block_queue@ == q.subrange(0, q.len() - m)
                &&& final(self).requested_blocks@ == f + popped(q, m)
                &&& r@.len() == m
                &&& forall|j: int|
                    0 <= j < m ==> (#[trigger] r@[j])@ == MessageView::Request(
                        old(self).index,
                        popped(q, m)[j].begin,
                        popped(q, m)[j].length,
                    )
            }),
    {
        let ghost q = self.block_queue@;
        let ghost f = self.requested_blocks@;
        let ghost m: int = if conn.chocked || f.len() >= MAX_CONCURRENT_REQUESTS {
            0
        } else if q.len() < MAX_CONCURRENT_REQUESTS - f.len() {
            q.len() as int
        } else {
            MAX_CONCURRENT_REQUESTS - f.len()
        };
        let mut requests: Vec<Message> = Vec::new();
        if conn.chocked {
            return requests;
        }
        let mut sent: usize = 0;
        while self.can_send_request() && self.block_queue.len() > 0
            invariant
                self.index == old(self).index,
                self.begin == old(self).begin,
                self.blocks_done == old(self).blocks_done,
                self.buf@ == old(self).buf@,
                q == old(self).block_queue@,
                f == old(self).requested_blocks@,
                !conn.chocked,
                m == if f.len() >= MAX_CONCURRENT_REQUESTS {
                    0
                } else if q.len() < MAX_CONCURRENT_REQUESTS - f.len() {
                    q.len() as int
                } else {
                    MAX_CONCURRENT_REQUESTS - f.len()
                },
                0 <= sent <= m,
                sent <= q.len(),
                self.block_queue@ == q.subrange(0, q.len() - sent),
                self.requested_blocks@ == f + popped(q, sent as int),
                self.requested_blocks@.len() == f.len() + sent,
                requests@.len() == sent,
                forall|j: int|
                    0 <= j < sent ==> (#[trigger] requests@[j])@ == MessageView::Request(
                        old(self).index,
                        popped(q, sent as int)[j].begin,
                        popped(q, sent as int)[j].length,
                    ),
            decreases self.block_queue@.len(),
        {
            let block = self.block_queue.pop().unwrap();
            let request = self.send_request(block);
            requests.push(request);
            sent = sent + 1;
            assert(popped(q, sent as int) =~= popped(q, (sent - 1) as int).push(block));
            assert(self.block_queue@ =~= q.subrange(0, q.len() - sent));
        }
        proof {
            if f.len() < MAX_CONCURRENT_REQUESTS {
                assert(sent == m);
            } else {
                assert(sent == 0);
            }
        }
        requests
    }

    /// Takes in a message read while the piece downloads. A Piece message for
    /// this piece whose offset matches a block in flight takes that block out
    /// of flight and gives it back with its data; Have, Choke and Unchoke
    /// update the connection; anything else is ignored.
    pub fn read_message(&mut self, conn: &mut Connection, message: Message) -> (r: Option<Block>)
        ensures
            final(self).index == old(self).index,
            final(self).begin == old(self).begin,
            final(self).buf@ == old(self).buf@,
            final(self).block_queue@ == old(self).block_queue@,
            match message@ {
                MessageView::Piece(index, begin, data) => {
                    &&& *final(conn) == *old(conn)
                    &&& if index == old(self).index && exists|k: int|
                        first_with_begin(old(self).requested_blocks@, begin, k) {
                        let k = first_position(old(self).requested_blocks@, begin);
                        &&& final(self).requested_blocks@ == old(self).requested_blocks@.remove(k)
                        &&& received(r, old(self).requested_blocks@[k], data)
                        &&& final(self).blocks_done == if old(self).blocks_done < u32::MAX {
                            old(self).blocks_done + 1
                        } else {
                            old(self).blocks_done as int
                        }
                    } else {
                        &&& r is None
                        &&& final(self).requested_blocks@ == old(self).requested_blocks@
                        &&& final(self).blocks_done == old(self).blocks_done
                    }
                },
                MessageView::Bitfield(_) => {
                    &&& r is None
                    &&& *final(conn) == *old(conn)
                    &&& final(self).requested_blocks@ == old(self).requested_blocks@
                    &&& final(self).blocks_done == old(self).blocks_done
                },
                _ => {
                    &&& r is None
                    &&& peer_update(*old(conn), *final(conn), message@)
                    &&& final(self).requested_blocks@ == old(self).requested_blocks@
                    &&& final(self).blocks_done == old(self).blocks_done
                },
            },
    {
        match message {
            Message::Piece(index, begin, block_data) => {
                if index != self.index {
                    return None;
                }
                match self.find_requested(begin) {
                    Some(k) => {
                        let mut block = self.requested_blocks.remove(k);
                        if self.blocks_done < u32::MAX {
                            self.blocks_done = self.blocks_done + 1;
                        }
                        let ghost d = block_data@;
                        block.data = Some(block_data);
                        let r = Some(block);
                        proof {
                            lemma_first_position(old(self).requested_blocks@, begin, k as int);
                        }
                        assert(received(r, old(self).requested_blocks@[k as int], d));
                        assert(self.requested_blocks@ == old(self).requested_blocks@.remove(
                            k as int,
                        ));
                        r
                    },
                    None => {
                        assert forall|k: int|
                            !first_with_begin(old(self).requested_blocks@, begin, k) by {
                            if 0 <= k < old(self).requested_blocks@.len() {
                                assert(old(self).requested_blocks@[k].begin != begin);
                            }
                        }
                        None
                    },
                }
            },
            Message::Have(index) => {
                conn.set_piece(&index);
                None
            },
            Message::Choke => {
                conn.chocked = true;
                None
            },
            Message::Unchoke => {
                conn.chocked = false;
                None
            },
            _ => None,
        }
    }

    /// The first position of a block in flight that starts at `begin`.
    fn find_requested(&self, begin: u32) -> (r: Option<usize>)
        ensures
            r matches Some(k) ==> first_with_begin(self.requested_blocks@, begin, k as int),
            r is None ==> none_with_begin(self.requested_blocks@, begin),
    {
        let n = self.requested_blocks.len();
        let mut k: usize = 0;
        while k < n
            invariant
                n == self.requested_blocks@.len(),
                k <= n,
                forall|j: int| 0 <= j < k ==> #[trigger] self.requested_blocks@[j].begin != begin,
            decreases n - k,
        {
            if self.requested_blocks[k].begin == begin {
                return Some(k);
            }
            k = k + 1;
        }
        None
    }

    /// Writes a received block's data into the buffer at the block's offset.
    /// A block without data leaves the buffer as it is.
    pub fn store_block_in_buffer(&mut self, block: Block)
        ensures
            final(self).index == old(self).index,
            final(self).begin == old(self).begin,
            final(self).requested_blocks@ == old(self).requested_blocks@,
            final(self).blocks_done == old(self).blocks_done,
            final(self).block_queue@ == old(self).block_queue@,
            final(self).buf@ == match block.data {
                Some(d) => spliced(old(self).buf@, block.begin as int, d@),
                None => old(self).buf@,
            },
    {
        match block.data {
            None => {},
            Some(data) => {
                let at = block.begin as usize;
                let ghost before = self.buf@;
                let len = self.buf.len();
                let mut k: usize = 0;
                while k < data.len() && at < len && k < len - at
                    invariant
                        self.index == old(self).index,
                        self.begin == old(self).begin,
                        self.requested_blocks@ == old(self).requested_blocks@,
                        self.blocks_done == old(self).blocks_done,
                        self.block_queue@ == old(self).block_queue@,
                        before == old(self).buf@,
                        len == before.len(),
                        self.buf@.len() == len,
                        at == block.begin,
                        k <= data@.len(),
                        forall|x: int|
                            0 <= x < len ==> #[trigger] self.buf@[x] == if at <= x < at + k {
                                data@[x - at]
                            } else {
                                before[x]
                            },
                    decreases data@.len() - k,
                {
                    self.buf.set(at + k, data[k]);
                    k = k + 1;
                }
                assert(self.buf@ =~= spliced(before, block.begin as int, data@));
            },
        }
    }

    /// Checks the finished buffer against the piece's hash: `Ok` exactly
    /// when the SHA-1 of the bytes received is the declared one.
    pub fn verify(&self, piece: &Piece) -> (r: Result<(), IntegrityError>)
        ensures
            r is Ok <==> sha1_of(self.buf@) == piece.hash@,
    {
        piece.check_integrity(sha1_digest(self.buf.as_slice()))
    }
}

} // verus!
