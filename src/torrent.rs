//! The torrent descriptor and its division into pieces and blocks.

use crate::digest::{sha1_digest, sha1_of};
use crate::wire::bytes_equal;
use vstd::prelude::*;
use std::collections::VecDeque;
use vstd::slice::{slice_subrange, slice_to_vec};

verus! {

/// Largest block asked of a peer in one request.
pub const MAX_BLOCK_SIZE: u32 = 16384;

/// How many chunks of `size` cover `total`: the ceiling of `total / size`.
pub open spec fn chunk_count(total: nat, size: nat) -> nat {
    if size == 0 {
        0
    } else {
        ((total + size - 1) / (size as int)) as nat
    }
}

/// Length of chunk `i` when `total` is cut into chunks of `size`: `size`,
/// except the last, which takes what is left.
pub open spec fn chunk_len(total: nat, size: nat, i: nat) -> nat {
    if i + 1 < chunk_count(total, size) {
        size
    } else {
        (total - i * size) as nat
    }
}

/// Offset `x` lies in chunk `i` of `total` cut into chunks of `size`.
pub open spec fn in_chunk(total: nat, size: nat, i: nat, x: nat) -> bool {
    i * size <= x < i * size + chunk_len(total, size, i)
}

/// Offset `x` lies in one of the chunks of `total` cut into chunks of `size`.
pub open spec fn in_some_chunk(total: nat, size: nat, x: nat) -> bool {
    exists|i: nat| i < chunk_count(total, size) && #[trigger] in_chunk(total, size, i, x)
}

/// Cutting `total` into chunks of `size`: every offset below `total` lies in
/// exactly one chunk; chunk `i` starts at
/// `i * size`; every chunk but the last is `size` long and the last is
/// `total - (count - 1) * size` long; no chunk reaches past `total`.
pub proof fn lemma_chunks_cover(total: nat, size: nat)
    requires
        size > 0,
    ensures
        chunk_count(total, size) * size >= total,
        chunk_count(total, size) > 0 ==> (chunk_count(total, size) - 1) * size < total,
        forall|i: nat|
            i < chunk_count(total, size) ==> 0 < #[trigger] chunk_len(total, size, i) <= size
                && i * size + chunk_len(total, size, i) <= total,
        forall|x: nat| x < total ==> #[trigger] in_some_chunk(total, size, x),
        forall|x: nat, i: nat|
            i < chunk_count(total, size) && #[trigger] in_chunk(total, size, i, x) ==> i == x
                / size,
{
    let n = chunk_count(total, size);
    assert(n * size >= total) by (nonlinear_arith)
        requires
            size > 0,
            n == (total + size - 1) / (size as int),
    ;
    if n > 0 {
        assert((n - 1) * size < total) by (nonlinear_arith)
            requires
                size > 0,
                n == (total + size - 1) / (size as int),
                n > 0,
        ;
    }
    assert forall|i: nat| i < n implies 0 < #[trigger] chunk_len(total, size, i) <= size && i
        * size + chunk_len(total, size, i) <= total by {
        if i + 1 < n {
            assert((i + 1) * size <= (n - 1) * size) by (nonlinear_arith)
                requires
                    i + 1 <= n - 1,
                    size > 0,
            ;
            assert((i + 1) * size == i * size + size) by (nonlinear_arith);
        } else {
            assert(i == n - 1);
            assert(i * size < total);
            assert(total - i * size <= size) by (nonlinear_arith)
                requires
                    size > 0,
                    i == n - 1,
                    n == (total + size - 1) / (size as int),
            ;
        }
    }
    assert forall|x: nat| x < total implies #[trigger] in_some_chunk(total, size, x) by {
        lemma_offset_in_chunk(total, size, x);
    }
    assert forall|x: nat, i: nat| i < n && #[trigger] in_chunk(total, size, i, x) implies i
        == x / size by {
        assert(chunk_len(total, size, i) <= size);
        assert(i == x / size) by (nonlinear_arith)
            requires
                size > 0,
                i * size <= x,
                x < i * size + size,
        ;
    }
}

proof fn lemma_offset_in_chunk(total: nat, size: nat, x: nat)
    requires
        size > 0,
        x < total,
    ensures
        x / size < chunk_count(total, size),
        in_chunk(total, size, x / size, x),
{
    let n = chunk_count(total, size);
    let i = x / size;
    assert(i * size <= x < i * size + size) by (nonlinear_arith)
        requires
            size > 0,
            i == x / size,
    ;
    assert(i < n) by (nonlinear_arith)
        requires
            size > 0,
            i == x / size,
            x < total,
            n == (total + size - 1) / (size as int),
    ;
    if i + 1 < n {
        assert(chunk_len(total, size, i) == size);
    } else {
        assert(chunk_len(total, size, i) == total - i * size);
    }
}

/// One file of a multi-file payload.
pub struct TorrentSubFile {
    pub path: Vec<String>,
    pub length: u64,
}

/// The `info` dictionary of a metainfo file, as read.
pub struct TorrentInfo {
    pub name: String,
    pub files: Option<Vec<TorrentSubFile>>,
    pub length: Option<u64>,
    pub piece_length: u32,
    /// The piece hashes, 20 bytes each, back to back.
    pub pieces: Vec<u8>,
}

/// Why a metainfo file does not describe a usable torrent.
#[derive(Debug, Clone, Copy, PartialEq, Eq, Structural)]
pub enum MetainfoError {
    /// The piece hashes are not a whole number of 20-byte hashes.
    BadPieceHashes,
    /// Neither a length nor a list of files.
    MissingLength,
    /// The file lengths add up to more than 64 bits hold.
    LengthOverflow,
    /// A zero piece length, or a number of hashes other than the number of
    /// pieces of that length that the payload takes.
    BadLayout,
}

/// The immutable description of one torrent.
pub struct Torrent {
    pub announce: String,
    /// SHA-1 of the bencoded `info` dictionary.
    pub info_hash: Vec<u8>,
    pub name: String,
    /// The declared hash of each piece, in order.
    pub pieces: Vec<Vec<u8>>,
    /// Bytes in the payload.
    pub length: u64,
    pub files: Option<Vec<TorrentSubFile>>,
    pub piece_length: u32,
}

/// Sum of the lengths of the files.
pub open spec fn files_length(files: Seq<TorrentSubFile>) -> nat
    decreases files.len(),
{
    if files.len() == 0 {
        0
    } else {
        files_length(files.drop_last()) + files.last().length as nat
    }
}

/// The payload length that `info` declares: its `length`, else the sum of its
/// files' lengths.
pub open spec fn declared_length(info: TorrentInfo) -> Option<nat> {
    match info.length {
        Some(l) => Some(l as nat),
        None => match info.files {
            Some(files) => Some(files_length(files@)),
            None => None,
        },
    }
}

/// A payload of `length` bytes in pieces of `piece_length` takes `count`
/// pieces, and their indices fit in 32 bits.
pub open spec fn layout_ok(length: nat, piece_length: nat, count: nat) -> bool {
    &&& piece_length > 0
    &&& count == chunk_count(length, piece_length)
    &&& count <= u32::MAX
}

/// What is wrong with `info`, if anything.
pub open spec fn metainfo_error(info: TorrentInfo) -> Option<MetainfoError> {
    if info.pieces@.len() % 20 != 0 {
        Some(MetainfoError::BadPieceHashes)
    } else {
        match declared_length(info) {
            None => Some(MetainfoError::MissingLength),
            Some(l) => if l > u64::MAX {
                Some(MetainfoError::LengthOverflow)
            } else if !layout_ok(l, info.piece_length as nat, info.pieces@.len() / 20) {
                Some(MetainfoError::BadLayout)
            } else {
                None
            },
        }
    }
}

impl TorrentInfo {
    /// The declared payload length, or `None` where there is none or it does
    /// not fit in 64 bits.
    pub fn total_length(&self) -> (r: Option<u64>)
        ensures
            r matches Some(l) ==> declared_length(*self) == Some(l as nat),
            r is None <==> (declared_length(*self) is None || declared_length(*self)->0
                > u64::MAX),
    {
        match self.length {
            Some(length) => Some(length),
            None => match &self.files {
                None => None,
                Some(files) => {
                    let mut total: u64 = 0;
                    let mut i: usize = 0;
                    while i < files.len()
                        invariant
                            self.length is None,
                            self.files == Some(*files),
                            i <= files@.len(),
                            total == files_length(files@.subrange(0, i as int)),
                        decreases files@.len() - i,
                    {
                        assert(files@.subrange(0, i + 1).drop_last() =~= files@.subrange(
                            0,
                            i as int,
                        ));
                        assert(files_length(files@.subrange(0, i + 1)) == total + files@[i as int].length);
                        match total.checked_add(files[i].length) {
                            Some(t) => total = t,
                            None => {
                                proof {
                                    lemma_files_length_grows(files@, i + 1);
                                }
                                assert(declared_length(*self) == Some(files_length(files@)));
                                assert(files_length(files@) > u64::MAX);
                                return None;
                            },
                        }
                        i = i + 1;
                    }
                    assert(files@.subrange(0, files@.len() as int) =~= files@);
                    Some(total)
                },
            },
        }
    }
}

/// A prefix of the files is no longer than all of them.
proof fn lemma_files_length_grows(files: Seq<TorrentSubFile>, k: int)
    requires
        0 <= k <= files.len(),
    ensures
        files_length(files.subrange(0, k)) <= files_length(files),
    decreases files.len() - k,
{
    if k < files.len() {
        lemma_files_length_grows(files, k + 1);
        assert(files.subrange(0, k + 1).drop_last() =~= files.subrange(0, k));
    } else {
        assert(files.subrange(0, k) =~= files);
    }
}

/// Whether a payload of `length` bytes in pieces of `piece_length` takes
/// `count` pieces with 32-bit indices.
fn layout_is_valid(length: u64, piece_length: u32, count: usize) -> (r: bool)
    ensures
        r == layout_ok(length as nat, piece_length as nat, count as nat),
{
    if piece_length == 0 {
        return false;
    }
    let p = piece_length as u64;
    let whole = length / p;
    if length % p > 0 {
        assert(whole < u64::MAX) by (nonlinear_arith)
            requires
                p > 0,
                whole == length / p,
                length % p > 0,
                length <= u64::MAX,
        ;
    }
    let needed: u64 = if length % p > 0 {
        whole + 1
    } else {
        whole
    };
    assert(needed == chunk_count(length as nat, p as nat)) by (nonlinear_arith)
        requires
            p > 0,
            whole == length / p,
            needed == whole + if length % p > 0 {
                1int
            } else {
                0int
            },
    ;
    count as u64 == needed && needed <= u32::MAX as u64
}

impl Torrent {
    /// The payload splits into as many pieces as there are hashes.
    pub open spec fn wf(&self) -> bool {
        layout_ok(self.length as nat, self.piece_length as nat, self.pieces@.len())
    }

    /// `p` is piece `i` of this torrent: it starts at `i` pieces in, is a full
    /// piece but for the last, and carries hash `i`.
    pub open spec fn is_piece(&self, p: Piece, i: int) -> bool {
        &&& p.index == i
        &&& p.begin == i * self.piece_length
        &&& p.length == chunk_len(self.length as nat, self.piece_length as nat, i as nat)
        &&& p.end == p.begin + p.length
        &&& p.hash@ == self.pieces@[i]@
    }

    /// Whether the payload splits into as many pieces as there are hashes.
    pub fn has_valid_layout(&self) -> (r: bool)
        ensures
            r == self.wf(),
    {
        layout_is_valid(self.length, self.piece_length, self.pieces.len())
    }

    /// The torrent that a metainfo file describes, given its `announce` URL,
    /// its `info` dictionary and the bencoded bytes of that dictionary.
    pub fn from_info(announce: String, info: TorrentInfo, info_bytes: &[u8]) -> (r: Result<
        Torrent,
        MetainfoError,
    >)
        ensures
            r matches Err(e) ==> metainfo_error(info) == Some(e),
            r matches Ok(t) ==> {
                &&& metainfo_error(info) is None
                &&& t.wf()
                &&& declared_length(info) == Some(t.length as nat)
                &&& t.announce == announce
                &&& t.name == info.name
                &&& t.info_hash@ == sha1_of(info_bytes@)
                &&& t.piece_length == info.piece_length
                &&& t.files == info.files
                &&& t.pieces@.len() == info.pieces@.len() / 20
                &&& forall|i: int|
                    0 <= i < t.pieces@.len() ==> #[trigger] t.pieces@[i]@ == info.pieces@.subrange(
                        20 * i,
                        20 * i + 20,
                    )
            },
    {
        if info.pieces.len() % 20 != 0 {
            return Err(MetainfoError::BadPieceHashes);
        }
        let length = match info.total_length() {
            Some(l) => l,
            None => {
                if info.length.is_none() && info.files.is_none() {
                    return Err(MetainfoError::MissingLength);
                }
                return Err(MetainfoError::LengthOverflow);
            },
        };
        let count = info.pieces.len() / 20;
        if !layout_is_valid(length, info.piece_length, count) {
            return Err(MetainfoError::BadLayout);
        }
        let mut pieces: Vec<Vec<u8>> = Vec::new();
        let blob_len = info.pieces.len();
        let mut i: usize = 0;
        while i < count
            invariant
                i <= count,
                blob_len == info.pieces@.len(),
                count == info.pieces@.len() / 20,
                info.pieces@.len() % 20 == 0,
                pieces@.len() == i,
                forall|j: int|
                    0 <= j < i ==> #[trigger] pieces@[j]@ == info.pieces@.subrange(
                        20 * j,
                        20 * j + 20,
                    ),
            decreases count - i,
        {
            assert(20 * i + 20 <= info.pieces@.len()) by (nonlinear_arith)
                requires
                    i < count,
                    count == info.pieces@.len() / 20,
            ;
            let hash = slice_to_vec(slice_subrange(info.pieces.as_slice(), 20 * i, 20 * i + 20));
            pieces.push(hash);
            i = i + 1;
        }
        let info_hash = sha1_digest(info_bytes);
        Ok(
            Torrent {
                announce,
                info_hash,
                name: info.name,
                pieces,
                length,
                files: info.files,
                piece_length: info.piece_length,
            },
        )
    }

    /// The pieces of the torrent in index order.
    pub fn create_piece_queue(&self) -> (r: VecDeque<Piece>)
        requires
            self.wf(),
        ensures
            r@.len() == self.pieces@.len(),
            forall|i: int| 0 <= i < r@.len() ==> self.is_piece(#[trigger] r@[i], i),
    {
        let ghost total = self.length as nat;
        let ghost size = self.piece_length as nat;
        proof {
            lemma_chunks_cover(total, size);
        }
        let mut piece_queue: VecDeque<Piece> = VecDeque::new();
        let count = self.pieces.len();
        let piece_length = self.piece_length as u64;
        let mut index: usize = 0;
        while index < count
            invariant
                self.wf(),
                index <= count,
                count == self.pieces@.len(),
                total == self.length,
                size == self.piece_length,
                piece_length == self.piece_length,
                piece_queue@.len() == index,
                forall|k: nat|
                    k < count ==> 0 < #[trigger] chunk_len(total, size, k) <= size && k * size
                        + chunk_len(total, size, k) <= total,
                forall|j: int| 0 <= j < index ==> self.is_piece(#[trigger] piece_queue@[j], j),
            decreases count - index,
        {
            assert(0 < chunk_len(total, size, index as nat) <= size);
            let begin = index as u64 * piece_length;
            let length: u64 = if index + 1 < count {
                piece_length
            } else {
                self.length - begin
            };
            let hash = slice_to_vec(self.pieces[index].as_slice());
            let piece = Piece::new(index as u32, begin, length as u32, hash);
            piece_queue.push_back(piece);
            index = index + 1;
        }
        piece_queue
    }
}

/// A span of the payload with the hash it must have.
#[derive(Debug)]
pub struct Piece {
    pub index: u32,
    /// Bytes in the piece.
    pub length: u32,
    /// Absolute offset of the piece in the payload.
    pub begin: u64,
    /// The SHA-1 that the piece's bytes must have.
    pub hash: Vec<u8>,
    /// One past the last absolute offset of the piece.
    pub end: u64,
}

/// A part of a piece, asked of a peer in one request.
#[derive(Debug, PartialEq)]
pub struct Block {
    /// Offset within the piece.
    pub begin: u32,
    pub end: u32,
    pub length: u32,
    pub data: Option<Vec<u8>>,
}

/// The declared hash of a piece and the one computed from its bytes, which
/// differ.
#[derive(Debug)]
pub struct IntegrityError(pub Vec<u8>, pub Vec<u8>);

impl Piece {
    pub fn new(index: u32, begin: u64, length: u32, hash: Vec<u8>) -> (r: Piece)
        requires
            begin + length <= u64::MAX,
        ensures
            r.index == index,
            r.begin == begin,
            r.length == length,
            r.end == begin + length,
            r.hash@ == hash@,
    {
        Piece { index, hash, length, begin, end: begin + length as u64 }
    }

    /// The blocks of the piece in order: each `MAX_BLOCK_SIZE` long but the
    /// last, which takes what is left, with no data yet.
    pub fn create_block_queue(&self) -> (r: Vec<Block>)
        ensures
            r@.len() == chunk_count(self.length as nat, MAX_BLOCK_SIZE as nat),
            forall|i: int|
                #![trigger r@[i]]
                0 <= i < r@.len() ==> {
                    &&& r@[i].begin == i * MAX_BLOCK_SIZE
                    &&& r@[i].length == chunk_len(
                        self.length as nat,
                        MAX_BLOCK_SIZE as nat,
                        i as nat,
                    )
                    &&& r@[i].end == r@[i].begin + r@[i].length
                    &&& r@[i].data is None
                },
    {
        let ghost total = self.length as nat;
        let ghost size = MAX_BLOCK_SIZE as nat;
        proof {
            lemma_chunks_cover(total, size);
        }
        let mut block_queue: Vec<Block> = Vec::new();
        let num_of_blocks: u32 = self.length / MAX_BLOCK_SIZE + if self.length % MAX_BLOCK_SIZE
            > 0 {
            1u32
        } else {
            0u32
        };
        assert(num_of_blocks == chunk_count(total, size)) by (nonlinear_arith)
            requires
                num_of_blocks == self.length / 16384 + if self.length % 16384 > 0 {
                    1int
                } else {
                    0int
                },
                size == 16384,
                total == self.length,
        ;
        let mut i: u32 = 0;
        while i < num_of_blocks
            invariant
                i <= num_of_blocks,
                num_of_blocks == chunk_count(total, size),
                total == self.length,
                size == MAX_BLOCK_SIZE,
                block_queue@.len() == i,
                forall|k: nat|
                    k < num_of_blocks ==> 0 < #[trigger] chunk_len(total, size, k) <= size && k
                        * size + chunk_len(total, size, k) <= total,
                forall|j: int|
                    #![trigger block_queue@[j]]
                    0 <= j < i ==> {
                        &&& block_queue@[j].begin == j * MAX_BLOCK_SIZE
                        &&& block_queue@[j].length == chunk_len(total, size, j as nat)
                        &&& block_queue@[j].end == block_queue@[j].begin + block_queue@[j].length
                        &&& block_queue@[j].data is None
                    },
            decreases num_of_blocks - i,
        {
            assert(0 < chunk_len(total, size, i as nat) <= size);
            assert(i * size + chunk_len(total, size, i as nat) <= total);
            let block_length: u32 = if i + 1 < num_of_blocks {
                MAX_BLOCK_SIZE
            } else {
                self.length - i * MAX_BLOCK_SIZE
            };
            let begin = i * MAX_BLOCK_SIZE;
            let end = begin + block_length;
            block_queue.push(Block::new(begin, end, block_length));
            i = i + 1;
        }
        block_queue
    }

    /// `Ok` exactly when `hash` is the piece's declared hash; otherwise the
    /// error holds both.
    pub fn check_integrity(&self, hash: Vec<u8>) -> (r: Result<(), IntegrityError>)
        ensures
            r is Ok <==> hash@ == self.hash@,
            r matches Err(e) ==> e.0@ == self.hash@ && e.1@ == hash@,
    {
        if bytes_equal(&self.hash, &hash) {
            Ok(())
        } else {
            Err(IntegrityError(slice_to_vec(self.hash.as_slice()), hash))
        }
    }
}

impl Block {
    pub fn new(begin: u32, end: u32, length: u32) -> (r: Block)
        ensures
            r.begin == begin,
            r.end == end,
            r.length == length,
            r.data is None,
    {
        Block { begin, end, length, data: None }
    }
}

/// Offset `x` of the payload lies in piece `p`.
pub open spec fn piece_holds(p: Piece, x: nat) -> bool {
    p.begin <= x < p.begin + p.length
}

/// Offset `x` of the payload lies in one of the pieces `q`.
pub open spec fn some_piece_holds(q: Seq<Piece>, x: nat) -> bool {
    exists|i: int| 0 <= i < q.len() && piece_holds(#[trigger] q[i], x)
}

/// Offset `x` of a piece lies in block `b`.
pub open spec fn block_holds(b: Block, x: nat) -> bool {
    b.begin <= x < b.begin + b.length
}

/// Offset `x` of a piece lies in one of the blocks `q`.
pub open spec fn some_block_holds(q: Seq<Block>, x: nat) -> bool {
    exists|i: int| 0 <= i < q.len() && block_holds(#[trigger] q[i], x)
}

/// The pieces of a torrent, as `create_piece_queue` lays them out, cover the
/// payload `[0, length)` exactly once: every offset lies in one piece and in
/// no other, and none reaches past the end. Every piece but the last is
/// `piece_length` long; the last is `length - (count - 1) * piece_length`.
pub proof fn lemma_piece_queue_tiles(t: Torrent, q: Seq<Piece>)
    requires
        t.wf(),
        q.len() == t.pieces@.len(),
        forall|i: int| 0 <= i < q.len() ==> t.is_piece(#[trigger] q[i], i),
    ensures
        forall|x: nat| x < t.length ==> #[trigger] some_piece_holds(q, x),
        forall|x: nat, i: int, j: int|
            0 <= i < q.len() && 0 <= j < q.len() && #[trigger] piece_holds(q[i], x)
                && #[trigger] piece_holds(q[j], x) ==> i == j,
        forall|i: int| 0 <= i < q.len() ==> #[trigger] q[i].end <= t.length,
        forall|i: int| 0 <= i < q.len() - 1 ==> #[trigger] q[i].length == t.piece_length,
        q.len() > 0 ==> q.last().length == t.length - (q.len() - 1) * t.piece_length,
{
    let total = t.length as nat;
    let size = t.piece_length as nat;
    lemma_chunks_cover(total, size);
    assert forall|x: nat| x < t.length implies #[trigger] some_piece_holds(q, x) by {
        assert(in_some_chunk(total, size, x));
        let i = choose|i: nat| i < chunk_count(total, size) && #[trigger] in_chunk(total, size, i, x);
        assert(t.is_piece(q[i as int], i as int));
        assert(piece_holds(q[i as int], x));
    }
    assert forall|x: nat, i: int, j: int|
        0 <= i < q.len() && 0 <= j < q.len() && #[trigger] piece_holds(q[i], x)
            && #[trigger] piece_holds(q[j], x) implies i == j by {
        assert(t.is_piece(q[i], i));
        assert(t.is_piece(q[j], j));
        assert(in_chunk(total, size, i as nat, x));
        assert(in_chunk(total, size, j as nat, x));
    }
    assert forall|i: int| 0 <= i < q.len() implies #[trigger] q[i].end <= t.length by {
        assert(t.is_piece(q[i], i));
        assert(chunk_len(total, size, i as nat) > 0);
    }
    assert forall|i: int| 0 <= i < q.len() - 1 implies #[trigger] q[i].length == t.piece_length by {
        assert(t.is_piece(q[i], i));
    }
    if q.len() > 0 {
        assert(t.is_piece(q[q.len() - 1], q.len() - 1));
    }
}

/// The blocks of a piece of `length` bytes, as `create_block_queue` lays them
/// out, cover `[0, length)` exactly once. Every block but the last is
/// `MAX_BLOCK_SIZE` long; the last is `length % MAX_BLOCK_SIZE` long when that
/// is not zero, and `MAX_BLOCK_SIZE` long when it is.
pub proof fn lemma_block_queue_tiles(length: u32, q: Seq<Block>)
    requires
        q.len() == chunk_count(length as nat, MAX_BLOCK_SIZE as nat),
        forall|i: int|
            #![trigger q[i]]
            0 <= i < q.len() ==> q[i].begin == i * MAX_BLOCK_SIZE && q[i].length == chunk_len(
                length as nat,
                MAX_BLOCK_SIZE as nat,
                i as nat,
            ),
    ensures
        forall|x: nat| x < length ==> #[trigger] some_block_holds(q, x),
        forall|x: nat, i: int, j: int|
            0 <= i < q.len() && 0 <= j < q.len() && #[trigger] block_holds(q[i], x)
                && #[trigger] block_holds(q[j], x) ==> i == j,
        forall|i: int| 0 <= i < q.len() ==> #[trigger] q[i].begin + q[i].length <= length,
        forall|i: int| 0 <= i < q.len() - 1 ==> #[trigger] q[i].length == MAX_BLOCK_SIZE,
        q.len() > 0 ==> q.last().length == if length % MAX_BLOCK_SIZE != 0 {
            length % MAX_BLOCK_SIZE
        } else {
            MAX_BLOCK_SIZE
        },
{
    let total = length as nat;
    let size = MAX_BLOCK_SIZE as nat;
    lemma_chunks_cover(total, size);
    assert forall|x: nat| x < length implies #[trigger] some_block_holds(q, x) by {
        assert(in_some_chunk(total, size, x));
        let i = choose|i: nat| i < chunk_count(total, size) && #[trigger] in_chunk(total, size, i, x);
        assert(block_holds(q[i as int], x));
    }
    assert forall|x: nat, i: int, j: int|
        0 <= i < q.len() && 0 <= j < q.len() && #[trigger] block_holds(q[i], x)
            && #[trigger] block_holds(q[j], x) implies i == j by {
        assert(in_chunk(total, size, i as nat, x));
        assert(in_chunk(total, size, j as nat, x));
    }
    assert forall|i: int| 0 <= i < q.len() implies #[trigger] q[i].begin + q[i].length
        <= length by {
        assert(chunk_len(total, size, i as nat) > 0);
    }
    if q.len() > 0 {
        let n = q.len();
        assert(q[n - 1].length == total - (n - 1) * size);
        assert(total - (n - 1) * size == if total % size != 0 {
            total % size
        } else {
            size
        }) by (nonlinear_arith)
            requires
                size == 16384,
                n == (total + size - 1) / (size as int),
                n > 0,
        ;
    }
}

} // verus!
