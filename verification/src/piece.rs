//! A piece being downloaded: its blocks of `BLOCK_LENGTH` bytes, which of
//! them have arrived, and the piece's bytes once they all have.

use crate::buffer::{bytes_as_slice, bytes_contents, bytes_from_vec};
use crate::error::{Result, WebTorrentError};
use bytes::Bytes;
use vstd::prelude::*;

verus! {

/// The length of a block: the unit in which pieces are requested.
pub const BLOCK_LENGTH: usize = 16384;

/// The number of blocks of a piece of `length` bytes.
pub open spec fn num_blocks(length: nat) -> nat {
    (length + 16383) / 16384
}

/// The number of blocks that have not arrived.
pub open spec fn count_missing(blocks: Seq<Option<Seq<u8>>>) -> nat
    decreases blocks.len(),
{
    if blocks.len() == 0 {
        0
    } else {
        count_missing(blocks.drop_last()) + (if blocks.last() is None {
            1nat
        } else {
            0nat
        })
    }
}

/// The bytes of the blocks that have arrived, in block order.
pub open spec fn concat_blocks(blocks: Seq<Option<Seq<u8>>>) -> Seq<u8>
    decreases blocks.len(),
{
    if blocks.len() == 0 {
        Seq::empty()
    } else {
        concat_blocks(blocks.drop_last()) + match blocks.last() {
            Some(d) => d,
            None => Seq::empty(),
        }
    }
}

/// The contents of a list of optional buffers.
pub open spec fn blocks_view(v: Seq<Option<Bytes>>) -> Seq<Option<Seq<u8>>> {
    Seq::new(
        v.len(),
        |i: int|
            match v[i] {
                Some(b) => Some(bytes_contents(b)),
                None => None,
            },
    )
}

/// Filling a missing block lowers the count of missing blocks by one.
proof fn lemma_count_fill(blocks: Seq<Option<Seq<u8>>>, i: int, d: Seq<u8>)
    requires
        0 <= i < blocks.len(),
        blocks[i] is None,
    ensures
        count_missing(blocks.update(i, Some(d))) + 1 == count_missing(blocks),
    decreases blocks.len(),
{
    let u = blocks.update(i, Some(d));
    if i == blocks.len() - 1 {
        assert(u.drop_last() =~= blocks.drop_last());
    } else {
        lemma_count_fill(blocks.drop_last(), i, d);
        assert(u.drop_last() =~= blocks.drop_last().update(i, Some(d)));
    }
}

/// At most every block is missing.
proof fn lemma_count_bound(blocks: Seq<Option<Seq<u8>>>)
    ensures
        count_missing(blocks) <= blocks.len(),
        count_missing(blocks) == 0 <==> forall|i: int| 0 <= i < blocks.len() ==> #[trigger] blocks[i] is Some,
    decreases blocks.len(),
{
    if blocks.len() > 0 {
        lemma_count_bound(blocks.drop_last());
        if count_missing(blocks) == 0 {
            assert forall|i: int| 0 <= i < blocks.len() implies #[trigger] blocks[i] is Some by {
                if i < blocks.len() - 1 {
                    assert(blocks.drop_last()[i] == blocks[i]);
                }
            }
        }
        if forall|i: int| 0 <= i < blocks.len() ==> #[trigger] blocks[i] is Some {
            assert forall|i: int| 0 <= i < blocks.drop_last().len() implies #[trigger] blocks.drop_last()[i] is Some by {
                assert(blocks[i] is Some);
            }
            assert(blocks[blocks.len() - 1] is Some);
        }
    }
}

/// A piece of a torrent, block by block.
pub struct Piece {
    length: u64,
    blocks: Vec<Option<Bytes>>,
    missing: usize,
}

impl Piece {
    /// The length of the piece in bytes.
    pub closed spec fn length_view(&self) -> nat {
        self.length as nat
    }

    /// What each block holds, `None` for a block not yet arrived.
    pub closed spec fn blocks_view(&self) -> Seq<Option<Seq<u8>>> {
        blocks_view(self.blocks@)
    }

    /// The piece has `num_blocks(length)` blocks and counts the missing ones.
    pub closed spec fn wf(&self) -> bool {
        &&& self.length + 16384 <= usize::MAX
        &&& self.blocks@.len() == num_blocks(self.length as nat)
        &&& self.missing == count_missing(blocks_view(self.blocks@))
    }

    /// A piece of `length` bytes with all its blocks missing.
    pub fn new(length: u64) -> (r: Piece)
        requires
            length + 16384 <= usize::MAX,
        ensures
            r.wf(),
            r.length_view() == length,
            r.blocks_view() == Seq::new(num_blocks(length as nat), |i: int| None::<Seq<u8>>),
    {
        assert(length <= usize::MAX);
        let len: usize = length as usize;
        assert(len == length);
        let n = (len + BLOCK_LENGTH - 1) / BLOCK_LENGTH;
        let mut blocks: Vec<Option<Bytes>> = Vec::new();
        let mut i: usize = 0;
        while i < n
            invariant
                0 <= i <= n,
                blocks@.len() == i,
                forall|j: int| 0 <= j < i ==> #[trigger] blocks@[j] is None,
                count_missing(blocks_view(blocks@)) == i,
            decreases n - i,
        {
            let ghost before = blocks@;
            blocks.push(None);
            proof {
                assert(blocks_view(blocks@).drop_last() =~= blocks_view(before));
            }
            i = i + 1;
        }
        proof {
            assert(blocks_view(blocks@) =~= Seq::new(num_blocks(length as nat), |i: int| None::<Seq<u8>>));
        }
        Piece { length, blocks, missing: n }
    }

    /// The length of the piece in bytes.
    pub fn length(&self) -> (r: u64)
        ensures
            r == self.length_view(),
    {
        self.length
    }

    /// The number of blocks not yet arrived.
    pub fn missing(&self) -> (r: usize)
        requires
            self.wf(),
        ensures
            r == count_missing(self.blocks_view()),
    {
        self.missing
    }

    /// The first block not yet arrived, if any.
    pub fn reserve(&self) -> (r: Option<usize>)
        ensures
            match r {
                Some(i) => i < self.blocks_view().len() && self.blocks_view()[i as int] is None
                    && forall|j: int| 0 <= j < i ==> #[trigger] self.blocks_view()[j] is Some,
                None => forall|j: int| 0 <= j < self.blocks_view().len() ==> #[trigger] self.blocks_view()[j] is Some,
            },
    {
        let mut i: usize = 0;
        while i < self.blocks.len()
            invariant
                0 <= i <= self.blocks@.len(),
                forall|j: int| 0 <= j < i ==> #[trigger] self.blocks_view()[j] is Some,
            decreases self.blocks@.len() - i,
        {
            if self.blocks[i].is_none() {
                return Some(i);
            }
            i = i + 1;
        }
        None
    }

    /// Stores the data of block `block_index`.  Fails for a block index
    /// past the last block; gives `false` and changes nothing for a block
    /// that has already arrived; else gives whether the piece is now
    /// complete.
    pub fn set(&mut self, block_index: usize, data: Bytes) -> (r: Result<bool>)
        requires
            old(self).wf(),
        ensures
            final(self).wf(),
            final(self).length_view() == old(self).length_view(),
            block_index >= old(self).blocks_view().len() ==> (r matches Err(e) && e == WebTorrentError::InvalidPieceIndex(block_index)
                && final(self).blocks_view() == old(self).blocks_view()),
            block_index < old(self).blocks_view().len() && old(self).blocks_view()[block_index as int] is Some ==> (
            r matches Ok(false) && final(self).blocks_view() == old(self).blocks_view()),
            block_index < old(self).blocks_view().len() && old(self).blocks_view()[block_index as int] is None ==> (
            r matches Ok(done) && final(self).blocks_view() == old(self).blocks_view().update(
                block_index as int,
                Some(bytes_contents(data)),
            ) && done == (count_missing(final(self).blocks_view()) == 0)),
    {
        if block_index >= self.blocks.len() {
            return Err(WebTorrentError::InvalidPieceIndex(block_index));
        }
        if self.blocks[block_index].is_some() {
            return Ok(false);
        }
        let ghost before = blocks_view(self.blocks@);
        proof {
            lemma_count_fill(before, block_index as int, bytes_contents(data));
        }
        self.blocks.set(block_index, Some(data));
        proof {
            assert(blocks_view(self.blocks@) =~= before.update(block_index as int, Some(bytes_contents(data))));
        }
        self.missing = self.missing - 1;
        Ok(self.missing == 0)
    }

    /// Gives a reserved block back; a block is missing until it is set, so
    /// nothing changes.
    pub fn cancel(&self, block_index: usize) {
    }

    /// The bytes of the blocks that have arrived, in order, cut to the
    /// piece's length.
    pub fn flush(&self) -> (r: Bytes)
        ensures
            bytes_contents(r) == (if concat_blocks(self.blocks_view()).len() <= self.length_view() {
                concat_blocks(self.blocks_view())
            } else {
                concat_blocks(self.blocks_view()).subrange(0, self.length_view() as int)
            }),
    {
        let mut buffer: Vec<u8> = Vec::new();
        let mut i: usize = 0;
        while i < self.blocks.len()
            invariant
                0 <= i <= self.blocks@.len(),
                buffer@ == concat_blocks(blocks_view(self.blocks@).subrange(0, i as int)),
            decreases self.blocks@.len() - i,
        {
            proof {
                assert(blocks_view(self.blocks@).subrange(0, i + 1).drop_last() =~= blocks_view(self.blocks@).subrange(0, i as int));
            }
            match &self.blocks[i] {
                Some(data) => {
                    crate::bencode_parser::append_bytes(&mut buffer, bytes_as_slice(data));
                },
                None => {
                    proof {
                        assert(buffer@ =~= buffer@ + Seq::<u8>::empty());
                    }
                },
            }
            i = i + 1;
        }
        proof {
            assert(blocks_view(self.blocks@).subrange(0, self.blocks@.len() as int) =~= blocks_view(self.blocks@));
        }
        if (buffer.len() as u64) > self.length {
            buffer.truncate(self.length as usize);
        }
        bytes_from_vec(buffer)
    }

    /// Where block `block_index` starts within the piece.
    pub fn chunk_offset(&self, block_index: usize) -> (r: u64)
        requires
            block_index * 16384 <= usize::MAX,
        ensures
            r == block_index * 16384,
    {
        (block_index * BLOCK_LENGTH) as u64
    }

    /// The length of block `block_index`: `BLOCK_LENGTH`, except for the
    /// last block, which holds what is left of the piece.
    pub fn chunk_length(&self, block_index: usize) -> (r: usize)
        requires
            self.wf(),
            self.blocks_view().len() > 0,
        ensures
            r == (if block_index == self.blocks_view().len() - 1 {
                self.length_view() - (self.blocks_view().len() - 1) * 16384
            } else {
                16384
            }),
    {
        let n = self.blocks.len();
        if block_index == n - 1 {
            assert(self.length <= usize::MAX);
            let len: usize = self.length as usize;
            assert(len == self.length);
            let total = (len + BLOCK_LENGTH - 1) / BLOCK_LENGTH;
            assert((total - 1) * 16384 <= self.length) by (nonlinear_arith)
                requires
                    total == (self.length + 16383) / 16384,
                    total > 0,
            ;
            len - (total - 1) * BLOCK_LENGTH
        } else {
            BLOCK_LENGTH
        }
    }
}

/// The block lengths of a piece add up to its length: all but the last
/// block are full and the last holds from 1 to `BLOCK_LENGTH` bytes.
pub proof fn block_lengths_cover(length: nat)
    requires
        length > 0,
    ensures
        num_blocks(length) > 0,
        0 < length - (num_blocks(length) - 1) * 16384 <= 16384,
{
    assert(0 < length - ((length + 16383) / 16384 - 1) * 16384 <= 16384) by (nonlinear_arith)
        requires
            length > 0,
    ;
}

} // verus!
