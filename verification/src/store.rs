//! A chunk store held in memory: the pieces of a torrent by index.

use crate::buffer::{bytes_contents, bytes_len, bytes_slice};
use crate::decimal::{is_digit, lemma_nat_digits, u64_digits};
use crate::error::{Result, WebTorrentError};
use crate::text::ascii_string;
use bytes::Bytes;
use std::collections::HashMap;
use vstd::prelude::*;

verus! {

broadcast use vstd::std_specs::hash::group_hash_axioms;

/// What reading `length` bytes at `offset` of piece `index` gives: the
/// bytes from `offset` up to `offset + length` or the end of the piece,
/// whichever comes first; `None` when the piece is not stored.
pub open spec fn chunk_read(pieces: Map<usize, Seq<u8>>, index: usize, offset: nat, length: nat) -> Option<Seq<u8>> {
    if pieces.contains_key(index) {
        let p = pieces[index];
        Some(p.subrange(offset as int, if offset + length <= p.len() { (offset + length) as int } else { p.len() as int }))
    } else {
        None
    }
}

/// A read can be served: the piece is absent, or the read starts within it
/// and its end fits in a `usize`.
pub open spec fn readable(pieces: Map<usize, Seq<u8>>, index: usize, offset: nat, length: nat) -> bool {
    pieces.contains_key(index) ==> offset + length <= usize::MAX && offset <= pieces[index].len()
}

/// Pieces kept in memory.
pub struct MemoryChunkStore {
    pieces: HashMap<usize, Bytes>,
}

impl MemoryChunkStore {
    /// The stored pieces and their bytes.
    pub closed spec fn pieces_view(&self) -> Map<usize, Seq<u8>> {
        self.pieces@.map_values(|b: Bytes| bytes_contents(b))
    }

    /// An empty store.
    pub fn new() -> (r: MemoryChunkStore)
        ensures
            r.pieces_view() == Map::<usize, Seq<u8>>::empty(),
    {
        let r = MemoryChunkStore { pieces: HashMap::new() };
        proof {
            assert(r.pieces_view() =~= Map::<usize, Seq<u8>>::empty());
        }
        r
    }

    /// Reads `length` bytes at `offset` of piece `index`, fewer at the end
    /// of the piece; fails with a store error when the piece is absent.
    pub fn get(&self, index: usize, offset: usize, length: usize) -> (r: Result<Bytes>)
        requires
            readable(self.pieces_view(), index, offset as nat, length as nat),
        ensures
            match chunk_read(self.pieces_view(), index, offset as nat, length as nat) {
                Some(d) => r matches Ok(b) && bytes_contents(b) == d,
                None => r matches Err(e) && e is Store,
            },
    {
        match self.pieces.get(&index) {
            Some(piece) => {
                let len = bytes_len(piece);
                let end = if offset + length <= len {
                    offset + length
                } else {
                    len
                };
                Ok(bytes_slice(piece, offset, end))
            },
            None => {
                let mut text: Vec<u8> = Vec::new();
                text.push(80u8);
                text.push(105u8);
                text.push(101u8);
                text.push(99u8);
                text.push(101u8);
                text.push(32u8);
                let digits = u64_digits(index as u64);
                proof {
                    lemma_nat_digits(index as nat);
                }
                crate::bencode_parser::append_bytes(&mut text, digits.as_slice());
                let rest: [u8; 10] = [32u8, 110u8, 111u8, 116u8, 32u8, 102u8, 111u8, 117u8, 110u8, 100u8];
                crate::bencode_parser::append_bytes(&mut text, rest.as_slice());
                proof {
                    assert forall|i: int| 0 <= i < text@.len() implies text@[i] < 128 by {
                        if 6 <= i < 6 + digits@.len() {
                            assert(is_digit(digits@[i - 6]));
                        }
                    }
                }
                Err(WebTorrentError::Store(ascii_string(&text)))
            },
        }
    }

    /// Stores `data` as piece `index`, replacing what was there.
    pub fn put(&mut self, index: usize, data: Bytes) -> (r: Result<()>)
        ensures
            r is Ok,
            final(self).pieces_view() == old(self).pieces_view().insert(index, bytes_contents(data)),
    {
        self.pieces.insert(index, data);
        proof {
            assert(final(self).pieces_view() =~= old(self).pieces_view().insert(index, bytes_contents(data)));
        }
        Ok(())
    }

    /// Closes the store; nothing to release.
    pub fn close(&self) -> (r: Result<()>)
        ensures
            r is Ok,
    {
        Ok(())
    }

    /// Removes every piece.
    pub fn destroy(&mut self) -> (r: Result<()>)
        ensures
            r is Ok,
            final(self).pieces_view() == Map::<usize, Seq<u8>>::empty(),
    {
        self.pieces.clear();
        proof {
            assert(final(self).pieces_view() =~= Map::<usize, Seq<u8>>::empty());
        }
        Ok(())
    }
}

/// A read of a piece just stored gives that piece's bytes, and stores to
/// one piece leave reads of the others as they were.
pub proof fn store_read_after_write(
    pieces: Map<usize, Seq<u8>>,
    index: usize,
    data: Seq<u8>,
    other: usize,
    offset: nat,
    length: nat,
)
    ensures
        chunk_read(pieces.insert(index, data), index, offset, length) == Some(
            data.subrange(offset as int, if offset + length <= data.len() { (offset + length) as int } else { data.len() as int }),
        ),
        other != index ==> chunk_read(pieces.insert(index, data), other, offset, length) == chunk_read(
            pieces,
            other,
            offset,
            length,
        ),
{
}

} // verus!
