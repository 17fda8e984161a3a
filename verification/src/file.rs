//! A file of a torrent: where its bytes lie in the torrent's byte stream
//! and which pieces hold them.

use crate::text::{str_chars, string_from_chars};
use vstd::prelude::*;

verus! {

/// What follows the last `/` of a path; the whole path when it has none.
pub open spec fn last_segment(s: Seq<char>) -> Seq<char>
    decreases s.len(),
{
    if s.len() == 0 {
        s
    } else if s.last() == '/' {
        Seq::empty()
    } else {
        last_segment(s.drop_last()).push(s.last())
    }
}

/// The index of the piece that holds byte `pos`, for pieces of `piece_length`.
pub open spec fn piece_of(pos: nat, piece_length: nat) -> nat {
    pos / piece_length
}

/// A file of a torrent.
pub struct File {
    name: String,
    path: String,
    length: u64,
    offset: u64,
    done: bool,
}

impl File {
    /// The file's name: the last segment of its path.
    pub closed spec fn name_view(&self) -> Seq<char> {
        self.name@
    }

    /// The file's path within the torrent.
    pub closed spec fn path_view(&self) -> Seq<char> {
        self.path@
    }

    /// The file's length in bytes.
    pub closed spec fn length_view(&self) -> u64 {
        self.length
    }

    /// Where the file starts in the torrent's byte stream.
    pub closed spec fn offset_view(&self) -> u64 {
        self.offset
    }

    /// Whether the file is complete.
    pub closed spec fn done_view(&self) -> bool {
        self.done
    }

    /// A file at `path` of `length` bytes, starting at byte `offset` of the
    /// torrent, not yet complete.
    pub fn new(path: String, length: u64, offset: u64) -> (r: File)
        ensures
            r.name_view() == last_segment(path@),
            r.path_view() == path@,
            r.length_view() == length,
            r.offset_view() == offset,
            !r.done_view(),
    {
        let chars = str_chars(path.as_str());
        let mut start: usize = 0;
        let mut i: usize = 0;
        while i < chars.len()
            invariant
                0 <= start <= i <= chars@.len(),
                last_segment(chars@.subrange(0, i as int)) == chars@.subrange(start as int, i as int),
            decreases chars@.len() - i,
        {
            proof {
                assert(chars@.subrange(0, i + 1).drop_last() =~= chars@.subrange(0, i as int));
            }
            if chars[i] == '/' {
                start = i + 1;
                proof {
                    assert(chars@.subrange(start as int, i + 1) =~= Seq::<char>::empty());
                }
            } else {
                proof {
                    assert(chars@.subrange(start as int, i + 1) =~= chars@.subrange(start as int, i as int).push(chars@[i as int]));
                }
            }
            i = i + 1;
        }
        proof {
            assert(chars@.subrange(0, chars@.len() as int) =~= chars@);
        }
        let name = string_from_chars(vstd::slice::slice_subrange(chars.as_slice(), start, chars.len()));
        File { name, path, length, offset, done: false }
    }

    /// The file's name.
    pub fn name(&self) -> (r: &str)
        ensures
            r@ == self.name_view(),
    {
        self.name.as_str()
    }

    /// The file's path within the torrent.
    pub fn path(&self) -> (r: &str)
        ensures
            r@ == self.path_view(),
    {
        self.path.as_str()
    }

    /// The file's length in bytes.
    pub fn length(&self) -> (r: u64)
        ensures
            r == self.length_view(),
    {
        self.length
    }

    /// Where the file starts in the torrent's byte stream.
    pub fn offset(&self) -> (r: u64)
        ensures
            r == self.offset_view(),
    {
        self.offset
    }

    /// Whether the file is complete.
    pub fn done(&self) -> (r: bool)
        ensures
            r == self.done_view(),
    {
        self.done
    }

    /// Marks the file complete or not.
    pub fn set_done(&mut self, done: bool)
        ensures
            final(self).done_view() == done,
            final(self).name_view() == old(self).name_view(),
            final(self).path_view() == old(self).path_view(),
            final(self).length_view() == old(self).length_view(),
            final(self).offset_view() == old(self).offset_view(),
    {
        self.done = done;
    }

    /// The piece that holds the file's first byte.
    pub fn start_piece(&self, piece_length: u64) -> (r: usize)
        requires
            piece_length > 0,
        ensures
            r == (piece_of(self.offset_view() as nat, piece_length as nat) as usize),
    {
        (self.offset / piece_length) as usize
    }

    /// The piece that holds the file's last byte.
    pub fn end_piece(&self, piece_length: u64) -> (r: usize)
        requires
            piece_length > 0,
            1 <= self.offset_view() + self.length_view() <= u64::MAX,
        ensures
            r == (piece_of((self.offset_view() + self.length_view() - 1) as nat, piece_length as nat) as usize),
    {
        ((self.offset + self.length - 1) / piece_length) as usize
    }

    /// Whether piece `piece_index` lies between the file's first and last
    /// pieces.
    pub fn includes_piece(&self, piece_index: usize, piece_length: u64) -> (r: bool)
        requires
            piece_length > 0,
            1 <= self.offset_view() + self.length_view() <= u64::MAX,
        ensures
            r == ((piece_of(self.offset_view() as nat, piece_length as nat) as usize) <= piece_index
                <= (piece_of((self.offset_view() + self.length_view() - 1) as nat, piece_length as nat) as usize)),
    {
        let start = self.start_piece(piece_length);
        let end = self.end_piece(piece_length);
        piece_index >= start && piece_index <= end
    }
}

} // verus!
