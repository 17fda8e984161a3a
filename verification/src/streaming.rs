//! Reading one file of a torrent in order, as its pieces arrive.

use crate::buffer::bytes_as_slice;
use crate::error::{invalid_torrent, network_error, Result};
use crate::selections::stable_sort;
use crate::store::{chunk_read, readable, MemoryChunkStore};
use crate::torrent::{file_selection, Torrent};
use vstd::prelude::*;

verus! {

/// Most bytes read from the store at a time.
pub const READ_CHUNK: u64 = 65536;

/// The first `need` bytes held in `buf`, and what is left of it: whole
/// chunks are taken while they fit, and the chunk that does not fit is cut.
pub open spec fn drain(buf: Seq<Seq<u8>>, need: nat) -> (Seq<u8>, Seq<Seq<u8>>)
    decreases buf.len(),
{
    if need == 0 || buf.len() == 0 {
        (Seq::empty(), buf)
    } else if buf[0].len() <= need {
        let rest = drain(buf.drop_first(), (need - buf[0].len()) as nat);
        (buf[0] + rest.0, rest.1)
    } else {
        (buf[0].subrange(0, need as int), buf.update(0, buf[0].subrange(need as int, buf[0].len() as int)))
    }
}

/// Where the byte at `position` of a file at `offset` lies: its piece and
/// its place in that piece.
pub open spec fn piece_place(offset: u64, position: u64, piece_length: u64) -> (usize, usize) {
    (((offset + position) / (piece_length as int)) as usize, ((offset + position) % (piece_length as int)) as usize)
}

/// The next read of the background reader, at `position` of a file of
/// `length` bytes at `offset`: nothing at the end of the file, else the
/// piece, the place in it and up to 64 KiB.
pub open spec fn read_step(offset: u64, length: u64, piece_length: u64, position: u64) -> Option<(usize, usize, usize)> {
    if position >= length {
        None
    } else {
        let (p, o) = piece_place(offset, position, piece_length);
        Some((p, o, (if length - position <= READ_CHUNK { length - position } else { READ_CHUNK as int }) as usize))
    }
}

/// The next read of the background reader: `None` at the end of the file.
pub fn next_read(offset: u64, length: u64, piece_length: u64, position: u64) -> (r: Option<(usize, usize, usize)>)
    requires
        piece_length > 0,
        offset + length <= u64::MAX,
    ensures
        r == read_step(offset, length, piece_length, position),
{
    if position >= length {
        return None;
    }
    let absolute = offset + position;
    let piece_index = (absolute / piece_length) as usize;
    let offset_in_piece = (absolute % piece_length) as usize;
    let remaining = length - position;
    let to_read: u64 = if remaining <= READ_CHUNK { remaining } else { READ_CHUNK };
    Some((piece_index, offset_in_piece, to_read as usize))
}

/// A reader of one file of a torrent, in order.
pub struct TorrentReadStream {
    file_index: usize,
    file_length: u64,
    file_offset: u64,
    piece_length: u64,
    position: u64,
    buffer: Vec<Vec<u8>>,
    destroyed: bool,
}

/// The chunks of a buffer as plain values.
pub open spec fn chunks_view(b: Seq<Vec<u8>>) -> Seq<Seq<u8>> {
    Seq::new(b.len(), |i: int| b[i]@)
}

/// The bytes `v[from..]`.
fn tail_bytes(v: &Vec<u8>, from: usize) -> (r: Vec<u8>)
    requires
        from <= v@.len(),
    ensures
        r@ == v@.subrange(from as int, v@.len() as int),
{
    let mut out: Vec<u8> = Vec::new();
    let mut i: usize = from;
    while i < v.len()
        invariant
            from <= i <= v@.len(),
            out@ == v@.subrange(from as int, i as int),
        decreases v@.len() - i,
    {
        out.push(v[i]);
        proof {
            assert(out@ =~= v@.subrange(from as int, i + 1));
        }
        i = i + 1;
    }
    out
}

impl TorrentReadStream {
    /// The file read.
    pub closed spec fn file_index_view(&self) -> usize {
        self.file_index
    }

    /// The file's length.
    pub closed spec fn file_length_view(&self) -> u64 {
        self.file_length
    }

    /// The file's offset in the torrent.
    pub closed spec fn file_offset_view(&self) -> u64 {
        self.file_offset
    }

    /// The torrent's piece length.
    pub closed spec fn piece_length_view(&self) -> u64 {
        self.piece_length
    }

    /// Bytes handed out so far.
    pub closed spec fn position_view(&self) -> u64 {
        self.position
    }

    /// Bytes held back from earlier reads.
    pub closed spec fn buffer_view(&self) -> Seq<Seq<u8>> {
        chunks_view(self.buffer@)
    }

    /// Whether the stream was destroyed.
    pub closed spec fn destroyed_view(&self) -> bool {
        self.destroyed
    }

    /// The file fits the torrent's offsets and pieces are not empty.
    pub open spec fn wf(&self) -> bool {
        self.piece_length_view() > 0 && self.file_offset_view() + self.file_length_view() <= u64::MAX
    }

    /// A reader of file `file_index`. The file is made critical and a
    /// stream selection over its pieces is added, so that its pieces come
    /// first and in order. Fails for a file index out of range.
    pub fn new(torrent: &mut Torrent, file_index: usize) -> (r: Result<TorrentReadStream>)
        requires
            old(torrent).piece_length_view() > 0,
            file_index < old(torrent).files_view().len() ==> 1 <= old(torrent).files_view()[file_index as int].2
                + old(torrent).files_view()[file_index as int].1 <= u64::MAX,
        ensures
            file_index >= old(torrent).files_view().len() ==> (r matches Err(e) && e is InvalidTorrent
                && *final(torrent) == *old(torrent)),
            file_index < old(torrent).files_view().len() ==> ({
                let f = old(torrent).files_view()[file_index as int];
                let pl = old(torrent).piece_length_view();
                let after_critical = if old(torrent).destroyed_view() {
                    old(torrent).selections_view()
                } else {
                    stable_sort(old(torrent).selections_view().push(file_selection(f.2 as nat, f.1 as nat, pl, 7, false)))
                };
                &&& r matches Ok(s) && s.wf() && s.file_index_view() == file_index && s.file_length_view() == f.1
                    && s.file_offset_view() == f.2 && s.piece_length_view() == pl && s.position_view() == 0
                    && s.buffer_view() == Seq::<Seq<u8>>::empty() && !s.destroyed_view()
                &&& final(torrent).selections_view() == stable_sort(
                    after_critical.push(file_selection(f.2 as nat, f.1 as nat, pl, 7, true)),
                )
                &&& final(torrent).selected_view() == (if old(torrent).destroyed_view() {
                    old(torrent).selected_view()
                } else {
                    old(torrent).selected_view().insert(file_index, 7)
                })
            }),
    {
        if file_index >= torrent.files().len() {
            return Err(invalid_torrent("File index out of range"));
        }
        let _ = torrent.critical(file_index);
        torrent.add_stream_selection(file_index);
        let file = &torrent.files()[file_index];
        let file_length = file.length();
        let file_offset = file.offset();
        let piece_length = torrent.piece_length();
        let s = TorrentReadStream {
            file_index,
            file_length,
            file_offset,
            piece_length,
            position: 0,
            buffer: Vec::new(),
            destroyed: false,
        };
        proof {
            assert(chunks_view(s.buffer@) =~= Seq::<Seq<u8>>::empty());
        }
        Ok(s)
    }

    /// Bytes handed out so far.
    pub fn position(&self) -> (r: u64)
        ensures
            r == self.position_view(),
    {
        self.position
    }

    /// Whether the whole file was handed out.
    pub fn is_eof(&self) -> (r: bool)
        ensures
            r == (self.position_view() >= self.file_length_view()),
    {
        self.position >= self.file_length
    }

    /// Stops the stream.
    pub fn destroy(&mut self) -> (r: Result<()>)
        ensures
            r is Ok,
            final(self).destroyed_view(),
            final(self).position_view() == old(self).position_view(),
            final(self).file_length_view() == old(self).file_length_view(),
    {
        self.destroyed = true;
        Ok(())
    }

    /// Counts `n` bytes that the background reader delivered.
    pub fn advance(&mut self, n: u64)
        requires
            old(self).position_view() + n <= u64::MAX,
        ensures
            final(self).position_view() == old(self).position_view() + n,
            final(self).file_length_view() == old(self).file_length_view(),
            final(self).file_offset_view() == old(self).file_offset_view(),
            final(self).piece_length_view() == old(self).piece_length_view(),
            final(self).buffer_view() == old(self).buffer_view(),
            final(self).destroyed_view() == old(self).destroyed_view(),
    {
        self.position = self.position + n;
    }

    /// Takes up to `need` bytes from the held-back chunks.
    fn drain_buffer(&mut self, need: usize) -> (r: Vec<u8>)
        ensures
            r@ == drain(old(self).buffer_view(), need as nat).0,
            final(self).buffer_view() == drain(old(self).buffer_view(), need as nat).1,
            final(self).position_view() == old(self).position_view(),
            final(self).file_length_view() == old(self).file_length_view(),
            final(self).file_offset_view() == old(self).file_offset_view(),
            final(self).piece_length_view() == old(self).piece_length_view(),
            final(self).destroyed_view() == old(self).destroyed_view(),
    {
        let mut out: Vec<u8> = Vec::new();
        let ghost whole = drain(self.buffer_view(), need as nat);
        while out.len() < need && self.buffer.len() > 0
            invariant_except_break
                out@.len() <= need,
                out@ + drain(self.buffer_view(), (need - out@.len()) as nat).0 == whole.0,
                drain(self.buffer_view(), (need - out@.len()) as nat).1 == whole.1,
                self.position == old(self).position,
                self.file_length == old(self).file_length,
                self.file_offset == old(self).file_offset,
                self.piece_length == old(self).piece_length,
                self.destroyed == old(self).destroyed,
            ensures
                out@ == whole.0,
                self.buffer_view() == whole.1,
                self.position == old(self).position,
                self.file_length == old(self).file_length,
                self.file_offset == old(self).file_offset,
                self.piece_length == old(self).piece_length,
                self.destroyed == old(self).destroyed,
            decreases need - out@.len() + self.buffer@.len(),
        {
            let ghost b = self.buffer_view();
            let ghost left = (need - out@.len()) as nat;
            let chunk_len = self.buffer[0].len();
            let wanted = need - out.len();
            let ghost before = out@;
            if chunk_len <= wanted {
                let chunk = self.buffer.remove(0);
                let mut j: usize = 0;
                while j < chunk.len()
                    invariant
                        0 <= j <= chunk@.len(),
                        out@ == before + chunk@.subrange(0, j as int),
                    decreases chunk@.len() - j,
                {
                    out.push(chunk[j]);
                    proof {
                        assert(out@ =~= before + chunk@.subrange(0, j + 1));
                    }
                    j = j + 1;
                }
                proof {
                    assert(chunk@.subrange(0, chunk@.len() as int) =~= chunk@);
                    assert(chunks_view(self.buffer@) =~= b.drop_first());
                    assert((need - out@.len()) as nat == (left - chunk@.len()) as nat);
                }
            } else {
                let mut j: usize = 0;
                while j < wanted
                    invariant
                        0 <= j <= wanted < chunk_len,
                        chunk_len == self.buffer@[0]@.len(),
                        self.buffer@.len() > 0,
                        out@ == before + self.buffer@[0]@.subrange(0, j as int),
                    decreases wanted - j,
                {
                    out.push(self.buffer[0][j]);
                    proof {
                        assert(out@ =~= before + self.buffer@[0]@.subrange(0, j + 1));
                    }
                    j = j + 1;
                }
                let rest = tail_bytes(&self.buffer[0], wanted);
                self.buffer.set(0, rest);
                proof {
                    assert(chunks_view(self.buffer@) =~= b.update(0, b[0].subrange(left as int, b[0].len() as int)));
                    assert(out@.len() == need);
                    assert(drain(self.buffer_view(), 0).0 =~= Seq::<u8>::empty());
                    assert(out@ =~= whole.0);
                }
                break;
            }
        }
        out
    }

    /// Reads up to `len` bytes at the current position: first from the
    /// held-back chunks, then, for the rest, from `store` at the piece and
    /// place of the next byte (nothing more when the piece is not there).
    /// Returns no bytes at the end of the file, and fails once destroyed.
    pub fn read_internal(&mut self, store: Option<&MemoryChunkStore>, len: usize) -> (r: Result<Vec<u8>>)
        requires
            old(self).wf(),
            old(self).position_view() < old(self).file_length_view() ==> match store {
                Some(st) => {
                    let place = piece_place(old(self).file_offset_view(), old(self).position_view(), old(self).piece_length_view());
                    readable(st.pieces_view(), place.0, place.1 as nat, len as nat)
                },
                None => true,
            },
        ensures
            final(self).wf(),
            final(self).file_length_view() == old(self).file_length_view(),
            final(self).file_offset_view() == old(self).file_offset_view(),
            final(self).piece_length_view() == old(self).piece_length_view(),
            final(self).destroyed_view() == old(self).destroyed_view(),
            old(self).position_view() <= old(self).file_length_view() ==> final(self).position_view() <= final(self).file_length_view(),
            r matches Ok(v) ==> v@.len() <= len,
            old(self).destroyed_view() ==> (r matches Err(e) && e is Network && *final(self) == *old(self)),
            !old(self).destroyed_view() && old(self).position_view() >= old(self).file_length_view() ==> (r matches Ok(v)
                && v@.len() == 0 && *final(self) == *old(self)),
            !old(self).destroyed_view() && old(self).position_view() < old(self).file_length_view() ==> ({
                let to_read = if (len as int) <= old(self).file_length_view() - old(self).position_view() {
                    len as nat
                } else {
                    (old(self).file_length_view() - old(self).position_view()) as nat
                };
                let d = drain(old(self).buffer_view(), to_read);
                let need = (to_read - d.0.len()) as nat;
                let place = piece_place(old(self).file_offset_view(), old(self).position_view(), old(self).piece_length_view());
                let fetched: Seq<u8> = if need > 0 && store is Some {
                    match chunk_read(store.unwrap().pieces_view(), place.0, place.1 as nat, need) {
                        Some(data) => data,
                        None => Seq::empty(),
                    }
                } else {
                    Seq::empty()
                };
                &&& r matches Ok(v) && v@ == d.0 + fetched
                &&& final(self).buffer_view() == d.1
                &&& final(self).position_view() == old(self).position_view() + d.0.len() + fetched.len()
            }),
    {
        if self.destroyed {
            return Err(network_error("Stream destroyed"));
        }
        if self.position >= self.file_length {
            return Ok(Vec::new());
        }
        let remaining_in_file = self.file_length - self.position;
        let to_read: usize = if (len as u64) <= remaining_in_file { len } else { remaining_in_file as usize };
        let absolute = self.file_offset + self.position;
        let piece_index = (absolute / self.piece_length) as usize;
        let offset_in_piece = (absolute % self.piece_length) as usize;
        let mut out = self.drain_buffer(to_read);
        proof {
            lemma_drain_len(old(self).buffer_view(), to_read as nat);
        }
        if out.len() < to_read {
            if let Some(st) = store {
                let remaining = to_read - out.len();
                match st.get(piece_index, offset_in_piece, remaining) {
                    Ok(data) => {
                        let bytes = bytes_as_slice(&data);
                        let ghost before = out@;
                        let mut j: usize = 0;
                        while j < bytes.len()
                            invariant
                                0 <= j <= bytes@.len(),
                                out@ == before + bytes@.subrange(0, j as int),
                            decreases bytes@.len() - j,
                        {
                            out.push(bytes[j]);
                            proof {
                                assert(out@ =~= before + bytes@.subrange(0, j + 1));
                            }
                            j = j + 1;
                        }
                        proof {
                            assert(bytes@.subrange(0, bytes@.len() as int) =~= bytes@);
                        }
                    },
                    Err(_) => {},
                }
            }
        }
        proof {
            assert(out@.len() <= to_read);
        }
        self.position = self.position + out.len() as u64;
        Ok(out)
    }
}

/// The bytes taken from a buffer are at most what was asked for.
pub proof fn lemma_drain_len(buf: Seq<Seq<u8>>, need: nat)
    ensures
        drain(buf, need).0.len() <= need,
    decreases buf.len(),
{
    if need > 0 && buf.len() > 0 && buf[0].len() <= need {
        lemma_drain_len(buf.drop_first(), (need - buf[0].len()) as nat);
    }
}


/// What the background reader asks for: nothing once the position reaches
/// the end of the file; before that, at least one byte and at most 64 KiB,
/// never past the end of the file, and as much as both bounds allow (a
/// full 64 KiB, or everything up to the end); it reads in the piece that
/// holds the file's byte at that position, at that byte's place.
pub proof fn next_read_stays_in_file(offset: u64, length: u64, piece_length: u64, position: u64)
    ensures
        read_step(offset, length, piece_length, position) is None <==> position >= length,
        read_step(offset, length, piece_length, position) matches Some((p, o, n)) ==> {
            &&& 1 <= n <= 65536
            &&& position + n <= length
            &&& (n == 65536 || position + n == length)
        },
        piece_length > 0 && offset + position <= usize::MAX ==> (read_step(offset, length, piece_length, position) matches Some((p, o, n))
            ==> p * piece_length + o == offset + position && o < piece_length),
{
    if piece_length > 0 && offset + position <= usize::MAX && position < length {
        let x: int = offset + position;
        let pl: int = piece_length as int;
        assert(x == pl * (x / pl) + x % pl && 0 <= x % pl < pl && 0 <= x / pl <= x) by (nonlinear_arith)
            requires
                pl > 0,
                x >= 0,
        ;
        let (p, o) = piece_place(offset, position, piece_length);
        assert(p as int == x / pl);
        assert(o as int == x % pl);
        assert(p * piece_length == pl * (x / pl)) by (nonlinear_arith)
            requires
                p as int == x / pl,
                pl == piece_length as int,
        ;
    }
}

} // verus!
