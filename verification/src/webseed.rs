//! Web seeds: a block request of the BitTorrent protocol becomes one HTTP
//! range request per file that the block touches, and the answers are put
//! back together in order.

use crate::bitfield::{max_bits, Bitfield};
use crate::codecs::{parse_url_scheme, url_scheme};
use crate::decimal::{ascii_chars, is_digit, lemma_nat_digits, nat_digits, u64_digits};
use crate::error::{invalid_torrent, network_error, Result};
use crate::text::{ascii_string, str_chars, string_from_chars};
use crate::wire::Wire;
use vstd::prelude::*;

verus! {

/// Milliseconds before an HTTP request to a web seed gives up.
pub const SOCKET_TIMEOUT_MS: u64 = 60000;

/// A file of the torrent as the web seed sees it.
pub struct WebSeedFile {
    pub path: String,
    pub length: u64,
    pub offset: u64,
}

/// One HTTP range request: the URL, the first and last byte in that
/// resource, and where its bytes go in the block.
pub struct HttpRangeRequest {
    pub url: String,
    pub start: u64,
    pub end: u64,
    pub file_offset_in_range: u64,
}

/// A range request as plain values.
pub open spec fn request_view(r: HttpRangeRequest) -> (Seq<char>, u64, u64, u64) {
    (r.url@, r.start, r.end, r.file_offset_in_range)
}

/// Range requests as plain values.
pub open spec fn requests_view(s: Seq<HttpRangeRequest>) -> Seq<(Seq<char>, u64, u64, u64)> {
    Seq::new(s.len(), |i: int| request_view(s[i]))
}

/// A file as plain values: path, length, offset.
pub open spec fn file_view(f: WebSeedFile) -> (Seq<char>, u64, u64) {
    (f.path@, f.length, f.offset)
}

/// Files as plain values.
pub open spec fn web_files_view(s: Seq<WebSeedFile>) -> Seq<(Seq<char>, u64, u64)> {
    Seq::new(s.len(), |i: int| file_view(s[i]))
}

/// The URL of a file of a multi-file torrent under the web seed's URL.
pub open spec fn file_url(base: Seq<char>, path: Seq<char>) -> Seq<char> {
    if base.len() > 0 && base.last() == '/' {
        base + path
    } else {
        base + seq!['/'] + path
    }
}

/// `a - b`, or zero when `b` is larger.
pub open spec fn sat_sub(a: u64, b: u64) -> u64 {
    if a >= b {
        (a - b) as u64
    } else {
        0
    }
}

/// The range request for one file, when the file meets the bytes
/// `range_start..=range_end` of the torrent.
pub open spec fn file_request(base: Seq<char>, f: (Seq<char>, u64, u64), range_start: u64, range_end: u64) -> Option<(Seq<char>, u64, u64, u64)> {
    let file_end = f.2 + f.1 - 1;
    if f.2 <= range_end && file_end >= range_start {
        let a = (file_end - f.2) as u64;
        let b = (range_end - f.2) as u64;
        Some((file_url(base, f.0), sat_sub(range_start, f.2), if a <= b { a } else { b }, sat_sub(f.2, range_start)))
    } else {
        None
    }
}

/// Every file is not empty and ends within the torrent's offsets.
pub open spec fn files_fit(files: Seq<(Seq<char>, u64, u64)>) -> bool {
    forall|i: int| 0 <= i < files.len() ==> 1 <= #[trigger] files[i].1 && files[i].2 + files[i].1 <= u64::MAX
}

/// The first byte of a block in the torrent.
pub open spec fn block_start(piece_length: u64, piece_index: usize, offset: usize) -> int {
    piece_index * piece_length + offset
}

/// The range requests for a block: one for the whole range at the web
/// seed's URL for a torrent of one file; else one per file that the range
/// meets, in the order of the files.
pub open spec fn planned_requests(base: Seq<char>, files: Seq<(Seq<char>, u64, u64)>, range_start: u64, range_end: u64) -> Seq<(Seq<char>, u64, u64, u64)> {
    if files.len() <= 1 {
        seq![(base, range_start, range_end, 0u64)]
    } else {
        files.filter_map(|f: (Seq<char>, u64, u64)| file_request(base, f, range_start, range_end))
    }
}

/// A connection to a web seed.
pub struct WebSeedConn {
    url: String,
    conn_id: String,
    wire: Wire,
    destroyed: bool,
    piece_length: u64,
    files: Vec<WebSeedFile>,
}

/// `s` followed by the characters of `t`.
fn push_chars(s: &mut Vec<char>, t: &Vec<char>)
    ensures
        final(s)@ == old(s)@ + t@,
{
    let mut i: usize = 0;
    let ghost start = s@;
    while i < t.len()
        invariant
            0 <= i <= t@.len(),
            s@ == start + t@.subrange(0, i as int),
        decreases t@.len() - i,
    {
        s.push(t[i]);
        proof {
            assert(s@ =~= start + t@.subrange(0, i + 1));
        }
        i = i + 1;
    }
    proof {
        assert(t@.subrange(0, t@.len() as int) =~= t@);
    }
}

/// The URL of a file under the web seed's URL.
fn join_url(base: &str, path: &str) -> (r: String)
    ensures
        r@ == file_url(base@, path@),
{
    let b = str_chars(base);
    let p = str_chars(path);
    let mut out: Vec<char> = Vec::new();
    push_chars(&mut out, &b);
    if b.len() == 0 || b[b.len() - 1] != '/' {
        out.push('/');
    }
    push_chars(&mut out, &p);
    string_from_chars(out.as_slice())
}

/// Whether a scheme is `http` or `https`.
pub open spec fn is_http_scheme(s: Seq<char>) -> bool {
    s == seq!['h', 't', 't', 'p'] || s == seq!['h', 't', 't', 'p', 's']
}

/// Whether the characters of `s` are `http` or `https`.
fn http_scheme(s: &str) -> (r: bool)
    ensures
        r == is_http_scheme(s@),
{
    let c = str_chars(s);
    let http = c.len() == 4 && c[0] == 'h' && c[1] == 't' && c[2] == 't' && c[3] == 'p';
    let https = c.len() == 5 && c[0] == 'h' && c[1] == 't' && c[2] == 't' && c[3] == 'p' && c[4] == 's';
    proof {
        if c@.len() == 4 {
            assert(http ==> c@ =~= seq!['h', 't', 't', 'p']);
        }
        if c@.len() == 5 {
            assert(https ==> c@ =~= seq!['h', 't', 't', 'p', 's']);
        }
    }
    http || https
}

impl WebSeedConn {
    /// The web seed's URL.
    pub closed spec fn url_view(&self) -> Seq<char> {
        self.url@
    }

    /// The torrent's piece length.
    pub closed spec fn piece_length_view(&self) -> u64 {
        self.piece_length
    }

    /// The torrent's files.
    pub closed spec fn files_view(&self) -> Seq<(Seq<char>, u64, u64)> {
        web_files_view(self.files@)
    }

    /// Whether the connection was destroyed.
    pub closed spec fn destroyed_view(&self) -> bool {
        self.destroyed
    }

    /// The pieces the web seed is taken to have.
    pub closed spec fn pieces_view(&self) -> Seq<bool> {
        self.wire.peer_pieces_view()
    }

    /// The connection's wire.
    pub closed spec fn wire_view(&self) -> Wire {
        self.wire
    }

    /// A connection to the web seed at `url` for a torrent of the given
    /// piece length and files (path, length, offset). The URL must parse
    /// and be `http` or `https`.
    pub fn new(url: String, piece_length: u64, files: Vec<(String, u64, u64)>) -> (r: Result<WebSeedConn>)
        ensures
            url_scheme(url@) is None ==> (r matches Err(e) && e is InvalidTorrent),
            url_scheme(url@) matches Some(s) && !is_http_scheme(s) ==> (r matches Err(e) && e is InvalidTorrent),
            url_scheme(url@) matches Some(s) && is_http_scheme(s) ==> (r matches Ok(c) && c.url_view() == url@
                && c.piece_length_view() == piece_length && !c.destroyed_view() && c.files_view() == Seq::new(
                files@.len(),
                |i: int| (files@[i].0@, files@[i].1, files@[i].2),
            ) && c.pieces_view() == Seq::<bool>::empty()),
    {
        let scheme = match parse_url_scheme(url.as_str()) {
            Some(s) => s,
            None => {
                return Err(invalid_torrent("Invalid web seed URL"));
            },
        };
        if !http_scheme(scheme.as_str()) {
            return Err(invalid_torrent("Web seed URL must be http or https"));
        }
        let conn_id = url.clone();
        let wire = Wire::new(String::from_str("webSeed"));
        let mut web_files: Vec<WebSeedFile> = Vec::new();
        let mut i: usize = 0;
        while i < files.len()
            invariant
                0 <= i <= files@.len(),
                web_files@.len() == i,
                web_files_view(web_files@) == Seq::new(i as nat, |j: int| (files@[j].0@, files@[j].1, files@[j].2)),
            decreases files@.len() - i,
        {
            let path = files[i].0.clone();
            let length = files[i].1;
            let offset = files[i].2;
            let ghost before = web_files@;
            web_files.push(WebSeedFile { path, length, offset });
            proof {
                assert(path@ == files@[i as int].0@);
                assert(file_view(web_files@[i as int]) == (files@[i as int].0@, files@[i as int].1, files@[i as int].2));
                assert forall|j: int| 0 <= j < i implies file_view(web_files@[j]) == (files@[j].0@, files@[j].1, files@[j].2) by {
                    assert(web_files@[j] == before[j]);
                    assert(web_files_view(before)[j] == file_view(before[j]));
                }
                assert(web_files_view(web_files@) =~= Seq::new((i + 1) as nat, |j: int| (files@[j].0@, files@[j].1, files@[j].2)));
            }
            i = i + 1;
        }
        Ok(WebSeedConn { url, conn_id, wire, destroyed: false, piece_length, files: web_files })
    }

    /// The connection id: the URL, so that a web seed is added once.
    pub fn conn_id(&self) -> (r: &str)
        ensures
            r@ == self.url_view(),
    {
        self.url.as_str()
    }

    /// The web seed's URL.
    pub fn url(&self) -> (r: &str)
        ensures
            r@ == self.url_view(),
    {
        self.url.as_str()
    }

    /// The connection's wire.
    pub fn wire(&self) -> (r: &Wire)
        ensures
            r.peer_pieces_view() == self.pieces_view(),
            *r == self.wire_view(),
    {
        &self.wire
    }

    /// A web seed serves whatever is asked: the peer neither chokes us nor
    /// loses interest, and we neither choke it nor lose interest.
    pub(crate) fn open_exchange(&mut self)
        ensures
            !final(self).wire_view().peer_choking_view(),
            final(self).wire_view().peer_interested_view(),
            !final(self).wire_view().am_choking_view(),
            final(self).wire_view().am_interested_view(),
            final(self).pieces_view() == old(self).pieces_view(),
            final(self).wire_view().destroyed_view() == old(self).wire_view().destroyed_view(),
            final(self).wire_view().requests_view() == old(self).wire_view().requests_view(),
            final(self).destroyed_view() == old(self).destroyed_view(),
            final(self).url_view() == old(self).url_view(),
            final(self).files_view() == old(self).files_view(),
            final(self).piece_length_view() == old(self).piece_length_view(),
    {
        self.wire.set_peer_choking(false);
        self.wire.set_peer_interested(true);
        self.wire.unchoke();
        self.wire.interested();
    }

    /// Marks every one of `num_pieces` pieces as held: a web seed has the
    /// whole torrent. Fails once destroyed.
    pub fn init(&mut self, num_pieces: usize) -> (r: Result<()>)
        requires
            num_pieces <= max_bits(),
        ensures
            old(self).destroyed_view() ==> (r matches Err(e) && e is Network && final(self).pieces_view() == old(self).pieces_view()),
            !old(self).destroyed_view() ==> (r is Ok && final(self).pieces_view() == Seq::new(num_pieces as nat, |i: int| true)),
            final(self).destroyed_view() == old(self).destroyed_view(),
            final(self).url_view() == old(self).url_view(),
            final(self).files_view() == old(self).files_view(),
            final(self).piece_length_view() == old(self).piece_length_view(),
    {
        if self.destroyed {
            return Err(network_error("Web seed destroyed"));
        }
        self.wire.set_peer_pieces(Bitfield::filled(num_pieces, true));
        Ok(())
    }

    /// Whether `range_requests` can plan a request: the block's first byte
    /// plus its length fits in 64 bits and is at least one, and in a
    /// torrent of several files every file is non-empty and ends within 64
    /// bits.
    pub fn request_fits(&self, piece_index: usize, offset: usize, length: usize) -> (r: bool)
        ensures
            r == (block_start(self.piece_length_view(), piece_index, offset) + length <= u64::MAX
                && block_start(self.piece_length_view(), piece_index, offset) + length >= 1
                && (self.files_view().len() > 1 ==> files_fit(self.files_view()))),
    {
        let a: u128 = piece_index as u128;
        let b: u128 = self.piece_length as u128;
        assert(a * b <= 0xffff_ffff_ffff_ffffu128 * 0xffff_ffff_ffff_ffffu128) by (nonlinear_arith)
            requires
                a <= 0xffff_ffff_ffff_ffffu128,
                b <= 0xffff_ffff_ffff_ffffu128,
        ;
        let start: u128 = a * b + (offset as u128);
        assert(start == block_start(self.piece_length_view(), piece_index, offset));
        let total: u128 = start + (length as u128);
        if total > u64::MAX as u128 || total < 1 {
            return false;
        }
        if self.files.len() <= 1 {
            return true;
        }
        let mut i: usize = 0;
        while i < self.files.len()
            invariant
                0 <= i <= self.files@.len(),
                self.files@.len() > 1,
                block_start(self.piece_length_view(), piece_index, offset) + length <= u64::MAX,
                block_start(self.piece_length_view(), piece_index, offset) + length >= 1,
                forall|j: int| 0 <= j < i ==> 1 <= #[trigger] self.files_view()[j].1 && self.files_view()[j].2
                    + self.files_view()[j].1 <= u64::MAX,
            decreases self.files@.len() - i,
        {
            let f = &self.files[i];
            proof {
                assert(self.files_view()[i as int] == file_view(self.files@[i as int]));
            }
            if f.length < 1 || f.length > u64::MAX - f.offset {
                proof {
                    assert(!(1 <= self.files_view()[i as int].1 && self.files_view()[i as int].2 + self.files_view()[i as int].1
                        <= u64::MAX));
                }
                return false;
            }
            i = i + 1;
        }
        true
    }

    /// The range requests for `length` bytes at `offset` of piece
    /// `piece_index`. Fails once destroyed, and for a torrent of several
    /// files when no file meets the range.
    pub fn range_requests(&self, piece_index: usize, offset: usize, length: usize) -> (r: Result<Vec<HttpRangeRequest>>)
        requires
            block_start(self.piece_length_view(), piece_index, offset) + length <= u64::MAX,
            block_start(self.piece_length_view(), piece_index, offset) + length >= 1,
            self.files_view().len() > 1 ==> files_fit(self.files_view()),
        ensures
            ({
                let start = block_start(self.piece_length_view(), piece_index, offset) as u64;
                let end = (start + length - 1) as u64;
                let plan = planned_requests(self.url_view(), self.files_view(), start, end);
                &&& self.destroyed_view() ==> (r matches Err(e) && e is Network)
                &&& !self.destroyed_view() && plan.len() == 0 ==> (r matches Err(e) && e is Network)
                &&& !self.destroyed_view() && plan.len() > 0 ==> (r matches Ok(v) && requests_view(v@) == plan)
            }),
    {
        if self.destroyed {
            return Err(network_error("Web seed destroyed"));
        }
        let piece_offset: u64 = piece_index as u64 * self.piece_length;
        let range_start: u64 = piece_offset + offset as u64;
        let range_end: u64 = range_start + length as u64 - 1;
        if self.files.len() <= 1 {
            let mut v: Vec<HttpRangeRequest> = Vec::new();
            v.push(HttpRangeRequest { url: self.url.clone(), start: range_start, end: range_end, file_offset_in_range: 0 });
            proof {
                assert(requests_view(v@) =~= planned_requests(self.url_view(), self.files_view(), range_start, range_end));
            }
            return Ok(v);
        }
        let ghost files = self.files_view();
        let ghost f = |x: (Seq<char>, u64, u64)| file_request(self.url@, x, range_start, range_end);
        let mut requests: Vec<HttpRangeRequest> = Vec::new();
        let mut i: usize = 0;
        while i < self.files.len()
            invariant
                0 <= i <= self.files@.len(),
                files == web_files_view(self.files@),
                files_fit(files),
                f == (|x: (Seq<char>, u64, u64)| file_request(self.url@, x, range_start, range_end)),
                requests_view(requests@) == files.take(i as int).filter_map(f),
            decreases self.files@.len() - i,
        {
            proof {
                files.lemma_filter_map_take_succ(f, i as int);
                assert(files[i as int] == file_view(self.files@[i as int]));
            }
            let file = &self.files[i];
            let file_end = file.offset + file.length - 1;
            let ghost before = requests@;
            if file.offset <= range_end && file_end >= range_start {
                let file_url = join_url(self.url.as_str(), file.path.as_str());
                let file_start = range_start.saturating_sub(file.offset);
                let a = file_end - file.offset;
                let b = range_end - file.offset;
                let file_end_in_range = if a <= b { a } else { b };
                requests.push(HttpRangeRequest {
                    url: file_url,
                    start: file_start,
                    end: file_end_in_range,
                    file_offset_in_range: file.offset.saturating_sub(range_start),
                });
                proof {
                    assert(requests_view(requests@) =~= requests_view(before) + seq![request_view(requests@.last())]);
                }
            } else {
                proof {
                    assert(requests_view(requests@) =~= requests_view(before));
                }
            }
            i = i + 1;
        }
        proof {
            assert(files.take(files.len() as int) =~= files);
        }
        if requests.len() == 0 {
            return Err(network_error("Could not find file corresponding to web seed range request"));
        }
        Ok(requests)
    }

    /// Marks the connection and its wire destroyed; destroying twice is
    /// harmless.
    pub fn destroy(&mut self) -> (r: Result<()>)
        ensures
            r is Ok,
            final(self).destroyed_view(),
            final(self).url_view() == old(self).url_view(),
    {
        if self.destroyed {
            return Ok(());
        }
        self.destroyed = true;
        self.wire.destroy()
    }
}

/// The `Range` header's value for bytes `start..=end`: `bytes=start-end`.
pub open spec fn range_header(start: u64, end: u64) -> Seq<char> {
    seq!['b', 'y', 't', 'e', 's', '='] + ascii_chars(nat_digits(start as nat)) + seq!['-'] + ascii_chars(nat_digits(end as nat))
}

/// The `Range` header's value for bytes `start..=end`.
pub fn range_header_value(start: u64, end: u64) -> (r: String)
    ensures
        r@ == range_header(start, end),
{
    let mut bytes: Vec<u8> = vec![98u8, 121u8, 116u8, 101u8, 115u8, 61u8];
    let a = u64_digits(start);
    let b = u64_digits(end);
    let ghost head = bytes@;
    let mut i: usize = 0;
    while i < a.len()
        invariant
            0 <= i <= a@.len(),
            bytes@ == head + a@.subrange(0, i as int),
        decreases a@.len() - i,
    {
        bytes.push(a[i]);
        proof {
            assert(bytes@ =~= head + a@.subrange(0, i + 1));
        }
        i = i + 1;
    }
    bytes.push(45u8);
    let ghost mid = bytes@;
    let mut j: usize = 0;
    while j < b.len()
        invariant
            0 <= j <= b@.len(),
            bytes@ == mid + b@.subrange(0, j as int),
        decreases b@.len() - j,
    {
        bytes.push(b[j]);
        proof {
            assert(bytes@ =~= mid + b@.subrange(0, j + 1));
        }
        j = j + 1;
    }
    proof {
        assert(a@.subrange(0, a@.len() as int) =~= a@);
        assert(b@.subrange(0, b@.len() as int) =~= b@);
        lemma_nat_digits(start as nat);
        lemma_nat_digits(end as nat);
        assert(bytes@ =~= seq![98u8, 121u8, 116u8, 101u8, 115u8, 61u8] + a@ + seq![45u8] + b@);
        assert forall|k: int| 0 <= k < bytes@.len() implies bytes@[k] < 128 by {
            if 6 <= k < 6 + a@.len() {
                assert(is_digit(a@[k - 6]));
            } else if 7 + a@.len() <= k {
                assert(is_digit(b@[k - 7 - a@.len()]));
            }
        }
    }
    let r = ascii_string(&bytes);
    proof {
        assert(ascii_chars(bytes@) =~= range_header(start, end));
    }
    r
}

/// Where a stable insertion by offset puts `x` into `s`: after the last
/// chunk whose offset is no larger.
pub open spec fn chunk_pos(s: Seq<(u64, Seq<u8>)>, x: (u64, Seq<u8>)) -> nat
    decreases s.len(),
{
    if s.len() == 0 {
        0
    } else if s.last().0 <= x.0 {
        s.len()
    } else {
        chunk_pos(s.drop_last(), x)
    }
}

/// The chunks stably sorted by offset: each inserted in turn after every
/// earlier chunk whose offset is no larger.
pub open spec fn sort_chunks(s: Seq<(u64, Seq<u8>)>) -> Seq<(u64, Seq<u8>)>
    decreases s.len(),
{
    if s.len() == 0 {
        Seq::empty()
    } else {
        let t = sort_chunks(s.drop_last());
        t.insert(chunk_pos(t, s.last()) as int, s.last())
    }
}

/// The bytes of the chunks one after another.
pub open spec fn concat_chunks(s: Seq<(u64, Seq<u8>)>) -> Seq<u8>
    decreases s.len(),
{
    if s.len() == 0 {
        Seq::empty()
    } else {
        concat_chunks(s.drop_last()) + s.last().1
    }
}

/// Chunks as plain values.
pub open spec fn chunks_view(s: Seq<(u64, Vec<u8>)>) -> Seq<(u64, Seq<u8>)> {
    Seq::new(s.len(), |i: int| (s[i].0, s[i].1@))
}

/// The block from the answers to its range requests: the chunks in the
/// order of their place in the block (ties in the order given), one after
/// another.
pub fn assemble_chunks(chunks: Vec<(u64, Vec<u8>)>) -> (r: Vec<u8>)
    ensures
        r@ == concat_chunks(sort_chunks(chunks_view(chunks@))),
{
    let ghost cv = chunks_view(chunks@);
    let n = chunks.len();
    let mut idx: Vec<usize> = Vec::new();
    let mut i: usize = 0;
    proof {
        assert(Seq::new(0, |k: int| cv[idx@[k] as int]) =~= sort_chunks(cv.subrange(0, 0)));
    }
    while i < n
        invariant
            0 <= i <= n,
            n == cv.len(),
            cv == chunks_view(chunks@),
            idx@.len() == i,
            forall|k: int| 0 <= k < idx@.len() ==> #[trigger] idx@[k] < i,
            Seq::new(idx@.len() as nat, |k: int| cv[idx@[k] as int]) == sort_chunks(cv.subrange(0, i as int)),
        decreases n - i,
    {
        let ghost sv = Seq::new(idx@.len() as nat, |k: int| cv[idx@[k] as int]);
        let ghost x = cv[i as int];
        let key = chunks[i].0;
        let mut k: usize = idx.len();
        proof {
            assert(sv.subrange(0, k as int) =~= sv);
            assert(cv.subrange(0, i + 1).drop_last() =~= cv.subrange(0, i as int));
            assert(cv.subrange(0, i + 1).last() == x);
        }
        while k > 0 && chunks[idx[k - 1]].0 > key
            invariant
                k <= idx@.len(),
                idx@.len() == i,
                i < n,
                n == cv.len(),
                cv == chunks_view(chunks@),
                x == cv[i as int],
                key == x.0,
                forall|t: int| 0 <= t < idx@.len() ==> #[trigger] idx@[t] < i,
                sv == Seq::new(idx@.len() as nat, |t: int| cv[idx@[t] as int]),
                chunk_pos(sv, x) == chunk_pos(sv.subrange(0, k as int), x),
            decreases k,
        {
            proof {
                assert(sv.subrange(0, k as int).drop_last() =~= sv.subrange(0, k - 1));
                assert(sv.subrange(0, k as int).last() == sv[k - 1]);
            }
            k = k - 1;
        }
        proof {
            if k > 0 {
                assert(sv.subrange(0, k as int).last() == sv[k - 1]);
            }
        }
        let ghost old_idx = idx@;
        idx.insert(k, i);
        proof {
            assert(Seq::new(idx@.len() as nat, |t: int| cv[idx@[t] as int]) =~= sv.insert(k as int, x));
        }
        i = i + 1;
    }
    proof {
        assert(cv.subrange(0, n as int) =~= cv);
    }
    let ghost sv = Seq::new(idx@.len() as nat, |k: int| cv[idx@[k] as int]);
    let mut out: Vec<u8> = Vec::new();
    let mut j: usize = 0;
    while j < idx.len()
        invariant
            0 <= j <= idx@.len(),
            idx@.len() == n,
            n == cv.len(),
            cv == chunks_view(chunks@),
            forall|k: int| 0 <= k < idx@.len() ==> #[trigger] idx@[k] < n,
            sv == Seq::new(idx@.len() as nat, |k: int| cv[idx@[k] as int]),
            out@ == concat_chunks(sv.subrange(0, j as int)),
        decreases idx@.len() - j,
    {
        let ghost before = out@;
        let piece = &chunks[idx[j]].1;
        let mut t: usize = 0;
        while t < piece.len()
            invariant
                0 <= t <= piece@.len(),
                out@ == before + piece@.subrange(0, t as int),
            decreases piece@.len() - t,
        {
            out.push(piece[t]);
            proof {
                assert(out@ =~= before + piece@.subrange(0, t + 1));
            }
            t = t + 1;
        }
        proof {
            assert(piece@.subrange(0, piece@.len() as int) =~= piece@);
            assert(sv.subrange(0, j + 1).drop_last() =~= sv.subrange(0, j as int));
            assert(sv[j as int].1 == piece@);
        }
        j = j + 1;
    }
    proof {
        assert(sv.subrange(0, sv.len() as int) =~= sv);
    }
    out
}


/// The URL of a file under a web seed is the base, then exactly one `/`,
/// then the file's path: the base is kept as it is, the path ends the URL,
/// the character before the path is `/`, and a `/` is added only when the
/// base does not already end in one.
pub proof fn file_url_one_slash(base: Seq<char>, path: Seq<char>)
    ensures
        file_url(base, path).subrange(0, base.len() as int) == base,
        file_url(base, path).subrange(file_url(base, path).len() - path.len(), file_url(base, path).len() as int) == path,
        file_url(base, path)[file_url(base, path).len() - path.len() - 1] == '/',
        base.len() > 0 && base[base.len() - 1] == '/' ==> file_url(base, path).len() == base.len() + path.len(),
        !(base.len() > 0 && base[base.len() - 1] == '/') ==> file_url(base, path).len() == base.len() + 1 + path.len(),
{
    let u = file_url(base, path);
    assert(u.subrange(0, base.len() as int) =~= base);
    assert(u.subrange(u.len() - path.len(), u.len() as int) =~= path);
}

} // verus!
