//! The HTTP requests that the file server answers: the request line, the
//! `Range` header, and the route `/<info hash>[/<file index>]`.

use crate::blocklist::{chars_range, is_space, trim, trim_chars};
use crate::codecs::{hex_decode, hex_decoded};
use crate::decimal::{chars_as_ascii, chars_to_ascii, parse_unsigned, parse_unsigned_range};
use crate::magnet::{split_chars, split_on, texts};
use crate::text::{str_chars, string_from_chars, string_from_utf8_lossy, utf8_lossy};
use vstd::prelude::*;
use vstd::utf8::encode_utf8;

verus! {

/// `l` without one trailing carriage return.
pub open spec fn strip_cr(l: Seq<char>) -> Seq<char> {
    if l.len() > 0 && l.last() == '\r' {
        l.drop_last()
    } else {
        l
    }
}

/// The lines of a text as `str::lines` gives them: split at `\n`, a `\r`
/// before the `\n` dropped, and no empty line after a final `\n`.
pub open spec fn text_lines(s: Seq<char>) -> Seq<Seq<char>> {
    let parts = split_on(s, '\n');
    let ended = parts.subrange(0, parts.len() - 1).map_values(|l: Seq<char>| strip_cr(l));
    if parts.last().len() == 0 {
        ended
    } else {
        ended.push(parts.last())
    }
}

/// `s` split at each white-space character.
pub open spec fn split_spaces(s: Seq<char>) -> Seq<Seq<char>>
    decreases s.len(),
{
    if s.len() == 0 {
        seq![Seq::empty()]
    } else {
        let parts = split_spaces(s.drop_last());
        if is_space(s.last()) {
            parts.push(Seq::empty())
        } else {
            parts.update(parts.len() - 1, parts.last().push(s.last()))
        }
    }
}

/// The words of a text as `str::split_whitespace` gives them.
pub open spec fn words(s: Seq<char>) -> Seq<Seq<char>> {
    split_spaces(s).filter(|w: Seq<char>| w.len() > 0)
}

/// The text `range:`.
pub open spec fn range_name() -> Seq<char> {
    seq!['r', 'a', 'n', 'g', 'e', ':']
}

/// Whether `c` is `n` or, for an ASCII capital, its small letter is `n`.
pub open spec fn folds_to(c: char, n: char) -> bool {
    c == n || ('A' <= c <= 'Z' && (c as u32) + 32 == (n as u32))
}

/// Whether a header line is a `Range` header, the name in any case.
pub open spec fn is_range_line(l: Seq<char>) -> bool {
    l.len() >= 6 && forall|i: int| 0 <= i < 6 ==> folds_to(#[trigger] l[i], range_name()[i])
}

/// The value of the last `Range` header among the header lines `ls` (up
/// to the first empty line), given the value `acc` of those before.
pub open spec fn range_in(ls: Seq<Seq<char>>, acc: Option<Seq<char>>) -> Option<Seq<char>>
    decreases ls.len(),
{
    if ls.len() == 0 || ls[0].len() == 0 {
        acc
    } else {
        range_in(ls.drop_first(), if is_range_line(ls[0]) { Some(trim(ls[0].subrange(6, ls[0].len() as int))) } else { acc })
    }
}

/// `s` without its leading slashes.
pub open spec fn drop_slashes(s: Seq<char>) -> Seq<char>
    decreases s.len(),
{
    if s.len() > 0 && s[0] == '/' {
        drop_slashes(s.drop_first())
    } else {
        s
    }
}

/// What a request asks for, as plain values.
pub enum RouteView {
    Ignore,
    BadRequest,
    Preflight,
    MethodNotAllowed,
    NotFound,
    InvalidInfoHash,
    BadInfoHashLength,
    Torrent(Seq<u8>, Option<Seq<char>>, bool, Option<Seq<char>>),
}

/// What the text of a request asks for: nothing without a line; a bad
/// request without a method and a path; the CORS preflight for `OPTIONS`;
/// a refused method but for `GET` and `HEAD`; not found without an info
/// hash; an info hash that is no hexadecimal text or not twenty bytes;
/// else the torrent, the file part of the path if any, whether only the
/// head is wanted, and the `Range` header.
pub open spec fn route_of(s: Seq<char>) -> RouteView {
    let ls = text_lines(s);
    if ls.len() == 0 {
        RouteView::Ignore
    } else {
        let ws = words(ls[0]);
        if ws.len() < 2 {
            RouteView::BadRequest
        } else if ws[0] == seq!['O', 'P', 'T', 'I', 'O', 'N', 'S'] {
            RouteView::Preflight
        } else if ws[0] != seq!['G', 'E', 'T'] && ws[0] != seq!['H', 'E', 'A', 'D'] {
            RouteView::MethodNotAllowed
        } else {
            let pp = split_on(drop_slashes(ws[1]), '/');
            if pp[0].len() == 0 {
                RouteView::NotFound
            } else {
                match hex_decoded(encode_utf8(pp[0])) {
                    None => RouteView::InvalidInfoHash,
                    Some(b) => if b.len() != 20 {
                        RouteView::BadInfoHashLength
                    } else {
                        RouteView::Torrent(
                            b,
                            if pp.len() > 1 { Some(pp[1]) } else { None },
                            ws[0] == seq!['H', 'E', 'A', 'D'],
                            range_in(ls.drop_first(), None),
                        )
                    },
                }
            }
        }
    }
}

/// What a request asks for.
pub enum HttpRoute {
    /// Nothing was read: the connection is closed.
    Ignore,
    /// 400: no method and path.
    BadRequest,
    /// The answer to a CORS preflight.
    Preflight,
    /// 405: neither `GET` nor `HEAD`.
    MethodNotAllowed,
    /// 404: no info hash in the path.
    NotFound,
    /// The info hash is no hexadecimal text: an invalid-info-hash error.
    InvalidInfoHash,
    /// 400: the info hash is not twenty bytes.
    BadInfoHashLength,
    /// A torrent, the file part of the path, whether only the head is
    /// wanted, and the `Range` header.
    Torrent { info_hash: [u8; 20], file_part: Option<String>, head: bool, range: Option<String> },
}

/// An optional string as plain value.
pub open spec fn opt_text(o: Option<String>) -> Option<Seq<char>> {
    match o {
        Some(s) => Some(s@),
        None => None,
    }
}

/// A route as plain values.
pub open spec fn route_view(r: HttpRoute) -> RouteView {
    match r {
        HttpRoute::Ignore => RouteView::Ignore,
        HttpRoute::BadRequest => RouteView::BadRequest,
        HttpRoute::Preflight => RouteView::Preflight,
        HttpRoute::MethodNotAllowed => RouteView::MethodNotAllowed,
        HttpRoute::NotFound => RouteView::NotFound,
        HttpRoute::InvalidInfoHash => RouteView::InvalidInfoHash,
        HttpRoute::BadInfoHashLength => RouteView::BadInfoHashLength,
        HttpRoute::Torrent { info_hash, file_part, head, range } => RouteView::Torrent(info_hash@, opt_text(file_part), head, opt_text(range)),
    }
}

/// The lines of a text.
fn lines_of(s: &Vec<char>) -> (r: Vec<Vec<char>>)
    ensures
        r@.len() == text_lines(s@).len(),
        forall|i: int| 0 <= i < r@.len() ==> #[trigger] r@[i]@ == text_lines(s@)[i],
{
    let parts = split_chars(s, '\n');
    let ghost ps = split_on(s@, '\n');
    proof {
        crate::magnet::lemma_split_nonempty(s@, '\n');
        assert(texts(parts@) == ps);
    }
    let n = parts.len();
    let mut out: Vec<Vec<char>> = Vec::new();
    let mut i: usize = 0;
    while i + 1 < n
        invariant
            0 <= i < n,
            n == parts@.len(),
            texts(parts@) == ps,
            out@.len() == i,
            forall|j: int| 0 <= j < i ==> #[trigger] out@[j]@ == strip_cr(ps[j]),
        decreases n - i,
    {
        let mut l = str_chars(parts[i].as_str());
        proof {
            assert(texts(parts@)[i as int] == parts@[i as int]@);
        }
        if l.len() > 0 && l[l.len() - 1] == '\r' {
            l.pop();
        }
        out.push(l);
        i = i + 1;
    }
    let last = str_chars(parts[n - 1].as_str());
    proof {
        assert(texts(parts@)[n - 1] == parts@[n - 1]@);
    }
    if last.len() > 0 {
        out.push(last);
    }
    proof {
        let ended = ps.subrange(0, ps.len() - 1).map_values(|l: Seq<char>| strip_cr(l));
        assert forall|j: int| 0 <= j < out@.len() implies #[trigger] out@[j]@ == text_lines(s@)[j] by {
            if j < n - 1 {
                assert(ended[j] == strip_cr(ps[j]));
            }
        }
    }
    out
}

/// The text split at each white-space character.
fn split_at_spaces(s: &Vec<char>) -> (r: Vec<Vec<char>>)
    ensures
        r@.len() == split_spaces(s@).len(),
        forall|i: int| 0 <= i < r@.len() ==> #[trigger] r@[i]@ == split_spaces(s@)[i],
{
    let mut parts: Vec<Vec<char>> = Vec::new();
    parts.push(Vec::new());
    let mut i: usize = 0;
    proof {
        assert(s@.subrange(0, 0) =~= Seq::<char>::empty());
    }
    while i < s.len()
        invariant
            0 <= i <= s@.len(),
            parts@.len() >= 1,
            parts@.len() == split_spaces(s@.subrange(0, i as int)).len(),
            forall|j: int| 0 <= j < parts@.len() ==> #[trigger] parts@[j]@ == split_spaces(s@.subrange(0, i as int))[j],
        decreases s@.len() - i,
    {
        let ghost pre = split_spaces(s@.subrange(0, i as int));
        proof {
            assert(s@.subrange(0, i + 1).drop_last() =~= s@.subrange(0, i as int));
        }
        if char_space(s[i]) {
            parts.push(Vec::new());
            proof {
                assert forall|j: int| 0 <= j < parts@.len() implies #[trigger] parts@[j]@ == split_spaces(s@.subrange(0, i + 1))[j] by {
                    if j < parts@.len() - 1 {
                        assert(parts@[j]@ == pre[j]);
                    } else {
                        assert(parts@[j]@ =~= Seq::<char>::empty());
                    }
                }
            }
        } else {
            let last = parts.len() - 1;
            let mut cur = parts.pop().unwrap();
            cur.push(s[i]);
            parts.push(cur);
            proof {
                assert forall|j: int| 0 <= j < parts@.len() implies #[trigger] parts@[j]@ == split_spaces(s@.subrange(0, i + 1))[j] by {
                    if j < last {
                        assert(parts@[j]@ == pre[j]);
                    }
                }
            }
        }
        i = i + 1;
    }
    proof {
        assert(s@.subrange(0, s@.len() as int) =~= s@);
    }
    parts
}

/// Whether `c` is white space.
fn char_space(c: char) -> (r: bool)
    ensures
        r == is_space(c),
{
    let u: u32 = c as u32;
    (9 <= u && u <= 13) || u == 32 || u == 0x85 || u == 0xa0 || u == 0x1680 || (0x2000 <= u && u <= 0x200a)
        || u == 0x2028 || u == 0x2029 || u == 0x202f || u == 0x205f || u == 0x3000
}

/// The views of character vectors.
pub open spec fn char_texts(s: Seq<Vec<char>>) -> Seq<Seq<char>> {
    Seq::new(s.len(), |i: int| s[i]@)
}

/// The words of a text.
fn words_of(s: &Vec<char>) -> (r: Vec<Vec<char>>)
    ensures
        char_texts(r@) == words(s@),
{
    let parts = split_at_spaces(s);
    let ghost ps = split_spaces(s@);
    proof {
        assert(char_texts(parts@) =~= ps);
    }
    let mut out: Vec<Vec<char>> = Vec::new();
    let mut i: usize = 0;
    while i < parts.len()
        invariant
            0 <= i <= parts@.len(),
            char_texts(parts@) == ps,
            char_texts(out@) == ps.subrange(0, i as int).filter(|w: Seq<char>| w.len() > 0),
        decreases parts@.len() - i,
    {
        proof {
            reveal(Seq::filter);
            assert(ps.subrange(0, i + 1).drop_last() =~= ps.subrange(0, i as int));
            assert(char_texts(parts@)[i as int] == parts@[i as int]@);
        }
        let ghost before = out@;
        if parts[i].len() > 0 {
            out.push(parts[i].clone());
            proof {
                assert(char_texts(out@) =~= char_texts(before).push(ps[i as int]));
            }
        }
        i = i + 1;
    }
    proof {
        assert(ps.subrange(0, ps.len() as int) =~= ps);
    }
    out
}

/// Whether two character vectors hold the same characters.
fn chars_equal(a: &Vec<char>, b: &Vec<char>) -> (r: bool)
    ensures
        r == (a@ == b@),
{
    if a.len() != b.len() {
        return false;
    }
    let mut i: usize = 0;
    while i < a.len()
        invariant
            0 <= i <= a@.len(),
            a@.len() == b@.len(),
            forall|j: int| 0 <= j < i ==> a@[j] == b@[j],
        decreases a@.len() - i,
    {
        if a[i] != b[i] {
            proof {
                assert(a@[i as int] != b@[i as int]);
            }
            return false;
        }
        i = i + 1;
    }
    proof {
        assert(a@ =~= b@);
    }
    true
}

/// Whether a line is a `Range` header.
fn range_line(l: &Vec<char>) -> (r: bool)
    ensures
        r == is_range_line(l@),
{
    if l.len() < 6 {
        return false;
    }
    let name: Vec<char> = vec!['r', 'a', 'n', 'g', 'e', ':'];
    proof {
        assert(name@ =~= range_name());
    }
    let mut i: usize = 0;
    while i < 6
        invariant
            0 <= i <= 6,
            l@.len() >= 6,
            name@ == range_name(),
            forall|j: int| 0 <= j < i ==> folds_to(#[trigger] l@[j], range_name()[j]),
        decreases 6 - i,
    {
        let c = l[i];
        let n = name[i];
        let cu = c as u32;
        let nu = n as u32;
        let same = c == n || ('A' <= c && c <= 'Z' && cu + 32 == nu);
        if !same {
            return false;
        }
        i = i + 1;
    }
    true
}

/// The value of the last `Range` header among lines `1..` up to the
/// first empty line.
fn find_range(lines: &Vec<Vec<char>>) -> (r: Option<Vec<char>>)
    requires
        lines@.len() >= 1,
    ensures
        match range_in(char_texts(lines@).drop_first(), None) {
            Some(v) => r matches Some(x) && x@ == v,
            None => r is None,
        },
{
    let ghost ls = char_texts(lines@);
    let mut acc: Option<Vec<char>> = None;
    let mut i: usize = 1;
    proof {
        assert(ls.subrange(1, ls.len() as int) =~= ls.drop_first());
    }
    while i < lines.len()
        invariant
            1 <= i <= lines@.len(),
            ls == char_texts(lines@),
            range_in(ls.subrange(i as int, ls.len() as int), match acc {
                Some(x) => Some(x@),
                None => None,
            }) == range_in(ls.drop_first(), None),
        decreases lines@.len() - i,
    {
        let ghost rest = ls.subrange(i as int, ls.len() as int);
        proof {
            assert(rest[0] == lines@[i as int]@);
            assert(rest.drop_first() =~= ls.subrange(i + 1, ls.len() as int));
        }
        let l = &lines[i];
        if l.len() == 0 {
            return acc;
        }
        if range_line(l) {
            let value = chars_range(l, 6, l.len());
            acc = Some(trim_chars(&value));
        }
        i = i + 1;
    }
    proof {
        assert(ls.subrange(i as int, ls.len() as int).len() == 0);
    }
    acc
}

/// `s` without its leading slashes.
fn strip_slashes(s: &Vec<char>) -> (r: Vec<char>)
    ensures
        r@ == drop_slashes(s@),
{
    let n = s.len();
    let mut a: usize = 0;
    proof {
        assert(s@.subrange(0, n as int) =~= s@);
    }
    while a < n && s[a] == '/'
        invariant
            0 <= a <= n,
            n == s@.len(),
            drop_slashes(s@.subrange(a as int, n as int)) == drop_slashes(s@),
        decreases n - a,
    {
        proof {
            assert(s@.subrange(a as int, n as int).drop_first() =~= s@.subrange(a + 1, n as int));
        }
        a = a + 1;
    }
    chars_range(s, a, n)
}

/// The text of the method `m`.
fn is_word(w: &Vec<char>, m: &Vec<char>) -> (r: bool)
    ensures
        r == (w@ == m@),
{
    chars_equal(w, m)
}

/// What a request asks for, from the bytes read.
pub fn parse_http_request(data: &[u8]) -> (r: HttpRoute)
    ensures
        data@.len() == 0 ==> route_view(r) == RouteView::Ignore,
        data@.len() > 0 ==> route_view(r) == route_of(utf8_lossy(data@)),
{
    if data.len() == 0 {
        return HttpRoute::Ignore;
    }
    let request = string_from_utf8_lossy(data);
    let chars = str_chars(request.as_str());
    let ghost s = chars@;
    let lines = lines_of(&chars);
    proof {
        assert(char_texts(lines@) =~= text_lines(s));
    }
    if lines.len() == 0 {
        return HttpRoute::Ignore;
    }
    let ws = words_of(&lines[0]);
    proof {
        assert(char_texts(lines@)[0] == lines@[0]@);
    }
    if ws.len() < 2 {
        return HttpRoute::BadRequest;
    }
    proof {
        assert(char_texts(ws@)[0] == ws@[0]@);
        assert(char_texts(ws@)[1] == ws@[1]@);
    }
    let options: Vec<char> = vec!['O', 'P', 'T', 'I', 'O', 'N', 'S'];
    let get: Vec<char> = vec!['G', 'E', 'T'];
    let head: Vec<char> = vec!['H', 'E', 'A', 'D'];
    proof {
        assert(options@ =~= seq!['O', 'P', 'T', 'I', 'O', 'N', 'S']);
        assert(get@ =~= seq!['G', 'E', 'T']);
        assert(head@ =~= seq!['H', 'E', 'A', 'D']);
    }
    if is_word(&ws[0], &options) {
        return HttpRoute::Preflight;
    }
    let range = find_range(&lines);
    let is_get = is_word(&ws[0], &get);
    let is_head = is_word(&ws[0], &head);
    if !is_get && !is_head {
        return HttpRoute::MethodNotAllowed;
    }
    let path = strip_slashes(&ws[1]);
    let parts = split_chars(&path, '/');
    proof {
        crate::magnet::lemma_split_nonempty(path@, '/');
        assert(texts(parts@)[0] == parts@[0]@);
    }
    if parts[0].as_str().unicode_len() == 0 {
        return HttpRoute::NotFound;
    }
    let bytes = match hex_decode(parts[0].as_str()) {
        Some(b) => b,
        None => {
            return HttpRoute::InvalidInfoHash;
        },
    };
    if bytes.len() != 20 {
        return HttpRoute::BadInfoHashLength;
    }
    let mut hash: [u8; 20] = [0u8; 20];
    let mut j: usize = 0;
    while j < 20
        invariant
            0 <= j <= 20,
            bytes@.len() == 20,
            forall|t: int| 0 <= t < j ==> hash@[t] == bytes@[t],
        decreases 20 - j,
    {
        hash[j] = bytes[j];
        j = j + 1;
    }
    proof {
        assert(hash@ =~= bytes@);
    }
    let file_part = if parts.len() > 1 {
        proof {
            assert(texts(parts@)[1] == parts@[1]@);
        }
        Some(parts[1].clone())
    } else {
        None
    };
    let range_text = match range {
        Some(v) => Some(string_from_chars(v.as_slice())),
        None => None,
    };
    HttpRoute::Torrent { info_hash: hash, file_part, head: is_head, range: range_text }
}

/// Which file a path's file part names.
#[derive(Debug, Clone, Copy, PartialEq, Eq, Structural)]
pub enum FileTarget {
    /// The part is no number: an invalid-torrent error.
    Invalid,
    /// 404: no such file.
    NotFound,
    /// The file at this index.
    Index(usize),
}

/// Which file the part `part` of a path names among `n_files` files.
pub fn file_target(part: &str, n_files: usize) -> (r: FileTarget)
    ensures
        match parse_unsigned(chars_as_ascii(part@), usize::MAX as nat) {
            None => r == FileTarget::Invalid,
            Some(i) => if i >= n_files { r == FileTarget::NotFound } else { r == FileTarget::Index(i as usize) },
        },
{
    let digits = chars_to_ascii(&str_chars(part));
    proof {
        assert(digits@.subrange(0, digits@.len() as int) =~= digits@);
    }
    match parse_unsigned_range(digits.as_slice(), 0, digits.len(), usize::MAX as u64) {
        None => FileTarget::Invalid,
        Some(i) => if i >= n_files as u64 {
            FileTarget::NotFound
        } else {
            FileTarget::Index(i as usize)
        },
    }
}

} // verus!
