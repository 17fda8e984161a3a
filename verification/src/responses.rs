//! The texts that the file server answers with: errors, the CORS
//! preflight, the head of a file (whole or a range), and the page that
//! lists a torrent's files.

use crate::codecs::{hex_encode, hex_text};
use crate::decimal::{ascii_chars, ascii_to_chars, is_digit, lemma_nat_digits, nat_digits, u64_digits};
use crate::error::Result;
use crate::file::File;
use crate::server::{encode_text, extension_of, get_mime_type, html_escaped, mime_of, parse_range_header, range_of};
use crate::text::{str_chars, string_from_chars};
use crate::webrtc::push_text;
use vstd::prelude::*;
use vstd::utf8::encode_utf8;

verus! {

/// The decimal text of a number.
pub open spec fn digits(n: nat) -> Seq<char> {
    ascii_chars(nat_digits(n))
}

/// `out` followed by the decimal text of `n`.
pub(crate) fn push_number(out: &mut Vec<char>, n: u64)
    ensures
        final(out)@ == old(out)@ + digits(n as nat),
{
    let d = u64_digits(n);
    proof {
        lemma_nat_digits(n as nat);
        assert forall|i: int| 0 <= i < d@.len() implies d@[i] < 128 by {
            assert(is_digit(d@[i]));
        }
    }
    let c = ascii_to_chars(&d);
    let ghost start = out@;
    let mut i: usize = 0;
    while i < c.len()
        invariant
            0 <= i <= c@.len(),
            out@ == start + c@.subrange(0, i as int),
        decreases c@.len() - i,
    {
        out.push(c[i]);
        proof {
            assert(out@ =~= start + c@.subrange(0, i + 1));
        }
        i = i + 1;
    }
    proof {
        assert(c@.subrange(0, c@.len() as int) =~= c@);
    }
}

/// `out` followed by `s`.
fn push_chars(out: &mut Vec<char>, s: &Vec<char>)
    ensures
        final(out)@ == old(out)@ + s@,
{
    let ghost start = out@;
    let mut i: usize = 0;
    while i < s.len()
        invariant
            0 <= i <= s@.len(),
            out@ == start + s@.subrange(0, i as int),
        decreases s@.len() - i,
    {
        out.push(s[i]);
        proof {
            assert(out@ =~= start + s@.subrange(0, i + 1));
        }
        i = i + 1;
    }
    proof {
        assert(s@.subrange(0, s@.len() as int) =~= s@);
    }
}

/// An error answer: the status line, a plain-text body of `message`.
pub open spec fn error_text(status: u16, message: Seq<char>) -> Seq<char> {
    "HTTP/1.1 "@ + digits(status as nat) + " "@ + message + "\r\nContent-Type: text/plain\r\nContent-Length: "@
        + digits(encode_utf8(message).len()) + "\r\nAccess-Control-Allow-Origin: *\r\n\r\n"@ + message
}

/// An error answer with status `status_code` and the text `message`.
pub fn error_response(status_code: u16, message: &str) -> (r: String)
    ensures
        r@ == error_text(status_code, message@),
{
    let mut out: Vec<char> = Vec::new();
    push_text(&mut out, "HTTP/1.1 ");
    push_number(&mut out, status_code as u64);
    push_text(&mut out, " ");
    push_text(&mut out, message);
    push_text(&mut out, "\r\nContent-Type: text/plain\r\nContent-Length: ");
    push_number(&mut out, message.as_bytes().len() as u64);
    push_text(&mut out, "\r\nAccess-Control-Allow-Origin: *\r\n\r\n");
    push_text(&mut out, message);
    string_from_chars(out.as_slice())
}

/// The answer to a CORS preflight.
pub open spec fn preflight_text() -> Seq<char> {
    "HTTP/1.1 204 No Content\r\nAccess-Control-Allow-Origin: *\r\nAccess-Control-Allow-Methods: GET, HEAD, OPTIONS\r\nAccess-Control-Allow-Headers: Range\r\nAccess-Control-Max-Age: 86400\r\n\r\n"@
}

/// The answer to a CORS preflight.
pub fn cors_preflight_response() -> (r: String)
    ensures
        r@ == preflight_text(),
{
    let mut out: Vec<char> = Vec::new();
    push_text(
        &mut out,
        "HTTP/1.1 204 No Content\r\nAccess-Control-Allow-Origin: *\r\nAccess-Control-Allow-Methods: GET, HEAD, OPTIONS\r\nAccess-Control-Allow-Headers: Range\r\nAccess-Control-Max-Age: 86400\r\n\r\n",
    );
    string_from_chars(out.as_slice())
}

/// `s` with each `"` written `\"`.
pub open spec fn quote_escaped(s: Seq<char>) -> Seq<char>
    decreases s.len(),
{
    if s.len() == 0 {
        Seq::empty()
    } else {
        quote_escaped(s.drop_last()) + (if s.last() == '"' { seq!['\\', '"'] } else { seq![s.last()] })
    }
}

/// The head of a file's answer: `206` with the range served for a ranged
/// request, else `200`; the content type, the length, the file name, and
/// the CORS headers.
pub open spec fn file_head_text(name: Seq<char>, file_length: u64, start: u64, end: u64, partial: bool) -> Seq<char> {
    (if partial {
        "HTTP/1.1 206 Partial Content\r\nContent-Range: bytes "@ + digits(start as nat) + "-"@ + digits((end - 1) as nat) + "/"@
            + digits(file_length as nat) + "\r\n"@
    } else {
        "HTTP/1.1 200 OK\r\n"@
    }) + "Content-Type: "@ + mime_of(extension_of(name)) + "\r\nContent-Length: "@ + digits((end - start) as nat)
        + "\r\nAccept-Ranges: bytes\r\nContent-Disposition: inline; filename=\""@ + quote_escaped(name)
        + "\"\r\nAccess-Control-Allow-Origin: *\r\nAccess-Control-Allow-Methods: GET, HEAD, OPTIONS\r\nAccess-Control-Allow-Headers: Range\r\nAccess-Control-Expose-Headers: Content-Range, Accept-Ranges\r\n\r\n"@
}

/// How a file request is answered.
pub enum FileResponse {
    /// 416: the range does not fit the file.
    RangeNotSatisfiable,
    /// The head to send, then `length` bytes from byte `start` of the file
    /// (unless only the head was asked for).
    Serve { head: String, start: u64, length: u64 },
}

/// The bytes a request asks of a file: the range of its `Range` header,
/// or the whole file.
pub open spec fn asked_range(range: Option<Seq<char>>, file_length: u64) -> Option<(u64, u64)> {
    match range {
        None => Some((0, file_length)),
        Some(r) => range_of(r, file_length),
    }
}

/// `s` with each `"` written `\"`.
fn escape_quotes(s: &Vec<char>) -> (r: Vec<char>)
    ensures
        r@ == quote_escaped(s@),
{
    let mut out: Vec<char> = Vec::new();
    let mut i: usize = 0;
    while i < s.len()
        invariant
            0 <= i <= s@.len(),
            out@ == quote_escaped(s@.subrange(0, i as int)),
        decreases s@.len() - i,
    {
        proof {
            assert(s@.subrange(0, i + 1).drop_last() =~= s@.subrange(0, i as int));
        }
        let ghost before = out@;
        if s[i] == '"' {
            out.push('\\');
            out.push('"');
            proof {
                assert(out@ =~= before + seq!['\\', '"']);
            }
        } else {
            out.push(s[i]);
            proof {
                assert(out@ =~= before + seq![s@[i as int]]);
            }
        }
        i = i + 1;
    }
    proof {
        assert(s@.subrange(0, s@.len() as int) =~= s@);
    }
    out
}

/// How a request for a file named `file_name` of `file_length` bytes is
/// answered, given its `Range` header: a range that does not read fails
/// as an invalid-torrent error; one that starts at or past the end, ends
/// past it or ends before it starts is answered 416; else the head and the
/// bytes to send.
pub fn file_response(file_name: &str, file_length: u64, range: Option<&str>) -> (r: Result<FileResponse>)
    ensures
        ({
            let asked = asked_range(
                match range {
                    Some(t) => Some(t@),
                    None => None,
                },
                file_length,
            );
            match asked {
                None => r matches Err(e) && e is InvalidTorrent,
                Some((s, e)) => if s >= file_length || e > file_length || s > e {
                    r matches Ok(FileResponse::RangeNotSatisfiable)
                } else {
                    r matches Ok(FileResponse::Serve { head, start, length }) && start == s && length == e - s
                        && head@ == file_head_text(file_name@, file_length, s, e, range is Some)
                },
            }
        }),
{
    let (start, end) = match range {
        Some(t) => match parse_range_header(t, file_length) {
            Ok(p) => p,
            Err(e) => {
                return Err(e);
            },
        },
        None => (0, file_length),
    };
    if start >= file_length || end > file_length || start > end {
        return Ok(FileResponse::RangeNotSatisfiable);
    }
    let content_length = end - start;
    let mut out: Vec<char> = Vec::new();
    if range.is_some() {
        push_text(&mut out, "HTTP/1.1 206 Partial Content\r\nContent-Range: bytes ");
        push_number(&mut out, start);
        push_text(&mut out, "-");
        push_number(&mut out, end - 1);
        push_text(&mut out, "/");
        push_number(&mut out, file_length);
        push_text(&mut out, "\r\n");
    } else {
        push_text(&mut out, "HTTP/1.1 200 OK\r\n");
    }
    push_text(&mut out, "Content-Type: ");
    let content_type = get_mime_type(file_name);
    push_text(&mut out, content_type.as_str());
    push_text(&mut out, "\r\nContent-Length: ");
    push_number(&mut out, content_length);
    push_text(&mut out, "\r\nAccept-Ranges: bytes\r\nContent-Disposition: inline; filename=\"");
    let escaped = escape_quotes(&str_chars(file_name));
    push_chars(&mut out, &escaped);
    push_text(
        &mut out,
        "\"\r\nAccess-Control-Allow-Origin: *\r\nAccess-Control-Allow-Methods: GET, HEAD, OPTIONS\r\nAccess-Control-Allow-Headers: Range\r\nAccess-Control-Expose-Headers: Content-Range, Accept-Ranges\r\n\r\n",
    );
    proof {
        assert(out@ =~= file_head_text(file_name@, file_length, start, end, range is Some));
    }
    Ok(FileResponse::Serve { head: string_from_chars(out.as_slice()), start, length: content_length })
}

/// The list items of a torrent's files: a link to each file by its index
/// under the info hash `hex`, its escaped path and its length.
pub open spec fn file_items(hex: Seq<char>, files: Seq<(Seq<char>, u64)>) -> Seq<char>
    decreases files.len(),
{
    if files.len() == 0 {
        Seq::empty()
    } else {
        file_items(hex, files.drop_last()) + "<li><a href=\"/"@ + hex + "/"@ + digits((files.len() - 1) as nat) + "\">"@
            + html_escaped(files.last().0) + "</a> ("@ + digits(files.last().1 as nat) + ")</li>"@
    }
}

/// The page that lists a torrent's files.
pub open spec fn info_page(name: Seq<char>, hex: Seq<char>, files: Seq<(Seq<char>, u64)>) -> Seq<char> {
    "<!DOCTYPE html><html><head><title>"@ + html_escaped(name) + "</title></head><body><h1>"@ + html_escaped(name)
        + "</h1><ul>"@ + file_items(hex, files) + "</ul></body></html>"@
}

/// The head of the page's answer, for a page of `len` bytes.
pub open spec fn info_head(len: nat) -> Seq<char> {
    "HTTP/1.1 200 OK\r\nContent-Type: text/html; charset=utf-8\r\nContent-Length: "@ + digits(len)
        + "\r\nAccess-Control-Allow-Origin: *\r\nAccess-Control-Allow-Methods: GET, HEAD, OPTIONS\r\n\r\n"@
}

/// Paths and lengths of files.
pub open spec fn paths_and_lengths(files: Seq<File>) -> Seq<(Seq<char>, u64)> {
    Seq::new(files.len(), |i: int| (files[i].path_view(), files[i].length_view()))
}

/// The head and the page that list a torrent's files.
pub fn torrent_info_page(name: &str, info_hash: [u8; 20], files: &[File]) -> (r: (String, String))
    requires
        files@.len() <= u64::MAX,
    ensures
        ({
            let page = info_page(name@, hex_text(info_hash@), paths_and_lengths(files@));
            &&& r.1@ == page
            &&& r.0@ == info_head(encode_utf8(page).len())
        }),
{
    let hex = hex_encode(&info_hash);
    let escaped_name = encode_text(name);
    let mut page: Vec<char> = Vec::new();
    push_text(&mut page, "<!DOCTYPE html><html><head><title>");
    push_text(&mut page, escaped_name.as_str());
    push_text(&mut page, "</title></head><body><h1>");
    push_text(&mut page, escaped_name.as_str());
    push_text(&mut page, "</h1><ul>");
    let ghost head_part = page@;
    let ghost fs = paths_and_lengths(files@);
    let mut i: usize = 0;
    while i < files.len()
        invariant
            0 <= i <= files@.len(),
            files@.len() <= u64::MAX,
            fs == paths_and_lengths(files@),
            page@ == head_part + file_items(hex@, fs.subrange(0, i as int)),
        decreases files@.len() - i,
    {
        proof {
            assert(fs.subrange(0, i + 1).drop_last() =~= fs.subrange(0, i as int));
            assert(fs.subrange(0, i + 1).last() == (files@[i as int].path_view(), files@[i as int].length_view()));
        }
        let f = &files[i];
        push_text(&mut page, "<li><a href=\"/");
        push_text(&mut page, hex.as_str());
        push_text(&mut page, "/");
        push_number(&mut page, i as u64);
        push_text(&mut page, "\">");
        let escaped_path = encode_text(f.path());
        push_text(&mut page, escaped_path.as_str());
        push_text(&mut page, "</a> (");
        push_number(&mut page, f.length());
        push_text(&mut page, ")</li>");
        proof {
            assert(page@ =~= head_part + file_items(hex@, fs.subrange(0, i + 1)));
        }
        i = i + 1;
    }
    push_text(&mut page, "</ul></body></html>");
    proof {
        assert(fs.subrange(0, files@.len() as int) =~= fs);
        assert(page@ =~= info_page(name@, hex_text(info_hash@), fs));
    }
    let html = string_from_chars(page.as_slice());
    let mut head: Vec<char> = Vec::new();
    push_text(&mut head, "HTTP/1.1 200 OK\r\nContent-Type: text/html; charset=utf-8\r\nContent-Length: ");
    push_number(&mut head, html.as_str().as_bytes().len() as u64);
    push_text(&mut head, "\r\nAccess-Control-Allow-Origin: *\r\nAccess-Control-Allow-Methods: GET, HEAD, OPTIONS\r\n\r\n");
    proof {
        assert(head@ =~= info_head(encode_utf8(page@).len()));
    }
    (string_from_chars(head.as_slice()), html)
}

/// `a - b`, or zero when `b` is larger.
pub open spec fn sub_or_zero(a: int, b: int) -> int {
    if a >= b {
        a - b
    } else {
        0
    }
}

/// The read from piece `pi` for the bytes `rs..re` of a file at offset
/// `fo` of `fl` bytes: where the piece begins and ends within the file,
/// the part of the range that falls in it, as a place and a length; none
/// when that part is empty.
pub open spec fn piece_read(fo: u64, fl: u64, pl: u64, rs: u64, re: u64, pi: int) -> Option<(usize, usize, usize)> {
    let start_in_file = sub_or_zero(pi * pl, fo as int);
    let end_in_file = if sub_or_zero((pi + 1) * pl, fo as int) <= fl { sub_or_zero((pi + 1) * pl, fo as int) } else { fl as int };
    let a = (if rs >= start_in_file { rs as int } else { start_in_file }) - start_in_file;
    let b = (if re <= end_in_file { re as int } else { end_in_file }) - start_in_file;
    if a < b {
        Some((pi as usize, a as usize, (b - a) as usize))
    } else {
        None
    }
}

/// The reads from pieces `first..first + count`, in order.
pub open spec fn piece_reads(fo: u64, fl: u64, pl: u64, rs: u64, re: u64, first: int, count: nat) -> Seq<(usize, usize, usize)>
    decreases count,
{
    if count == 0 {
        Seq::empty()
    } else {
        let before = piece_reads(fo, fl, pl, rs, re, first, (count - 1) as nat);
        match piece_read(fo, fl, pl, rs, re, first + count - 1) {
            Some(x) => before.push(x),
            None => before,
        }
    }
}

/// A quotient times its divisor is no more than the dividend, and one
/// more divisor is more.
proof fn lemma_div_bounds(x: int, d: int)
    requires
        x >= 0,
        d > 0,
    ensures
        (x / d) * d <= x,
        x < (x / d + 1) * d,
{
    vstd::arithmetic::div_mod::lemma_fundamental_div_mod(x, d);
    assert((x / d + 1) * d == (x / d) * d + d) by (nonlinear_arith);
    assert(x == d * (x / d) + x % d);
    assert(d * (x / d) == (x / d) * d) by (nonlinear_arith);
}

/// Dividing a number one larger gives at most one more.
proof fn lemma_div_step(x: int, d: int)
    requires
        x >= 1,
        d > 0,
    ensures
        x / d <= (x - 1) / d + 1,
{
    vstd::arithmetic::div_mod::lemma_fundamental_div_mod(x, d);
    vstd::arithmetic::div_mod::lemma_fundamental_div_mod(x - 1, d);
    let q1 = x / d;
    let q0 = (x - 1) / d;
    let r1 = x % d;
    let r0 = (x - 1) % d;
    assert(q1 <= q0 + 1) by (nonlinear_arith)
        requires
            x == d * q1 + r1,
            x - 1 == d * q0 + r0,
            0 <= r1 < d,
            0 <= r0 < d,
            d > 0,
    ;
}

/// A smaller factor gives a smaller product.
proof fn lemma_mul_le(a: int, b: int, d: int)
    requires
        0 <= a <= b,
        d > 0,
    ensures
        a * d <= b * d,
{
    assert(a * d <= b * d) by (nonlinear_arith)
        requires
            0 <= a <= b,
            d > 0,
    ;
}

/// The reads that serve `length` bytes from byte `start` of a file at
/// offset `file_offset` of `file_length` bytes: one per piece from the
/// piece of the first byte to the piece of the last, each the part of the
/// range within the piece.
pub fn file_reads(file_offset: u64, file_length: u64, piece_length: u64, start: u64, length: u64) -> (r: Vec<(usize, usize, usize)>)
    requires
        piece_length > 0,
        start + length <= file_length,
        file_offset + file_length + piece_length <= u64::MAX,
        file_offset + start + length >= 1,
    ensures
        ({
            let re = (start + length) as u64;
            let first = (file_offset + start) / (piece_length as int);
            let last = (file_offset + re - 1) / (piece_length as int);
            r@ == piece_reads(file_offset, file_length, piece_length, start, re, first, (last - first + 1) as nat)
        }),
{
    let range_end: u64 = start + length;
    let first: u64 = (file_offset + start) / piece_length;
    let last: u64 = (file_offset + range_end - 1) / piece_length;
    proof {
        lemma_div_bounds((file_offset + range_end - 1) as int, piece_length as int);
        lemma_div_bounds((file_offset + start) as int, piece_length as int);
        vstd::arithmetic::div_mod::lemma_div_is_ordered((file_offset + start) as int, (file_offset + range_end) as int, piece_length as int);
        lemma_div_step((file_offset + range_end) as int, piece_length as int);
    }
    let mut out: Vec<(usize, usize, usize)> = Vec::new();
    let mut pi: u64 = first;
    while pi <= last
        invariant
            first <= pi <= last + 1,
            piece_length > 0,
            range_end == start + length,
            range_end <= file_length,
            file_offset + file_length + piece_length <= u64::MAX,
            file_offset + range_end >= 1,
            last == (file_offset + range_end - 1) / (piece_length as int),
            (last as int) * (piece_length as int) <= file_offset + range_end - 1,
            out@ == piece_reads(file_offset, file_length, piece_length, start, range_end, first as int, (pi - first) as nat),
        decreases last + 1 - pi,
    {
        proof {
            lemma_mul_le(pi as int, last as int, piece_length as int);
            assert((pi as int + 1) * (piece_length as int) == pi * piece_length + piece_length) by (nonlinear_arith);
        }
        let piece_start = pi * piece_length;
        let piece_next = piece_start + piece_length;
        let start_in_file: u64 = if piece_start >= file_offset { piece_start - file_offset } else { 0 };
        let next_in_file: u64 = if piece_next >= file_offset { piece_next - file_offset } else { 0 };
        let end_in_file: u64 = if next_in_file <= file_length { next_in_file } else { file_length };
        let lo: u64 = if start >= start_in_file { start } else { start_in_file };
        let hi: u64 = if range_end <= end_in_file { range_end } else { end_in_file };
        proof {
            assert(start_in_file <= range_end);
            assert(start_in_file <= end_in_file);
        }
        let a = lo - start_in_file;
        let b = hi - start_in_file;
        if a < b {
            out.push((pi as usize, a as usize, (b - a) as usize));
        }
        pi = pi + 1;
    }
    out
}

} // verus!
