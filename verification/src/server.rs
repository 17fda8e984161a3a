//! The HTTP server's text handling: HTML escaping, content types by file
//! extension, and `Range` headers.

use crate::decimal::{chars_as_ascii, chars_to_ascii, parse_unsigned, parse_unsigned_range};
use crate::error::{invalid_torrent, Result};
use crate::magnet::split_on;
use crate::text::{str_chars, string_from_chars};
use vstd::prelude::*;

verus! {

/// The HTML text of a character: `&`, `<`, `>`, `"` and `'` as entities,
/// any other character as itself.
pub open spec fn escape_char(c: char) -> Seq<char> {
    if c == '&' {
        seq!['&', 'a', 'm', 'p', ';']
    } else if c == '<' {
        seq!['&', 'l', 't', ';']
    } else if c == '>' {
        seq!['&', 'g', 't', ';']
    } else if c == '"' {
        seq!['&', 'q', 'u', 'o', 't', ';']
    } else if c == '\'' {
        seq!['&', '#', 'x', '2', '7', ';']
    } else {
        seq![c]
    }
}

/// The HTML text of a text, character by character.
pub open spec fn html_escaped(s: Seq<char>) -> Seq<char>
    decreases s.len(),
{
    if s.len() == 0 {
        Seq::empty()
    } else {
        html_escaped(s.drop_last()) + escape_char(s.last())
    }
}

/// Escapes text for HTML: `&` first, then `<`, `>`, `"` and `'`, each
/// replaced by its entity.
pub fn encode_text(text: &str) -> (r: String)
    ensures
        r@ == html_escaped(text@),
{
    let chars = str_chars(text);
    let mut out: Vec<char> = Vec::new();
    let mut i: usize = 0;
    while i < chars.len()
        invariant
            0 <= i <= chars@.len(),
            chars@ == text@,
            out@ == html_escaped(chars@.subrange(0, i as int)),
        decreases chars@.len() - i,
    {
        let c = chars[i];
        let ghost before = out@;
        if c == '&' {
            out.push('&');
            out.push('a');
            out.push('m');
            out.push('p');
            out.push(';');
        } else if c == '<' {
            out.push('&');
            out.push('l');
            out.push('t');
            out.push(';');
        } else if c == '>' {
            out.push('&');
            out.push('g');
            out.push('t');
            out.push(';');
        } else if c == '"' {
            out.push('&');
            out.push('q');
            out.push('u');
            out.push('o');
            out.push('t');
            out.push(';');
        } else if c == '\'' {
            out.push('&');
            out.push('#');
            out.push('x');
            out.push('2');
            out.push('7');
            out.push(';');
        } else {
            out.push(c);
        }
        proof {
            assert(out@ =~= before + escape_char(c));
            assert(chars@.subrange(0, i + 1).drop_last() =~= chars@.subrange(0, i as int));
        }
        i = i + 1;
    }
    proof {
        assert(chars@.subrange(0, chars@.len() as int) =~= chars@);
    }
    string_from_chars(out.as_slice())
}

/// A character with ASCII capitals made small; other characters, ASCII or
/// not, stay as they are (no file extension below holds a letter whose
/// capital is outside ASCII).
pub open spec fn lower_char(c: char) -> char {
    if 'A' <= c <= 'Z' {
        ((c as u32) + 32) as char
    } else {
        c
    }
}

/// What follows the last `.` of a name; the whole name when it has none.
pub open spec fn extension_of(name: Seq<char>) -> Seq<char> {
    let parts = split_on(name, '.');
    Seq::new(parts.last().len(), |i: int| lower_char(parts.last()[i]))
}

/// The content type of a file by its extension, case aside.
pub open spec fn mime_of(ext: Seq<char>) -> Seq<char> {
    if ext == seq!['h', 't', 'm', 'l'] || ext == seq!['h', 't', 'm'] {
        seq!['t', 'e', 'x', 't', '/', 'h', 't', 'm', 'l']
    } else if ext == seq!['c', 's', 's'] {
        seq!['t', 'e', 'x', 't', '/', 'c', 's', 's']
    } else if ext == seq!['j', 's'] {
        seq!['a', 'p', 'p', 'l', 'i', 'c', 'a', 't', 'i', 'o', 'n', '/', 'j', 'a', 'v', 'a', 's', 'c', 'r', 'i', 'p', 't']
    } else if ext == seq!['j', 's', 'o', 'n'] {
        seq!['a', 'p', 'p', 'l', 'i', 'c', 'a', 't', 'i', 'o', 'n', '/', 'j', 's', 'o', 'n']
    } else if ext == seq!['p', 'n', 'g'] {
        seq!['i', 'm', 'a', 'g', 'e', '/', 'p', 'n', 'g']
    } else if ext == seq!['j', 'p', 'g'] || ext == seq!['j', 'p', 'e', 'g'] {
        seq!['i', 'm', 'a', 'g', 'e', '/', 'j', 'p', 'e', 'g']
    } else if ext == seq!['g', 'i', 'f'] {
        seq!['i', 'm', 'a', 'g', 'e', '/', 'g', 'i', 'f']
    } else if ext == seq!['s', 'v', 'g'] {
        seq!['i', 'm', 'a', 'g', 'e', '/', 's', 'v', 'g', '+', 'x', 'm', 'l']
    } else if ext == seq!['w', 'e', 'b', 'p'] {
        seq!['i', 'm', 'a', 'g', 'e', '/', 'w', 'e', 'b', 'p']
    } else if ext == seq!['m', 'p', '4'] {
        seq!['v', 'i', 'd', 'e', 'o', '/', 'm', 'p', '4']
    } else if ext == seq!['w', 'e', 'b', 'm'] {
        seq!['v', 'i', 'd', 'e', 'o', '/', 'w', 'e', 'b', 'm']
    } else if ext == seq!['m', 'p', '3'] {
        seq!['a', 'u', 'd', 'i', 'o', '/', 'm', 'p', 'e', 'g']
    } else if ext == seq!['o', 'g', 'g'] {
        seq!['a', 'u', 'd', 'i', 'o', '/', 'o', 'g', 'g']
    } else if ext == seq!['w', 'a', 'v'] {
        seq!['a', 'u', 'd', 'i', 'o', '/', 'w', 'a', 'v']
    } else if ext == seq!['p', 'd', 'f'] {
        seq!['a', 'p', 'p', 'l', 'i', 'c', 'a', 't', 'i', 'o', 'n', '/', 'p', 'd', 'f']
    } else if ext == seq!['z', 'i', 'p'] {
        seq!['a', 'p', 'p', 'l', 'i', 'c', 'a', 't', 'i', 'o', 'n', '/', 'z', 'i', 'p']
    } else if ext == seq!['t', 'x', 't'] {
        seq!['t', 'e', 'x', 't', '/', 'p', 'l', 'a', 'i', 'n']
    } else {
        seq![
            'a',
            'p',
            'p',
            'l',
            'i',
            'c',
            'a',
            't',
            'i',
            'o',
            'n',
            '/',
            'o',
            'c',
            't',
            'e',
            't',
            '-',
            's',
            't',
            'r',
            'e',
            'a',
            'm',
        ]
    }
}

/// A file's content type names the file's own extension: for each of
/// these extensions the type is its family, a `/`, and the extension
/// itself (`video/` for `mp4` and `webm`; `audio/` for `ogg` and `wav`;
/// `image/` for `png`, `gif`, `webp` and `jpeg`; `text/` for `html` and
/// `css`; `application/` for `json`, `pdf` and `zip`). The aliases share
/// the type of the extension they stand for (`htm` is served as `html`,
/// `jpg` as `jpeg`), and any extension outside the table is served as
/// `application/octet-stream`.
pub proof fn mime_type_names_extension(e: Seq<char>)
    ensures
        (e == seq!['m', 'p', '4'] || e == seq!['w', 'e', 'b', 'm']) ==> mime_of(e) == seq![
            'v',
            'i',
            'd',
            'e',
            'o',
            '/',
        ] + e,
        (e == seq!['o', 'g', 'g'] || e == seq!['w', 'a', 'v']) ==> mime_of(e) == seq![
            'a',
            'u',
            'd',
            'i',
            'o',
            '/',
        ] + e,
        (e == seq!['p', 'n', 'g'] || e == seq!['g', 'i', 'f'] || e == seq!['w', 'e', 'b', 'p']
            || e == seq!['j', 'p', 'e', 'g']) ==> mime_of(e) == seq![
            'i',
            'm',
            'a',
            'g',
            'e',
            '/',
        ] + e,
        (e == seq!['h', 't', 'm', 'l'] || e == seq!['c', 's', 's']) ==> mime_of(e) == seq![
            't',
            'e',
            'x',
            't',
            '/',
        ] + e,
        (e == seq!['j', 's', 'o', 'n'] || e == seq!['p', 'd', 'f'] || e == seq!['z', 'i', 'p'])
            ==> mime_of(e) == seq![
            'a',
            'p',
            'p',
            'l',
            'i',
            'c',
            'a',
            't',
            'i',
            'o',
            'n',
            '/',
        ] + e,
        mime_of(seq!['h', 't', 'm']) == mime_of(seq!['h', 't', 'm', 'l']),
        mime_of(seq!['j', 'p', 'g']) == mime_of(seq!['j', 'p', 'e', 'g']),
        mime_of(seq!['j', 's']) == seq!['a', 'p', 'p', 'l', 'i', 'c', 'a', 't', 'i', 'o', 'n', '/']
            + seq!['j', 'a', 'v', 'a', 's', 'c', 'r', 'i', 'p', 't'],
        mime_of(seq!['s', 'v', 'g']) == seq!['i', 'm', 'a', 'g', 'e', '/', 's', 'v', 'g', '+', 'x', 'm', 'l'],
        mime_of(seq!['m', 'p', '3']) == seq!['a', 'u', 'd', 'i', 'o', '/', 'm', 'p', 'e', 'g'],
        mime_of(seq!['t', 'x', 't']) == seq!['t', 'e', 'x', 't', '/', 'p', 'l', 'a', 'i', 'n'],
        !known_extension(e) ==> mime_of(e) == seq![
            'a',
            'p',
            'p',
            'l',
            'i',
            'c',
            'a',
            't',
            'i',
            'o',
            'n',
            '/',
        ] + seq!['o', 'c', 't', 'e', 't', '-', 's', 't', 'r', 'e', 'a', 'm'],
{
}

/// The extensions that the content-type table names.
pub open spec fn known_extension(e: Seq<char>) -> bool {
    ||| e == seq!['h', 't', 'm', 'l'] || e == seq!['h', 't', 'm'] || e == seq!['c', 's', 's']
    ||| e == seq!['j', 's'] || e == seq!['j', 's', 'o', 'n'] || e == seq!['p', 'n', 'g']
    ||| e == seq!['j', 'p', 'g'] || e == seq!['j', 'p', 'e', 'g'] || e == seq!['g', 'i', 'f']
    ||| e == seq!['s', 'v', 'g'] || e == seq!['w', 'e', 'b', 'p'] || e == seq!['m', 'p', '4']
    ||| e == seq!['w', 'e', 'b', 'm'] || e == seq!['m', 'p', '3'] || e == seq!['o', 'g', 'g']
    ||| e == seq!['w', 'a', 'v'] || e == seq!['p', 'd', 'f'] || e == seq!['z', 'i', 'p']
    ||| e == seq!['t', 'x', 't']
}

/// The last piece of a split is what follows the last separator.
proof fn lemma_split_last_piece(name: Seq<char>, x: Seq<char>)
    requires
        !x.contains('.'),
    ensures
        split_on(name + seq!['.'] + x, '.').last() == x,
    decreases x.len(),
{
    let s = name + seq!['.'] + x;
    if x.len() == 0 {
        assert(s.drop_last() =~= name);
    } else {
        assert(!x.drop_last().contains('.')) by {
            if x.drop_last().contains('.') {
                let k = choose|k: int| 0 <= k < x.drop_last().len() && x.drop_last()[k] == '.';
                assert(x[k] == '.');
            }
        }
        lemma_split_last_piece(name, x.drop_last());
        assert(s.drop_last() =~= name + seq!['.'] + x.drop_last());
        assert(s.last() == x.last());
        assert(x.last() != '.') by {
            assert(x[x.len() - 1] == x.last());
        }
        crate::magnet::lemma_split_nonempty(s.drop_last(), '.');
        assert(x.drop_last().push(x.last()) =~= x);
    }
}

/// The extension of a file name is what follows its last `.`, with capital
/// letters made small, so that the content type does not depend on case: a
/// name that ends in `.webm`, `.WEBM` or any mix of the two is served as
/// `video/webm`.
pub proof fn extension_ignores_case(name: Seq<char>, x: Seq<char>)
    requires
        !x.contains('.'),
    ensures
        extension_of(name + seq!['.'] + x) == Seq::new(x.len(), |i: int| lower_char(x[i])),
        (x.len() == 4 && (x[0] == 'w' || x[0] == 'W') && (x[1] == 'e' || x[1] == 'E') && (x[2]
            == 'b' || x[2] == 'B') && (x[3] == 'm' || x[3] == 'M')) ==> mime_of(
            extension_of(name + seq!['.'] + x),
        ) == seq!['v', 'i', 'd', 'e', 'o', '/', 'w', 'e', 'b', 'm'],
{
    lemma_split_last_piece(name, x);
    let lx = Seq::new(x.len(), |i: int| lower_char(x[i]));
    assert(extension_of(name + seq!['.'] + x) =~= lx);
    if x.len() == 4 && (x[0] == 'w' || x[0] == 'W') && (x[1] == 'e' || x[1] == 'E') && (x[2]
        == 'b' || x[2] == 'B') && (x[3] == 'm' || x[3] == 'M') {
        assert(lx =~= seq!['w', 'e', 'b', 'm']);
        mime_type_names_extension(lx);
    }
}

/// Whether the characters of `v` are those of `t`.
fn is_chars(v: &Vec<char>, t: &Vec<char>) -> (r: bool)
    ensures
        r == (v@ == t@),
{
    if v.len() != t.len() {
        return false;
    }
    let mut i: usize = 0;
    while i < v.len()
        invariant
            0 <= i <= v@.len(),
            v@.len() == t@.len(),
            forall|j: int| 0 <= j < i ==> v@[j] == t@[j],
        decreases v@.len() - i,
    {
        if v[i] != t[i] {
            return false;
        }
        i = i + 1;
    }
    proof {
        assert(v@ =~= t@);
    }
    true
}

/// The content type of a file by its extension, as a string.
pub fn get_mime_type(file_name: &str) -> (r: String)
    ensures
        r@ == mime_of(extension_of(file_name@)),
{
    let name = str_chars(file_name);
    let mut start: usize = 0;
    let mut i: usize = 0;
    while i < name.len()
        invariant
            0 <= start <= i <= name@.len(),
            split_on(name@.subrange(0, i as int), '.').last() == name@.subrange(start as int, i as int),
        decreases name@.len() - i,
    {
        proof {
            assert(name@.subrange(0, i + 1).drop_last() =~= name@.subrange(0, i as int));
            crate::magnet::lemma_split_nonempty(name@.subrange(0, i as int), '.');
        }
        if name[i] == '.' {
            start = i + 1;
            proof {
                assert(name@.subrange(start as int, i + 1) =~= Seq::<char>::empty());
            }
        } else {
            proof {
                assert(name@.subrange(start as int, i + 1) =~= name@.subrange(start as int, i as int).push(name@[i as int]));
            }
        }
        i = i + 1;
    }
    proof {
        assert(name@.subrange(0, name@.len() as int) =~= name@);
    }
    let mut ext: Vec<char> = Vec::new();
    let mut k = start;
    while k < name.len()
        invariant
            start <= k <= name@.len(),
            ext@ == Seq::new((k - start) as nat, |j: int| lower_char(name@[start + j])),
        decreases name@.len() - k,
    {
        let c = name[k];
        let l = if 'A' <= c && c <= 'Z' {
            ((c as u32) + 32) as u8 as char
        } else {
            c
        };
        ext.push(l);
        proof {
            assert(ext@ =~= Seq::new((k + 1 - start) as nat, |j: int| lower_char(name@[start + j])));
        }
        k = k + 1;
    }
    proof {
        assert(ext@ =~= extension_of(file_name@));
    }
    let t: Vec<char> = mime_chars(&ext);
    string_from_chars(t.as_slice())
}

/// The content type for an extension.
fn mime_chars(ext: &Vec<char>) -> (r: Vec<char>)
    ensures
        r@ == mime_of(ext@),
{
    let r: Vec<char> = if is_chars(ext, &vec!['h', 't', 'm', 'l']) || is_chars(ext, &vec!['h', 't', 'm']) {
        vec!['t', 'e', 'x', 't', '/', 'h', 't', 'm', 'l']
    } else if is_chars(ext, &vec!['c', 's', 's']) {
        vec!['t', 'e', 'x', 't', '/', 'c', 's', 's']
    } else if is_chars(ext, &vec!['j', 's']) {
        vec!['a', 'p', 'p', 'l', 'i', 'c', 'a', 't', 'i', 'o', 'n', '/', 'j', 'a', 'v', 'a', 's', 'c', 'r', 'i', 'p', 't']
    } else if is_chars(ext, &vec!['j', 's', 'o', 'n']) {
        vec!['a', 'p', 'p', 'l', 'i', 'c', 'a', 't', 'i', 'o', 'n', '/', 'j', 's', 'o', 'n']
    } else if is_chars(ext, &vec!['p', 'n', 'g']) {
        vec!['i', 'm', 'a', 'g', 'e', '/', 'p', 'n', 'g']
    } else if is_chars(ext, &vec!['j', 'p', 'g']) || is_chars(ext, &vec!['j', 'p', 'e', 'g']) {
        vec!['i', 'm', 'a', 'g', 'e', '/', 'j', 'p', 'e', 'g']
    } else if is_chars(ext, &vec!['g', 'i', 'f']) {
        vec!['i', 'm', 'a', 'g', 'e', '/', 'g', 'i', 'f']
    } else if is_chars(ext, &vec!['s', 'v', 'g']) {
        vec!['i', 'm', 'a', 'g', 'e', '/', 's', 'v', 'g', '+', 'x', 'm', 'l']
    } else if is_chars(ext, &vec!['w', 'e', 'b', 'p']) {
        vec!['i', 'm', 'a', 'g', 'e', '/', 'w', 'e', 'b', 'p']
    } else if is_chars(ext, &vec!['m', 'p', '4']) {
        vec!['v', 'i', 'd', 'e', 'o', '/', 'm', 'p', '4']
    } else if is_chars(ext, &vec!['w', 'e', 'b', 'm']) {
        vec!['v', 'i', 'd', 'e', 'o', '/', 'w', 'e', 'b', 'm']
    } else if is_chars(ext, &vec!['m', 'p', '3']) {
        vec!['a', 'u', 'd', 'i', 'o', '/', 'm', 'p', 'e', 'g']
    } else if is_chars(ext, &vec!['o', 'g', 'g']) {
        vec!['a', 'u', 'd', 'i', 'o', '/', 'o', 'g', 'g']
    } else if is_chars(ext, &vec!['w', 'a', 'v']) {
        vec!['a', 'u', 'd', 'i', 'o', '/', 'w', 'a', 'v']
    } else if is_chars(ext, &vec!['p', 'd', 'f']) {
        vec!['a', 'p', 'p', 'l', 'i', 'c', 'a', 't', 'i', 'o', 'n', '/', 'p', 'd', 'f']
    } else if is_chars(ext, &vec!['z', 'i', 'p']) {
        vec!['a', 'p', 'p', 'l', 'i', 'c', 'a', 't', 'i', 'o', 'n', '/', 'z', 'i', 'p']
    } else if is_chars(ext, &vec!['t', 'x', 't']) {
        vec!['t', 'e', 'x', 't', '/', 'p', 'l', 'a', 'i', 'n']
    } else {
        vec![
            'a',
            'p',
            'p',
            'l',
            'i',
            'c',
            'a',
            't',
            'i',
            'o',
            'n',
            '/',
            'o',
            'c',
            't',
            'e',
            't',
            '-',
            's',
            't',
            'r',
            'e',
            'a',
            'm',
        ]
    };
    proof {
        assert(r@ =~= mime_of(ext@));
    }
    r
}

/// The text `bytes=`.
pub open spec fn bytes_prefix() -> Seq<char> {
    seq!['b', 'y', 't', 'e', 's', '=']
}

/// A bound of a range: empty for the default, else a `u64` in decimal.
pub open spec fn range_bound(s: Seq<char>, default: u64) -> Option<u64> {
    if s.len() == 0 {
        Some(default)
    } else {
        match parse_unsigned(chars_as_ascii(s), u64::MAX as nat) {
            Some(n) => Some(n as u64),
            None => None,
        }
    }
}

/// What a `Range` header gives: `bytes=start-end` with either bound
/// optional.  The start is 0 by default; the end comes back exclusive: one
/// past the last byte asked for (HTTP ends are inclusive), the file length
/// when absent, and cut to the file length; `None` for any other form.
pub open spec fn range_of(range: Seq<char>, file_length: u64) -> Option<(u64, u64)> {
    if range.len() >= 6 && range.subrange(0, 6) == bytes_prefix() {
        let parts = split_on(range.subrange(6, range.len() as int), '-');
        if parts.len() == 2 {
            match (range_bound(parts[0], 0), range_bound(parts[1], file_length)) {
                (Some(s), Some(e)) => Some(
                    (
                        s,
                        if parts[1].len() == 0 || e + 1 >= file_length {
                            file_length
                        } else {
                            (e + 1) as u64
                        },
                    ),
                ),
                _ => None,
            }
        } else {
            None
        }
    } else {
        None
    }
}

/// A bound of a range from its characters.
fn bound_of(s: &Vec<char>, default: u64) -> (r: Option<u64>)
    ensures
        r == range_bound(s@, default),
{
    if s.len() == 0 {
        return Some(default);
    }
    let b = chars_to_ascii(s);
    proof {
        assert(b@.subrange(0, b@.len() as int) =~= b@);
    }
    parse_unsigned_range(b.as_slice(), 0, b.len(), u64::MAX)
}

/// Reads a `Range` header against a file of `file_length` bytes; fails
/// with an invalid-torrent error for any form but `bytes=start-end`.
pub fn parse_range_header(range: &str, file_length: u64) -> (r: Result<(u64, u64)>)
    ensures
        match range_of(range@, file_length) {
            Some(p) => r == Ok::<(u64, u64), crate::error::WebTorrentError>(p),
            None => r matches Err(e) && e is InvalidTorrent,
        },
{
    let chars = str_chars(range);
    let prefix: Vec<char> = vec!['b', 'y', 't', 'e', 's', '='];
    if chars.len() < 6 {
        return Err(invalid_torrent("Invalid range format"));
    }
    let mut i: usize = 0;
    while i < 6
        invariant
            0 <= i <= 6,
            chars@.len() >= 6,
            chars@ == range@,
            prefix@ == bytes_prefix(),
            forall|j: int| 0 <= j < i ==> chars@[j] == prefix@[j],
        decreases 6 - i,
    {
        if chars[i] != prefix[i] {
            proof {
                assert(chars@.subrange(0, 6)[i as int] != bytes_prefix()[i as int]);
            }
            return Err(invalid_torrent("Invalid range format"));
        }
        i = i + 1;
    }
    proof {
        assert(chars@.subrange(0, 6) =~= bytes_prefix());
    }
    let mut parts: Vec<Vec<char>> = Vec::new();
    parts.push(Vec::new());
    let ghost spec_s = chars@.subrange(6, chars@.len() as int);
    let mut k: usize = 6;
    proof {
        assert(spec_s.subrange(0, 0) =~= Seq::<char>::empty());
    }
    while k < chars.len()
        invariant
            6 <= k <= chars@.len(),
            spec_s == chars@.subrange(6, chars@.len() as int),
            parts@.len() >= 1,
            parts@.len() == split_on(spec_s.subrange(0, k - 6), '-').len(),
            forall|j: int| 0 <= j < parts@.len() ==> #[trigger] parts@[j]@ == split_on(spec_s.subrange(0, k - 6), '-')[j],
        decreases chars@.len() - k,
    {
        let ghost pre = split_on(spec_s.subrange(0, k - 6), '-');
        proof {
            assert(spec_s.subrange(0, k - 6 + 1).drop_last() =~= spec_s.subrange(0, k - 6));
            assert(spec_s[k - 6] == chars@[k as int]);
        }
        if chars[k] == '-' {
            parts.push(Vec::new());
            proof {
                assert forall|j: int| 0 <= j < parts@.len() implies #[trigger] parts@[j]@ == split_on(spec_s.subrange(0, k - 6 + 1), '-')[j] by {
                    if j < parts@.len() - 1 {
                        assert(parts@[j]@ == pre[j]);
                    } else {
                        assert(parts@[j]@ =~= Seq::<char>::empty());
                    }
                }
            }
        } else {
            let last = parts.len() - 1;
            let mut cur = parts.pop().unwrap();
            cur.push(chars[k]);
            parts.push(cur);
            proof {
                assert forall|j: int| 0 <= j < parts@.len() implies #[trigger] parts@[j]@ == split_on(spec_s.subrange(0, k - 6 + 1), '-')[j] by {
                    if j < last {
                        assert(parts@[j]@ == pre[j]);
                    }
                }
            }
        }
        k = k + 1;
    }
    proof {
        assert(spec_s.subrange(0, chars@.len() - 6) =~= spec_s);
    }
    if parts.len() != 2 {
        return Err(invalid_torrent("Invalid range format"));
    }
    let start = match bound_of(&parts[0], 0) {
        Some(s) => s,
        None => return Err(invalid_torrent("Invalid range start")),
    };
    let end = match bound_of(&parts[1], file_length) {
        Some(e) => e,
        None => return Err(invalid_torrent("Invalid range end")),
    };
    if parts[1].len() == 0 || file_length == 0 || end >= file_length - 1 {
        return Ok((start, file_length));
    }
    Ok((start, end + 1))
}

} // verus!
