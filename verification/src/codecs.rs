//! Text encodings of bytes used in magnet links and tracker requests:
//! hexadecimal (`hex`), base32 (`base32`), percent-encoding
//! (`urlencoding`), and the query of a URL (`url`).

use url::Url;
use vstd::prelude::*;
use vstd::utf8::encode_utf8;

verus! {

/// The character of a hexadecimal digit `0..16`, lower case.
pub open spec fn hex_digit_lower(n: nat) -> char {
    if n < 10 {
        (48 + n) as char
    } else {
        (87 + n) as char
    }
}

/// The character of a hexadecimal digit `0..16`, upper case.
pub open spec fn hex_digit_upper(n: nat) -> char {
    if n < 10 {
        (48 + n) as char
    } else {
        (55 + n) as char
    }
}

/// Two lower-case hexadecimal digits per byte, high digit first.
pub open spec fn hex_text(b: Seq<u8>) -> Seq<char> {
    Seq::new(
        2 * b.len(),
        |i: int|
            if i % 2 == 0 {
                hex_digit_lower((b[i / 2] / 16) as nat)
            } else {
                hex_digit_lower((b[i / 2] % 16) as nat)
            },
    )
}

/// The value of a hexadecimal digit, either case.
pub open spec fn hex_value(c: u8) -> Option<u8> {
    if 48 <= c <= 57 {
        Some((c - 48) as u8)
    } else if 65 <= c <= 70 {
        Some((c - 55) as u8)
    } else if 97 <= c <= 102 {
        Some((c - 87) as u8)
    } else {
        None
    }
}

/// The bytes that hexadecimal text stands for: an even number of digits,
/// two per byte, high digit first.
pub open spec fn hex_decoded(s: Seq<u8>) -> Option<Seq<u8>> {
    if s.len() % 2 == 0 && forall|i: int| 0 <= i < s.len() ==> #[trigger] hex_value(s[i]) is Some {
        Some(Seq::new(s.len() / 2, |i: int| (hex_value(s[2 * i]).unwrap() * 16 + hex_value(s[2 * i + 1]).unwrap()) as u8))
    } else {
        None
    }
}

/// `hex::encode`: two lower-case hexadecimal digits per byte.
#[verifier::external_body]
pub(crate) fn hex_encode(data: &[u8]) -> (r: String)
    ensures
        r@ == hex_text(data@),
{
    hex::encode(data)
}

/// `hex::decode` of the bytes of `s`: the bytes the digits stand for; an
/// error (here `None`) for an odd length or a character that is no digit.
#[verifier::external_body]
pub(crate) fn hex_decode(s: &str) -> (r: Option<Vec<u8>>)
    ensures
        match hex_decoded(encode_utf8(s@)) {
            Some(b) => r matches Some(v) && v@ == b,
            None => r is None,
        },
{
    hex::decode(s).ok()
}

/// The value `base32::decode` gives a character of the RFC 4648 alphabet,
/// read in upper case: `A`..`Z` are 0..25, `2`..`7` are 26..31, and `=` is 0.
pub open spec fn base32_value(c: char) -> Option<nat> {
    let u = if 'a' <= c <= 'z' { c as int - 32 } else { c as int };
    if 65 <= u <= 90 {
        Some((u - 65) as nat)
    } else if 50 <= u <= 55 {
        Some((u - 24) as nat)
    } else if u == 61 {
        Some(0)
    } else {
        None
    }
}

/// The number of `=` that end `s`, from the `k`-th last on, at most six.
pub open spec fn base32_pads(s: Seq<char>, k: nat) -> nat
    decreases 6 - k,
{
    if k < 6 && k < s.len() && s[s.len() - 1 - k] == '=' {
        base32_pads(s, k + 1)
    } else {
        k
    }
}

/// Bit `p` of the five-bit values `v` written one after the other, most
/// significant first; zero past their end.
pub open spec fn base32_bit(v: Seq<nat>, p: int) -> nat {
    if 0 <= p && p / 5 < v.len() {
        let w: nat = if p % 5 == 0 { 16 } else if p % 5 == 1 { 8 } else if p % 5 == 2 { 4 } else if p % 5 == 3 { 2 } else { 1 };
        ((v[p / 5] / w) % 2) as nat
    } else {
        0
    }
}

/// Byte `j` of the bits of `v`.
pub open spec fn base32_byte(v: Seq<nat>, j: int) -> u8 {
    (base32_bit(v, 8 * j) * 128 + base32_bit(v, 8 * j + 1) * 64 + base32_bit(v, 8 * j + 2) * 32 + base32_bit(v, 8 * j + 3) * 16
        + base32_bit(v, 8 * j + 4) * 8 + base32_bit(v, 8 * j + 5) * 4 + base32_bit(v, 8 * j + 6) * 2 + base32_bit(v, 8 * j + 7)) as u8
}

/// What `base32::decode` with the RFC 4648 alphabet gives for a text: `None`
/// when a character is outside the alphabet (and `=`); else the bits of the
/// characters' values, cut to five eighths of the length without up to six
/// trailing `=`, in whole bytes.
pub open spec fn base32_decoded(s: Seq<char>) -> Option<Seq<u8>> {
    if exists|i: int| 0 <= i < s.len() && #[trigger] base32_value(s[i]) is None {
        None
    } else {
        let v = Seq::new(s.len(), |i: int| base32_value(s[i])->0);
        let n = ((s.len() - base32_pads(s, 0)) * 5 / 8) as nat;
        Some(Seq::new(n, |j: int| base32_byte(v, j)))
    }
}

/// `base32::decode(Alphabet::RFC4648 { padding: false }, s)`, as
/// `base32_decoded` states it; the crate's length arithmetic (five times the
/// length) must fit in a `usize`.
#[verifier::external_body]
pub(crate) fn base32_decode(s: &str) -> (r: Option<Vec<u8>>)
    requires
        s@.len() * 5 <= usize::MAX,
    ensures
        match base32_decoded(s@) {
            Some(b) => r matches Some(v) && v@ == b,
            None => r is None,
        },
{
    base32::decode(base32::Alphabet::RFC4648 { padding: false }, s)
}

/// A byte that percent-encoding keeps: an ASCII letter or digit, or one of
/// `-`, `_`, `.`, `~`.
pub open spec fn is_unreserved(b: u8) -> bool {
    (48 <= b <= 57) || (65 <= b <= 90) || (97 <= b <= 122) || b == 45 || b == 95 || b == 46 || b == 126
}

/// A byte written as `%` and two upper-case hexadecimal digits.
pub open spec fn percent_byte(b: u8) -> Seq<char> {
    seq!['%', hex_digit_upper((b / 16) as nat), hex_digit_upper((b % 16) as nat)]
}

/// Percent-encoding of bytes: unreserved bytes as themselves, every other
/// byte as `%XX`.
pub open spec fn percent_encoded(b: Seq<u8>) -> Seq<char>
    decreases b.len(),
{
    if b.len() == 0 {
        Seq::empty()
    } else {
        percent_encoded(b.drop_last()) + if is_unreserved(b.last()) {
            seq![b.last() as char]
        } else {
            percent_byte(b.last())
        }
    }
}

/// `urlencoding::encode`: the UTF-8 bytes of `s` percent-encoded.
#[verifier::external_body]
pub(crate) fn url_encode(s: &str) -> (r: String)
    ensures
        r@ == percent_encoded(encode_utf8(s@)),
{
    urlencoding::encode(s).into_owned()
}

/// What `Url::parse` makes of a text: the name-value pairs of its query,
/// decoded as `application/x-www-form-urlencoded`; `None` when the text is
/// no URL.
pub uninterp spec fn url_query_pairs(s: Seq<char>) -> Option<Seq<(Seq<char>, Seq<char>)>>;

/// The texts of pairs of strings.
pub open spec fn pair_texts(v: Seq<(String, String)>) -> Seq<(Seq<char>, Seq<char>)> {
    Seq::new(v.len(), |i: int| (v[i].0@, v[i].1@))
}

/// `Url::parse`, then `Url::query_pairs`: the query's name-value pairs, or
/// `None` when `s` is not a URL.
#[verifier::external_body]
pub(crate) fn parse_query_pairs(s: &str) -> (r: Option<Vec<(String, String)>>)
    ensures
        match url_query_pairs(s@) {
            Some(p) => r matches Some(v) && pair_texts(v@) == p,
            None => r is None,
        },
{
    match Url::parse(s) {
        Ok(url) => Some(url.query_pairs().map(|(k, v)| (k.into_owned(), v.into_owned())).collect()),
        Err(_) => None,
    }
}

/// What `Url::parse` makes of a text: its serialization; `None` when the
/// text is no URL.
pub uninterp spec fn url_serialization(s: Seq<char>) -> Option<Seq<char>>;

/// `Url::parse`, then `Url::as_str`: the URL as the crate writes it, or
/// `None` when `s` is not a URL.
#[verifier::external_body]
pub(crate) fn normalize_url(s: &str) -> (r: Option<String>)
    ensures
        match url_serialization(s@) {
            Some(t) => r matches Some(u) && u@ == t,
            None => r is None,
        },
{
    match Url::parse(s) {
        Ok(url) => Some(url.as_str().to_string()),
        Err(_) => None,
    }
}

/// What `Url::parse` makes of a text: its scheme, in lower case; `None`
/// when the text is no URL.
pub uninterp spec fn url_scheme(s: Seq<char>) -> Option<Seq<char>>;

/// `Url::parse`, then `Url::scheme`: the scheme of the URL, or `None` when
/// `s` is not a URL.
#[verifier::external_body]
pub(crate) fn parse_url_scheme(s: &str) -> (r: Option<String>)
    ensures
        match url_scheme(s@) {
            Some(t) => r matches Some(u) && u@ == t,
            None => r is None,
        },
{
    match Url::parse(s) {
        Ok(url) => Some(url.scheme().to_string()),
        Err(_) => None,
    }
}

/// What `Url::parse` of a text, then `query_pairs_mut().append_pair(name,
/// value)`, makes of it: the serialization with the pair appended to the
/// query; `None` when the text is no URL.
pub uninterp spec fn url_with_pair(s: Seq<char>, name: Seq<char>, value: Seq<char>) -> Option<Seq<char>>;

/// `Url::parse(s)`, then `query_pairs_mut().append_pair(name, value)`,
/// then `Url::as_str`.
#[verifier::external_body]
pub(crate) fn append_query_pair(s: &str, name: &str, value: &str) -> (r: Option<String>)
    ensures
        match url_with_pair(s@, name@, value@) {
            Some(t) => r matches Some(u) && u@ == t,
            None => r is None,
        },
{
    match Url::parse(s) {
        Ok(mut url) => {
            url.query_pairs_mut().append_pair(name, value);
            Some(url.as_str().to_string())
        },
        Err(_) => None,
    }
}

} // verus!
