//! IPv4 addresses in dotted-decimal text: four octets written as decimal
//! numbers without leading zeros and joined by dots, as `Ipv4Addr`'s
//! `Display` writes them and its `FromStr` reads them.

use crate::bencode_parser::{bytes_eq, find_byte, find_byte_from, lemma_find_byte_at, lemma_find_byte_range};
use crate::decimal::{
    all_digits, ascii_chars, ascii_to_chars, chars_as_ascii, chars_to_ascii, digits_value, is_digit,
    lemma_digits_value_push, lemma_nat_digits, nat_digits, u64_digits,
};
use crate::text::{str_chars, string_from_chars};
use vstd::prelude::*;

verus! {

/// The dotted-decimal text of four octets.
pub open spec fn ipv4_text(o: Seq<u8>) -> Seq<u8> {
    nat_digits(o[0] as nat) + seq![46u8] + nat_digits(o[1] as nat) + seq![46u8] + nat_digits(
        o[2] as nat,
    ) + seq![46u8] + nat_digits(o[3] as nat)
}

/// `s` is the dotted-decimal text of the four octets `o`.
pub open spec fn is_ipv4_text(s: Seq<u8>, o: Seq<u8>) -> bool {
    o.len() == 4 && ipv4_text(o) == s
}

/// The octets that `s` is the dotted-decimal text of, if it is the text of
/// any: what `str::parse::<Ipv4Addr>` accepts and gives.
pub open spec fn parse_ipv4(s: Seq<u8>) -> Option<Seq<u8>> {
    if exists|o: Seq<u8>| is_ipv4_text(s, o) {
        Some(choose|o: Seq<u8>| is_ipv4_text(s, o))
    } else {
        None
    }
}

/// The value of one to three digits that make at most 255.
pub open spec fn octet_value(g: Seq<u8>) -> Option<u8> {
    if 1 <= g.len() <= 3 && all_digits(g) && digits_value(g) <= 255 {
        Some(digits_value(g) as u8)
    } else {
        None
    }
}

/// The octets read from the four dot-separated groups of `s`.
pub open spec fn split_octets(s: Seq<u8>) -> Option<Seq<u8>> {
    match find_byte(s, 0, 46u8) {
        None => None,
        Some(d1) => match find_byte(s, d1 + 1, 46u8) {
            None => None,
            Some(d2) => match find_byte(s, d2 + 1, 46u8) {
                None => None,
                Some(d3) => if find_byte(s, d3 + 1, 46u8) is Some {
                    None
                } else {
                    match (
                        octet_value(s.subrange(0, d1)),
                        octet_value(s.subrange(d1 + 1, d2)),
                        octet_value(s.subrange(d2 + 1, d3)),
                        octet_value(s.subrange(d3 + 1, s.len() as int)),
                    ) {
                        (Some(a), Some(b), Some(c), Some(d)) => Some(seq![a, b, c, d]),
                        _ => None,
                    }
                },
            },
        },
    }
}

/// The digits of an octet: one to three of them, reading back as the octet.
proof fn lemma_octet_digits(b: u8)
    ensures
        1 <= nat_digits(b as nat).len() <= 3,
        all_digits(nat_digits(b as nat)),
        octet_value(nat_digits(b as nat)) == Some(b),
{
    lemma_nat_digits(b as nat);
    let n = b as nat;
    if n >= 10 {
        lemma_nat_digits(n / 10);
        if n / 10 >= 10 {
            assert(n / 10 / 10 < 10);
            assert(nat_digits(n / 10 / 10).len() == 1);
        }
    }
}

/// Splitting the text of four octets gives the octets back.
proof fn lemma_split_text(o: Seq<u8>)
    requires
        o.len() == 4,
    ensures
        split_octets(ipv4_text(o)) == Some(o),
{
    let t = ipv4_text(o);
    let a = nat_digits(o[0] as nat);
    let b = nat_digits(o[1] as nat);
    let c = nat_digits(o[2] as nat);
    let d = nat_digits(o[3] as nat);
    lemma_octet_digits(o[0]);
    lemma_octet_digits(o[1]);
    lemma_octet_digits(o[2]);
    lemma_octet_digits(o[3]);
    let d1 = a.len() as int;
    let d2 = d1 + 1 + b.len();
    let d3 = d2 + 1 + c.len();
    assert(t.len() == d3 + 1 + d.len());
    assert(t.subrange(0, d1) =~= a);
    assert(t.subrange(d1 + 1, d2) =~= b);
    assert(t.subrange(d2 + 1, d3) =~= c);
    assert(t.subrange(d3 + 1, t.len() as int) =~= d);
    assert forall|j: int| 0 <= j < d1 implies t[j] != 46u8 by {
        assert(t[j] == a[j]);
        assert(is_digit(a[j]));
    }
    assert forall|j: int| d1 + 1 <= j < d2 implies t[j] != 46u8 by {
        assert(t[j] == b[j - d1 - 1]);
        assert(is_digit(b[j - d1 - 1]));
    }
    assert forall|j: int| d2 + 1 <= j < d3 implies t[j] != 46u8 by {
        assert(t[j] == c[j - d2 - 1]);
        assert(is_digit(c[j - d2 - 1]));
    }
    assert(t[d1] == 46u8);
    assert(t[d2] == 46u8);
    assert(t[d3] == 46u8);
    lemma_find_byte_at(t, 0, 46u8, d1);
    lemma_find_byte_at(t, d1 + 1, 46u8, d2);
    lemma_find_byte_at(t, d2 + 1, 46u8, d3);
    lemma_find_byte_range(t, d3 + 1, 46u8);
    if let Some(p) = find_byte(t, d3 + 1, 46u8) {
        assert(t[p] == d[p - d3 - 1]);
        assert(is_digit(d[p - d3 - 1]));
    }
    assert(seq![o[0], o[1], o[2], o[3]] =~= o);
}

/// The text of four octets reads back as those octets, and no other four
/// octets have the same text.
pub proof fn ipv4_roundtrip(o: Seq<u8>)
    requires
        o.len() == 4,
    ensures
        parse_ipv4(ipv4_text(o)) == Some(o),
{
    let t = ipv4_text(o);
    assert(is_ipv4_text(t, o));
    let c = choose|x: Seq<u8>| is_ipv4_text(t, x);
    lemma_split_text(o);
    lemma_split_text(c);
}

/// The dotted-decimal text as characters.
pub open spec fn ipv4_chars(o: Seq<u8>) -> Seq<char> {
    ascii_chars(ipv4_text(o))
}

/// The octets a string names, read as `str::parse::<Ipv4Addr>` reads it.
pub open spec fn ipv4_of_str(s: Seq<char>) -> Option<Seq<u8>> {
    parse_ipv4(chars_as_ascii(s))
}

/// The text of an address is ASCII.
proof fn lemma_text_ascii(o: Seq<u8>)
    requires
        o.len() == 4,
    ensures
        forall|i: int| 0 <= i < ipv4_text(o).len() ==> #[trigger] ipv4_text(o)[i] < 128,
{
    lemma_octet_digits(o[0]);
    lemma_octet_digits(o[1]);
    lemma_octet_digits(o[2]);
    lemma_octet_digits(o[3]);
    let t = ipv4_text(o);
    let a = nat_digits(o[0] as nat);
    let b = nat_digits(o[1] as nat);
    let c = nat_digits(o[2] as nat);
    let d = nat_digits(o[3] as nat);
    assert forall|i: int| 0 <= i < t.len() implies #[trigger] t[i] < 128 by {
        let d1 = a.len() as int;
        let d2 = d1 + 1 + b.len();
        let d3 = d2 + 1 + c.len();
        if i < d1 {
            assert(is_digit(a[i]));
        } else if d1 < i < d2 {
            assert(is_digit(b[i - d1 - 1]));
        } else if d2 < i < d3 {
            assert(is_digit(c[i - d2 - 1]));
        } else if d3 < i {
            assert(is_digit(d[i - d3 - 1]));
        }
    }
}

/// The characters of a string are the characters of an address text exactly
/// when the string, seen byte-wise, is that text.
pub proof fn lemma_chars_of_text(s: Seq<char>, o: Seq<u8>)
    requires
        o.len() == 4,
    ensures
        (chars_as_ascii(s) == ipv4_text(o)) <==> (s == ipv4_chars(o)),
{
    lemma_text_ascii(o);
    let t = ipv4_text(o);
    if chars_as_ascii(s) == t {
        assert(s.len() == t.len());
        assert forall|i: int| 0 <= i < s.len() implies s[i] == #[trigger] ascii_chars(t)[i] by {
            assert(chars_as_ascii(s)[i] == t[i]);
            assert(t[i] < 128);
            let u = s[i] as u32;
            assert(u < 128);
            assert(u as u8 == t[i]);
            assert(u as int == t[i] as int);
            vstd::utf8::char_u32_cast(s[i], u);
            assert((u as char) == s[i]);
        }
        assert(s =~= ascii_chars(t));
    }
    if s == ipv4_chars(o) {
        assert forall|i: int| 0 <= i < t.len() implies #[trigger] chars_as_ascii(s)[i] == t[i] by {
            assert(t[i] < 128);
            assert(s[i] == t[i] as char);
        }
        assert(chars_as_ascii(s) =~= t);
    }
}

/// The value of `s[start..end]` as an octet.
fn octet_range(s: &[u8], start: usize, end: usize) -> (r: Option<u8>)
    requires
        start <= end <= s@.len(),
    ensures
        r == octet_value(s@.subrange(start as int, end as int)),
{
    let ghost g = s@.subrange(start as int, end as int);
    if end - start < 1 || end - start > 3 {
        return None;
    }
    let mut v: u32 = 0;
    let mut i = start;
    while i < end
        invariant
            start <= i <= end,
            end - start <= 3,
            end <= s@.len(),
            g == s@.subrange(start as int, end as int),
            all_digits(s@.subrange(start as int, i as int)),
            v == digits_value(s@.subrange(start as int, i as int)),
            v < 1000,
        decreases end - i,
    {
        let c = s[i];
        if c < 48u8 || c > 57u8 {
            proof {
                assert(g[i - start] == c);
                assert(!is_digit(g[i - start]));
            }
            return None;
        }
        proof {
            assert(s@.subrange(start as int, i + 1) =~= s@.subrange(start as int, i as int).push(c));
            lemma_digits_value_push(s@.subrange(start as int, i as int), c);
            assert(digits_value(s@.subrange(start as int, i as int)) < 100) by {
                if i - start == 0 {
                    assert(s@.subrange(start as int, i as int).len() == 0);
                } else {
                    lemma_short_digits(s@.subrange(start as int, i as int));
                }
            }
        }
        v = v * 10 + (c - 48u8) as u32;
        i = i + 1;
    }
    proof {
        assert(s@.subrange(start as int, end as int) =~= g);
    }
    if v <= 255 {
        Some(v as u8)
    } else {
        None
    }
}

/// One or two digits make less than 100.
proof fn lemma_short_digits(g: Seq<u8>)
    requires
        1 <= g.len() <= 2,
        all_digits(g),
    ensures
        digits_value(g) < 100,
{
    assert(is_digit(g.last()));
    let p = g.drop_last();
    assert(digits_value(g) == digits_value(p) * 10 + (g.last() - 48) as nat);
    if p.len() == 1 {
        assert(is_digit(p[0]));
        assert(p.drop_last().len() == 0);
        assert(digits_value(p) == digits_value(p.drop_last()) * 10 + (p.last() - 48) as nat);
    } else {
        assert(p.len() == 0);
    }
}

/// The dotted-decimal text of four octets, as bytes.
pub fn ipv4_bytes(o: &[u8; 4]) -> (r: Vec<u8>)
    ensures
        r@ == ipv4_text(o@),
{
    let mut v = u64_digits(o[0] as u64);
    v.push(46u8);
    let b = u64_digits(o[1] as u64);
    crate::bencode_parser::append_bytes(&mut v, b.as_slice());
    v.push(46u8);
    let c = u64_digits(o[2] as u64);
    crate::bencode_parser::append_bytes(&mut v, c.as_slice());
    v.push(46u8);
    let d = u64_digits(o[3] as u64);
    crate::bencode_parser::append_bytes(&mut v, d.as_slice());
    proof {
        assert(v@ =~= ipv4_text(o@));
    }
    v
}

/// The dotted-decimal text of four octets, as `Ipv4Addr`'s `Display`
/// writes it.
pub fn ipv4_string(o: &[u8; 4]) -> (r: String)
    ensures
        r@ == ipv4_chars(o@),
{
    let t = ipv4_bytes(o);
    proof {
        lemma_text_ascii(o@);
    }
    let cs = ascii_to_chars(&t);
    string_from_chars(cs.as_slice())
}

/// The octets that `s` is the dotted-decimal text of, if any.
pub fn parse_ipv4_bytes(s: &[u8]) -> (r: Option<[u8; 4]>)
    ensures
        match parse_ipv4(s@) {
            Some(o) => r matches Some(a) && a@ == o,
            None => r is None,
        },
{
    proof {
        if exists|o: Seq<u8>| is_ipv4_text(s@, o) {
            let o = choose|o: Seq<u8>| is_ipv4_text(s@, o);
            lemma_split_text(o);
        }
        lemma_find_byte_range(s@, 0, 46u8);
    }
    let d1 = match find_byte_from(s, 0, 46u8) {
        Some(p) => p,
        None => return None,
    };
    assert(d1 < s.len());
    proof {
        lemma_find_byte_range(s@, d1 + 1, 46u8);
    }
    let d2 = match find_byte_from(s, d1 + 1, 46u8) {
        Some(p) => p,
        None => return None,
    };
    assert(d2 < s.len());
    proof {
        lemma_find_byte_range(s@, d2 + 1, 46u8);
    }
    let d3 = match find_byte_from(s, d2 + 1, 46u8) {
        Some(p) => p,
        None => return None,
    };
    assert(d3 < s.len());
    if find_byte_from(s, d3 + 1, 46u8).is_some() {
        return None;
    }
    let a = match octet_range(s, 0, d1) {
        Some(x) => x,
        None => return None,
    };
    let b = match octet_range(s, d1 + 1, d2) {
        Some(x) => x,
        None => return None,
    };
    let c = match octet_range(s, d2 + 1, d3) {
        Some(x) => x,
        None => return None,
    };
    let d = match octet_range(s, d3 + 1, s.len()) {
        Some(x) => x,
        None => return None,
    };
    let o: [u8; 4] = [a, b, c, d];
    proof {
        assert(o@ =~= seq![a, b, c, d]);
    }
    let t = ipv4_bytes(&o);
    if bytes_eq(t.as_slice(), s) {
        proof {
            assert(is_ipv4_text(s@, o@));
        }
        Some(o)
    } else {
        None
    }
}

/// The octets of an address string, read as `str::parse::<Ipv4Addr>` reads
/// it.
pub fn parse_ipv4_str(s: &str) -> (r: Option<[u8; 4]>)
    ensures
        match ipv4_of_str(s@) {
            Some(o) => r matches Some(a) && a@ == o,
            None => r is None,
        },
{
    let cs = str_chars(s);
    let bs = chars_to_ascii(&cs);
    parse_ipv4_bytes(bs.as_slice())
}

} // verus!
