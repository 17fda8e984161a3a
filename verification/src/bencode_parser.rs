//! Bencode: the value model, its canonical encoding and the parser.

use crate::bencode_order::{canonical, canonical_entries, canonical_items};
use crate::buffer::{bytes_as_slice, bytes_contents, bytes_from_slice, bytes_from_vec};
use crate::decimal::{i64_digits, lemma_nat_digits, lemma_parse_i64_digits, lemma_parse_unsigned_digits, int_digits, is_digit, nat_digits, parse_i64, parse_i64_range, parse_unsigned, parse_unsigned_range, u64_digits};
use crate::error::{bencode_error, Result, WebTorrentError};
use crate::text::string_from_utf8;
use vstd::utf8::{decode_utf8, valid_utf8};
use bytes::Bytes;
use vstd::prelude::*;

verus! {

/// The mathematical value of a bencoded item.  A dictionary is a list of
/// entries; in a well-formed value (`wf`) its keys strictly increase.
pub enum Bencode {
    Int(i64),
    Str(Seq<u8>),
    List(Seq<Bencode>),
    Dict(Seq<(Seq<u8>, Bencode)>),
}

/// A bencoded value.  A dictionary may hold its entries in any order; the
/// parser and `dict_insert_entry` keep its keys strictly increasing, and
/// encoding writes them so whatever the order held.
pub enum BencodeValue {
    Integer(i64),
    Bytes(Bytes),
    List(Vec<BencodeValue>),
    Dict(Vec<(Bytes, BencodeValue)>),
}

pub open spec fn value_view(v: BencodeValue) -> Bencode
    decreases v,
{
    match v {
        BencodeValue::Integer(i) => Bencode::Int(i),
        BencodeValue::Bytes(b) => Bencode::Str(bytes_contents(b)),
        BencodeValue::List(l) => Bencode::List(list_view(l@)),
        BencodeValue::Dict(d) => Bencode::Dict(dict_view(d@)),
    }
}

pub open spec fn list_view(l: Seq<BencodeValue>) -> Seq<Bencode>
    decreases l,
{
    Seq::new(l.len(), |i: int| if 0 <= i < l.len() { value_view(l[i]) } else { Bencode::Int(0) })
}

pub open spec fn dict_view(d: Seq<(Bytes, BencodeValue)>) -> Seq<(Seq<u8>, Bencode)>
    decreases d,
{
    Seq::new(
        d.len(),
        |i: int|
            if 0 <= i < d.len() {
                (bytes_contents(d[i].0), value_view(d[i].1))
            } else {
                (Seq::empty(), Bencode::Int(0))
            },
    )
}

impl View for BencodeValue {
    type V = Bencode;

    open spec fn view(&self) -> Bencode {
        value_view(*self)
    }
}

/// The encoding of a byte string: its length, a colon, its bytes.
pub open spec fn encode_str(s: Seq<u8>) -> Seq<u8> {
    nat_digits(s.len()) + seq![58u8] + s
}

/// The canonical encoding of a value.
pub open spec fn encode(v: Bencode) -> Seq<u8>
    decreases v,
{
    match v {
        Bencode::Int(i) => seq![105u8] + int_digits(i as int) + seq![101u8],
        Bencode::Str(s) => encode_str(s),
        Bencode::List(l) => seq![108u8] + encode_list(l) + seq![101u8],
        Bencode::Dict(d) => seq![100u8] + encode_dict(d) + seq![101u8],
    }
}

/// The encodings of the items, one after another.
pub open spec fn encode_list(l: Seq<Bencode>) -> Seq<u8>
    decreases l,
{
    if l.len() == 0 {
        Seq::empty()
    } else {
        encode(l[0]) + encode_list(l.subrange(1, l.len() as int))
    }
}

/// The encodings of each key, as a string, and its value, entry after entry.
pub open spec fn encode_dict(d: Seq<(Seq<u8>, Bencode)>) -> Seq<u8>
    decreases d,
{
    if d.len() == 0 {
        Seq::empty()
    } else {
        encode_str(d[0].0) + encode(d[0].1) + encode_dict(d.subrange(1, d.len() as int))
    }
}

/// The value of the first entry with key `k`.
pub open spec fn dict_get(d: Seq<(Seq<u8>, Bencode)>, k: Seq<u8>) -> Option<Bencode>
    decreases d.len(),
{
    if d.len() == 0 {
        None
    } else if d[0].0 == k {
        Some(d[0].1)
    } else {
        dict_get(d.subrange(1, d.len() as int), k)
    }
}

impl Bencode {
    /// The value under key `k` of a dictionary; `None` for other values.
    pub open spec fn get(self, k: Seq<u8>) -> Option<Bencode> {
        match self {
            Bencode::Dict(d) => dict_get(d, k),
            _ => None,
        }
    }
}

/// Byte-wise order of byte strings: the order of the first differing byte,
/// and a proper prefix before the longer string.
pub open spec fn lex_lt(a: Seq<u8>, b: Seq<u8>) -> bool
    decreases a.len(),
{
    if a.len() == 0 {
        b.len() > 0
    } else if b.len() == 0 {
        false
    } else if a[0] != b[0] {
        a[0] < b[0]
    } else {
        lex_lt(a.subrange(1, a.len() as int), b.subrange(1, b.len() as int))
    }
}

/// The number of leading entries whose key comes before `k`.
pub open spec fn key_pos(d: Seq<(Seq<u8>, Bencode)>, k: Seq<u8>) -> nat
    decreases d.len(),
{
    if d.len() == 0 {
        0
    } else if lex_lt(d[0].0, k) {
        1 + key_pos(d.subrange(1, d.len() as int), k)
    } else {
        0
    }
}

/// Stores `v` under `k`: the entry with key `k` gets the new value, or a new
/// entry goes in before the first key that does not come before `k`.
pub open spec fn dict_insert(d: Seq<(Seq<u8>, Bencode)>, k: Seq<u8>, v: Bencode) -> Seq<
    (Seq<u8>, Bencode),
> {
    let p = key_pos(d, k) as int;
    if p < d.len() && d[p].0 == k {
        d.update(p, (k, v))
    } else {
        d.insert(p, (k, v))
    }
}

/// The first position at or after `from` that holds `b`.
pub open spec fn find_byte(data: Seq<u8>, from: int, b: u8) -> Option<int>
    decreases data.len() - from,
{
    if from < 0 || from >= data.len() {
        None
    } else if data[from] == b {
        Some(from)
    } else {
        find_byte(data, from + 1, b)
    }
}

pub proof fn lemma_find_byte_range(data: Seq<u8>, from: int, b: u8)
    ensures
        find_byte(data, from, b) matches Some(p) ==> 0 <= from <= p < data.len() && data[p] == b,
        find_byte(data, from, b) matches Some(p) ==> forall|j: int| from <= j < p ==> data[j] != b,
    decreases data.len() - from,
{
    if 0 <= from < data.len() && data[from] != b {
        lemma_find_byte_range(data, from + 1, b);
    }
}

/// The outcome of parsing at a position: a value with the position after
/// it, a failure, or a byte-string length so large that the position after
/// it does not fit in a `usize` (the parser's arithmetic overflows there).
pub enum Parsed {
    Value(Bencode, int),
    Fail,
    Overflow,
}

/// An integer `i<digits>e` at `pos`.
pub open spec fn parse_int_at(data: Seq<u8>, pos: int) -> Parsed {
    match find_byte(data, pos + 1, 101u8) {
        None => Parsed::Fail,
        Some(e) => match parse_i64(data.subrange(pos + 1, e)) {
            Some(i) => Parsed::Value(Bencode::Int(i), e + 1),
            None => Parsed::Fail,
        },
    }
}

/// A byte string `<length>:<bytes>` at `pos`.
pub open spec fn parse_str_at(data: Seq<u8>, pos: int) -> Parsed {
    match find_byte(data, pos, 58u8) {
        None => Parsed::Fail,
        Some(c) => match parse_unsigned(data.subrange(pos, c), usize::MAX as nat) {
            None => Parsed::Fail,
            Some(n) => if c + 1 + n > usize::MAX {
                Parsed::Overflow
            } else if c + 1 + n > data.len() {
                Parsed::Fail
            } else {
                Parsed::Value(Bencode::Str(data.subrange(c + 1, c + 1 + n)), c + 1 + n)
            },
        },
    }
}

/// The value at `pos`.
pub open spec fn parse_at(data: Seq<u8>, pos: int) -> Parsed
    decreases data.len() - pos, 0int,
{
    if pos < 0 || pos >= data.len() {
        Parsed::Fail
    } else if data[pos] == 105u8 {
        parse_int_at(data, pos)
    } else if data[pos] == 108u8 {
        parse_items(data, pos + 1, Seq::empty())
    } else if data[pos] == 100u8 {
        parse_entries(data, pos + 1, Seq::empty())
    } else if is_digit(data[pos]) {
        parse_str_at(data, pos)
    } else {
        Parsed::Fail
    }
}

/// The rest of a list whose items so far are `acc`, from `pos` up to and
/// including its `e`.
pub open spec fn parse_items(data: Seq<u8>, pos: int, acc: Seq<Bencode>) -> Parsed
    decreases data.len() - pos, 1int,
{
    if pos < 0 || pos >= data.len() {
        Parsed::Fail
    } else if data[pos] == 101u8 {
        Parsed::Value(Bencode::List(acc), pos + 1)
    } else {
        match parse_at(data, pos) {
            Parsed::Value(v, next) => if pos < next <= data.len() {
                parse_items(data, next, acc.push(v))
            } else {
                Parsed::Fail
            },
            Parsed::Fail => Parsed::Fail,
            Parsed::Overflow => Parsed::Overflow,
        }
    }
}

/// The rest of a dictionary whose entries so far are `acc`, from `pos` up
/// to and including its `e`.  A key must be a byte string; a repeated key
/// keeps the last value.
pub open spec fn parse_entries(data: Seq<u8>, pos: int, acc: Seq<(Seq<u8>, Bencode)>) -> Parsed
    decreases data.len() - pos, 1int,
{
    if pos < 0 || pos >= data.len() {
        Parsed::Fail
    } else if data[pos] == 101u8 {
        Parsed::Value(Bencode::Dict(acc), pos + 1)
    } else {
        match parse_at(data, pos) {
            Parsed::Value(k, next) => match k {
                Bencode::Str(key) => if pos < next <= data.len() {
                    match parse_at(data, next) {
                        Parsed::Value(v, after) => if next < after <= data.len() {
                            parse_entries(data, after, dict_insert(acc, key, v))
                        } else {
                            Parsed::Fail
                        },
                        Parsed::Fail => Parsed::Fail,
                        Parsed::Overflow => Parsed::Overflow,
                    }
                } else {
                    Parsed::Fail
                },
                _ => Parsed::Fail,
            },
            Parsed::Fail => Parsed::Fail,
            Parsed::Overflow => Parsed::Overflow,
        }
    }
}

/// A value whose lists and dictionaries hold well-formed values and whose
/// dictionary keys strictly increase.
pub open spec fn wf(v: Bencode) -> bool
    decreases v,
{
    match v {
        Bencode::Int(_) => true,
        Bencode::Str(_) => true,
        Bencode::List(l) => wf_list(l),
        Bencode::Dict(d) => keys_increase(d) && wf_entries(d),
    }
}

/// Every item is well formed.
pub open spec fn wf_list(l: Seq<Bencode>) -> bool
    decreases l,
{
    l.len() == 0 || (wf(l[0]) && wf_list(l.subrange(1, l.len() as int)))
}

/// Every entry's value is well formed.
pub open spec fn wf_entries(d: Seq<(Seq<u8>, Bencode)>) -> bool
    decreases d,
{
    d.len() == 0 || (wf(d[0].1) && wf_entries(d.subrange(1, d.len() as int)))
}

/// The keys strictly increase.
pub open spec fn keys_increase(d: Seq<(Seq<u8>, Bencode)>) -> bool {
    forall|i: int, j: int| 0 <= i < j < d.len() ==> lex_lt(#[trigger] d[i].0, #[trigger] d[j].0)
}

pub proof fn lemma_find_byte_at(data: Seq<u8>, from: int, b: u8, p: int)
    requires
        0 <= from <= p < data.len(),
        data[p] == b,
        forall|j: int| from <= j < p ==> data[j] != b,
    ensures
        find_byte(data, from, b) == Some(p),
    decreases p - from,
{
    if from < p {
        lemma_find_byte_at(data, from + 1, b, p);
    }
}

/// A window of a window is a window of the whole.
pub proof fn lemma_window(data: Seq<u8>, pos: int, e: Seq<u8>, off: int, len: int)
    requires
        0 <= pos,
        pos + e.len() <= data.len(),
        data.subrange(pos, pos + e.len()) == e,
        0 <= off,
        0 <= len,
        off + len <= e.len(),
    ensures
        data.subrange(pos + off, pos + off + len) == e.subrange(off, off + len),
{
    assert forall|j: int| 0 <= j < len implies #[trigger] data.subrange(pos + off, pos + off + len)[j]
        == e.subrange(off, off + len)[j] by {
        assert(data.subrange(pos, pos + e.len())[off + j] == data[pos + off + j]);
    }
    assert(data.subrange(pos + off, pos + off + len) =~= e.subrange(off, off + len));
}

/// An encoding starts with a byte other than `e` and has at least two bytes.
pub proof fn lemma_encode_first(v: Bencode)
    ensures
        encode(v).len() >= 2,
        encode(v)[0] != 101u8,
        encode(v)[0] == 105u8 <==> v is Int,
        encode(v)[0] == 108u8 <==> v is List,
        encode(v)[0] == 100u8 <==> v is Dict,
        is_digit(encode(v)[0]) <==> v is Str,
{
    match v {
        Bencode::Str(s) => {
            lemma_nat_digits(s.len());
            assert(is_digit(nat_digits(s.len())[0]));
            assert(encode(v)[0] == nat_digits(s.len())[0]);
        },
        _ => {},
    }
}

/// The encoding of an integer parses back.
pub proof fn lemma_parse_int_encoded(data: Seq<u8>, pos: int, i: i64)
    requires
        0 <= pos,
        pos + encode(Bencode::Int(i)).len() <= data.len(),
        data.subrange(pos, pos + encode(Bencode::Int(i)).len()) == encode(Bencode::Int(i)),
    ensures
        parse_at(data, pos) == Parsed::Value(Bencode::Int(i), pos + encode(Bencode::Int(i)).len()),
{
    let t = int_digits(i as int);
    let e = encode(Bencode::Int(i));
    let n = t.len() as int;
    assert(e =~= seq![105u8] + t + seq![101u8]);
    assert(data[pos] == e[0]);
    if i < 0 {
        lemma_nat_digits((-i) as nat);
    } else {
        lemma_nat_digits(i as nat);
    }
    assert forall|j: int| pos + 1 <= j < pos + 1 + n implies data[j] != 101u8 by {
        assert(data[j] == e[j - pos]);
        assert(e[j - pos] == t[j - pos - 1]);
        if i < 0 {
            if j - pos - 1 > 0 {
                assert(t[j - pos - 1] == nat_digits((-i) as nat)[j - pos - 2]);
                assert(is_digit(nat_digits((-i) as nat)[j - pos - 2]));
            }
        } else {
            assert(is_digit(nat_digits(i as nat)[j - pos - 1]));
        }
    }
    assert(data[pos + 1 + n] == e[n + 1int]);
    lemma_find_byte_at(data, pos + 1, 101u8, pos + 1 + n);
    lemma_window(data, pos, e, 1, n);
    assert(e.subrange(1, 1 + n) =~= t);
    lemma_parse_i64_digits(i);
}

/// The encoding of a byte string parses back.
pub proof fn lemma_parse_str_encoded(data: Seq<u8>, pos: int, s: Seq<u8>)
    requires
        0 <= pos,
        pos + encode_str(s).len() <= data.len(),
        data.len() <= usize::MAX,
        data.subrange(pos, pos + encode_str(s).len()) == encode_str(s),
    ensures
        parse_at(data, pos) == Parsed::Value(Bencode::Str(s), pos + encode_str(s).len()),
{
    let t = nat_digits(s.len());
    let e = encode_str(s);
    let n = t.len() as int;
    lemma_nat_digits(s.len());
    assert(data[pos] == e[0]);
    assert(e[0] == t[0]);
    assert(is_digit(t[0]));
    assert forall|j: int| pos <= j < pos + n implies data[j] != 58u8 by {
        assert(data[j] == e[j - pos]);
        assert(e[j - pos] == t[j - pos]);
        assert(is_digit(t[j - pos]));
    }
    assert(data[pos + n] == e[n as int]);
    lemma_find_byte_at(data, pos, 58u8, pos + n);
    lemma_window(data, pos, e, 0, n);
    assert(e.subrange(0, n) =~= t);
    lemma_parse_unsigned_digits(s.len(), usize::MAX as nat);
    lemma_window(data, pos, e, n + 1, s.len() as int);
    assert(e.subrange(n + 1, n + 1 + s.len()) =~= s);
}

/// When every key so far comes before `k`, a new key goes last.
pub proof fn lemma_key_pos_after_all(d: Seq<(Seq<u8>, Bencode)>, k: Seq<u8>)
    requires
        forall|i: int| 0 <= i < d.len() ==> lex_lt(#[trigger] d[i].0, k),
    ensures
        key_pos(d, k) == d.len(),
    decreases d.len(),
{
    if d.len() > 0 {
        let rest = d.subrange(1, d.len() as int);
        assert forall|i: int| 0 <= i < rest.len() implies lex_lt(#[trigger] rest[i].0, k) by {
            assert(rest[i] == d[i + 1]);
        }
        lemma_key_pos_after_all(rest, k);
        assert(lex_lt(d[0].0, k));
    }
}

/// The encoding of a well-formed value parses back, whatever follows it.
pub proof fn lemma_parse_encoded(data: Seq<u8>, pos: int, v: Bencode)
    requires
        wf(v),
        0 <= pos,
        pos + encode(v).len() <= data.len(),
        data.len() <= usize::MAX,
        data.subrange(pos, pos + encode(v).len()) == encode(v),
    ensures
        parse_at(data, pos) == Parsed::Value(v, pos + encode(v).len()),
    decreases v,
{
    let e = encode(v);
    match v {
        Bencode::Int(i) => {
            lemma_parse_int_encoded(data, pos, i);
        },
        Bencode::Str(s) => {
            lemma_parse_str_encoded(data, pos, s);
        },
        Bencode::List(l) => {
            let el = encode_list(l);
            assert(e =~= seq![108u8] + el + seq![101u8]);
            assert(data[pos] == e[0]);
            lemma_window(data, pos, e, 1, el.len() as int);
            assert(e.subrange(1, 1 + el.len() as int) =~= el);
            assert(data[pos + 1 + el.len()] == e[el.len() + 1int]);
            lemma_parse_items(data, pos + 1, Seq::empty(), l);
            assert(Seq::<Bencode>::empty() + l =~= l);
        },
        Bencode::Dict(d) => {
            let ed = encode_dict(d);
            assert(e =~= seq![100u8] + ed + seq![101u8]);
            assert(data[pos] == e[0]);
            lemma_window(data, pos, e, 1, ed.len() as int);
            assert(e.subrange(1, 1 + ed.len() as int) =~= ed);
            assert(data[pos + 1 + ed.len()] == e[ed.len() + 1int]);
            lemma_parse_entries(data, pos + 1, Seq::empty(), d);
            assert(Seq::<(Seq<u8>, Bencode)>::empty() + d =~= d);
        },
    }
}

/// The encodings of well-formed items followed by `e` parse as the rest of
/// a list.
pub proof fn lemma_parse_items(data: Seq<u8>, p: int, acc: Seq<Bencode>, l: Seq<Bencode>)
    requires
        wf_list(l),
        0 <= p,
        p + encode_list(l).len() < data.len(),
        data.len() <= usize::MAX,
        data.subrange(p, p + encode_list(l).len()) == encode_list(l),
        data[p + encode_list(l).len()] == 101u8,
    ensures
        parse_items(data, p, acc) == Parsed::Value(
            Bencode::List(acc + l),
            p + encode_list(l).len() + 1,
        ),
    decreases l,
{
    if l.len() == 0 {
        assert(acc + l =~= acc);
    } else {
        let rest = l.subrange(1, l.len() as int);
        let e0 = encode(l[0]);
        let er = encode_list(rest);
        assert(encode_list(l) == e0 + er);
        lemma_window(data, p, encode_list(l), 0, e0.len() as int);
        assert(encode_list(l).subrange(0, e0.len() as int) =~= e0);
        assert(wf(l[0]));
        lemma_parse_encoded(data, p, l[0]);
        lemma_encode_first(l[0]);
        assert(data[p] == e0[0]);
        lemma_window(data, p, encode_list(l), e0.len() as int, er.len() as int);
        assert(encode_list(l).subrange(e0.len() as int, e0.len() + er.len() as int) =~= er);
        lemma_parse_items(data, p + e0.len(), acc.push(l[0]), rest);
        assert(acc.push(l[0]) + rest =~= acc + l);
    }
}

/// The encodings of entries with increasing keys, all after the keys so far,
/// followed by `e` parse as the rest of a dictionary.
pub proof fn lemma_parse_entries(
    data: Seq<u8>,
    p: int,
    acc: Seq<(Seq<u8>, Bencode)>,
    rest: Seq<(Seq<u8>, Bencode)>,
)
    requires
        wf_entries(rest),
        keys_increase(rest),
        forall|i: int, j: int|
            0 <= i < acc.len() && 0 <= j < rest.len() ==> lex_lt(#[trigger] acc[i].0, #[trigger] rest[j].0),
        0 <= p,
        p + encode_dict(rest).len() < data.len(),
        data.len() <= usize::MAX,
        data.subrange(p, p + encode_dict(rest).len()) == encode_dict(rest),
        data[p + encode_dict(rest).len()] == 101u8,
    ensures
        parse_entries(data, p, acc) == Parsed::Value(
            Bencode::Dict(acc + rest),
            p + encode_dict(rest).len() + 1,
        ),
    decreases rest,
{
    if rest.len() == 0 {
        assert(acc + rest =~= acc);
    } else {
        let tail = rest.subrange(1, rest.len() as int);
        let k0 = rest[0].0;
        let v0 = rest[0].1;
        let ek = encode_str(k0);
        let ev = encode(v0);
        let et = encode_dict(tail);
        assert(encode_dict(rest) == ek + ev + et);
        let ed = encode_dict(rest);
        lemma_window(data, p, ed, 0, ek.len() as int);
        assert(ed.subrange(0, ek.len() as int) =~= ek);
        lemma_parse_str_encoded(data, p, k0);
        lemma_nat_digits(k0.len());
        assert(data[p] == ek[0]);
        assert(ek[0] == nat_digits(k0.len())[0]);
        assert(is_digit(nat_digits(k0.len())[0]));
        lemma_window(data, p, ed, ek.len() as int, ev.len() as int);
        assert(ed.subrange(ek.len() as int, ek.len() + ev.len() as int) =~= ev);
        assert(wf(rest[0].1));
        assert(decreases_to!(rest => rest[0]));
        lemma_parse_encoded(data, p + ek.len(), v0);
        lemma_encode_first(v0);
        assert forall|i: int| 0 <= i < acc.len() implies lex_lt(#[trigger] acc[i].0, k0) by {
            assert(lex_lt(acc[i].0, rest[0].0));
        }
        lemma_key_pos_after_all(acc, k0);
        assert(dict_insert(acc, k0, v0) =~= acc.push((k0, v0)));
        let acc2 = acc.push((k0, v0));
        assert forall|i: int, j: int| 0 <= i < j < tail.len() implies lex_lt(
            #[trigger] tail[i].0,
            #[trigger] tail[j].0,
        ) by {
            assert(tail[i] == rest[i + 1]);
            assert(tail[j] == rest[j + 1]);
            assert(lex_lt(rest[i + 1].0, rest[j + 1].0));
        }
        assert forall|i: int, j: int| 0 <= i < acc2.len() && 0 <= j < tail.len() implies lex_lt(
            #[trigger] acc2[i].0,
            #[trigger] tail[j].0,
        ) by {
            assert(tail[j] == rest[j + 1]);
            if i < acc.len() {
                assert(acc2[i] == acc[i]);
                assert(lex_lt(acc[i].0, rest[j + 1].0));
            } else {
                assert(acc2[i] == rest[0]);
                assert(lex_lt(rest[0].0, rest[j + 1].0));
            }
        }
        lemma_window(data, p, ed, (ek.len() + ev.len()) as int, et.len() as int);
        assert(ed.subrange((ek.len() + ev.len()) as int, (ek.len() + ev.len() + et.len()) as int) =~= et);
        lemma_parse_entries(data, p + ek.len() + ev.len(), acc2, tail);
        assert(acc2 + tail =~= acc + rest);
    }
}

/// Parsing the encoding of a well-formed value, whatever bytes follow it,
/// gives back the value and the position just after its encoding.
pub proof fn roundtrip_parse_encode(v: Bencode, rest: Seq<u8>)
    requires
        wf(v),
        encode(v).len() + rest.len() <= usize::MAX,
    ensures
        parse_at(encode(v) + rest, 0) == Parsed::Value(v, encode(v).len() as int),
{
    let data = encode(v) + rest;
    assert(data.subrange(0, encode(v).len() as int) =~= encode(v));
    lemma_parse_encoded(data, 0, v);
}

/// Appending lists appends their encodings.
pub proof fn lemma_encode_list_append(a: Seq<Bencode>, b: Seq<Bencode>)
    ensures
        encode_list(a + b) == encode_list(a) + encode_list(b),
    decreases a.len(),
{
    if a.len() == 0 {
        assert(a + b =~= b);
        assert(encode_list(a) =~= Seq::<u8>::empty());
        assert(encode_list(a) + encode_list(b) =~= encode_list(b));
    } else {
        let rest = a.subrange(1, a.len() as int);
        lemma_encode_list_append(rest, b);
        assert((a + b).subrange(1, (a + b).len() as int) =~= rest + b);
        assert((a + b)[0] == a[0]);
        assert(encode_list(a + b) =~= encode(a[0]) + encode_list(rest + b));
        assert(encode_list(a) + encode_list(b) =~= encode(a[0]) + (encode_list(rest) + encode_list(b)));
    }
}

/// Appending entry lists appends their encodings.
pub proof fn lemma_encode_dict_append(a: Seq<(Seq<u8>, Bencode)>, b: Seq<(Seq<u8>, Bencode)>)
    ensures
        encode_dict(a + b) == encode_dict(a) + encode_dict(b),
    decreases a.len(),
{
    if a.len() == 0 {
        assert(a + b =~= b);
        assert(encode_dict(a) =~= Seq::<u8>::empty());
        assert(encode_dict(a) + encode_dict(b) =~= encode_dict(b));
    } else {
        let rest = a.subrange(1, a.len() as int);
        lemma_encode_dict_append(rest, b);
        assert((a + b).subrange(1, (a + b).len() as int) =~= rest + b);
        assert((a + b)[0] == a[0]);
        assert(encode_dict(a + b) =~= encode_str(a[0].0) + encode(a[0].1) + encode_dict(rest + b));
        assert(encode_dict(a) + encode_dict(b) =~= encode_str(a[0].0) + encode(a[0].1) + (
        encode_dict(rest) + encode_dict(b)));
    }
}

pub proof fn lemma_encode_list_one(v: Bencode)
    ensures
        encode_list(seq![v]) == encode(v),
{
    assert(seq![v].subrange(1, 1) =~= Seq::<Bencode>::empty());
    assert(encode_list(Seq::<Bencode>::empty()) =~= Seq::<u8>::empty());
    assert(encode_list(seq![v]) =~= encode(v) + Seq::<u8>::empty());
}

pub proof fn lemma_encode_dict_one(e: (Seq<u8>, Bencode))
    ensures
        encode_dict(seq![e]) == encode_str(e.0) + encode(e.1),
{
    assert(seq![e].subrange(1, 1) =~= Seq::<(Seq<u8>, Bencode)>::empty());
    assert(encode_dict(Seq::<(Seq<u8>, Bencode)>::empty()) =~= Seq::<u8>::empty());
    assert(encode_dict(seq![e]) =~= encode_str(e.0) + encode(e.1) + Seq::<u8>::empty());
}

/// Appends the bytes of `s` to `buf`.
pub fn append_bytes(buf: &mut Vec<u8>, s: &[u8])
    ensures
        final(buf)@ == old(buf)@ + s@,
{
    let mut i: usize = 0;
    while i < s.len()
        invariant
            0 <= i <= s.len(),
            buf@ =~= old(buf)@ + s@.subrange(0, i as int),
        decreases s.len() - i,
    {
        buf.push(s[i]);
        i = i + 1;
    }
    proof {
        assert(s@.subrange(0, s@.len() as int) =~= s@);
    }
}

/// Appends the encoding of a byte string.
fn encode_bytes_into(b: &[u8], buf: &mut Vec<u8>)
    ensures
        final(buf)@ == old(buf)@ + encode_str(b@),
{
    let digits = u64_digits(b.len() as u64);
    append_bytes(buf, digits.as_slice());
    buf.push(58u8);
    append_bytes(buf, b);
    proof {
        assert(final(buf)@ =~= old(buf)@ + encode_str(b@));
    }
}

impl BencodeValue {
    /// The integer, for an integer value.
    pub fn as_integer(&self) -> (r: Option<i64>)
        ensures
            r == (match self@ {
                Bencode::Int(i) => Some(i),
                _ => None::<i64>,
            }),
    {
        match self {
            BencodeValue::Integer(i) => Some(*i),
            _ => None,
        }
    }

    /// The bytes, for a byte-string value.
    pub fn as_bytes(&self) -> (r: Option<&Bytes>)
        ensures
            r is Some <==> self@ is Str,
            r matches Some(b) ==> self@ == Bencode::Str(bytes_contents(*b)),
    {
        match self {
            BencodeValue::Bytes(b) => Some(b),
            _ => None,
        }
    }

    /// The string, for a byte string that is valid UTF-8.
    pub fn as_string(&self) -> (r: Option<String>)
        ensures
            match self@ {
                Bencode::Str(s) => (r is Some <==> valid_utf8(s)) && (r matches Some(t) ==> t@
                    == decode_utf8(s)),
                _ => r is None,
            },
    {
        match self {
            BencodeValue::Bytes(b) => string_from_utf8(vstd::slice::slice_to_vec(bytes_as_slice(b))),
            _ => None,
        }
    }

    /// The items, for a list value.
    pub fn as_list(&self) -> (r: Option<&Vec<BencodeValue>>)
        ensures
            r is Some <==> self@ is List,
            r matches Some(l) ==> self@ == Bencode::List(list_view(l@)),
    {
        match self {
            BencodeValue::List(l) => Some(l),
            _ => None,
        }
    }

    /// The entries, for a dictionary value.
    pub fn as_dict(&self) -> (r: Option<&Vec<(Bytes, BencodeValue)>>)
        ensures
            r is Some <==> self@ is Dict,
            r matches Some(d) ==> self@ == Bencode::Dict(dict_view(d@)),
    {
        match self {
            BencodeValue::Dict(d) => Some(d),
            _ => None,
        }
    }

    /// The value under `key`, for a dictionary value.
    pub fn get(&self, key: &[u8]) -> (r: Option<&BencodeValue>)
        ensures
            r is Some <==> self@.get(key@) is Some,
            r matches Some(x) ==> self@.get(key@) == Some(x@),
    {
        match self {
            BencodeValue::Dict(d) => {
                let ghost dv = dict_view(d@);
                let mut i: usize = 0;
                proof {
                    assert(dv.subrange(0, dv.len() as int) =~= dv);
                }
                while i < d.len()
                    invariant
                        0 <= i <= d.len(),
                        dv == dict_view(d@),
                        self@ == Bencode::Dict(dv),
                        dict_get(dv, key@) == dict_get(dv.subrange(i as int, dv.len() as int), key@),
                    decreases d.len() - i,
                {
                    let ghost rest = dv.subrange(i as int, dv.len() as int);
                    proof {
                        assert(rest[0] == dv[i as int]);
                        assert(rest.subrange(1, rest.len() as int) =~= dv.subrange(i + 1, dv.len() as int));
                    }
                    if bytes_eq(bytes_as_slice(&d[i].0), key) {
                        return Some(&d[i].1);
                    }
                    i = i + 1;
                }
                None
            },
            _ => None,
        }
    }

    /// The canonical encoding of this value: the keys of every dictionary
    /// in increasing byte order, a repeated key written once with its last
    /// value, so that equal dictionaries encode to equal bytes.
    pub fn encode(&self) -> (r: Bytes)
        ensures
            bytes_contents(r) == encode(canonical(self@)),
    {
        let mut buf: Vec<u8> = Vec::new();
        self.encode_into(&mut buf);
        proof {
            assert(buf@ =~= encode(canonical(self@)));
        }
        bytes_from_vec(buf)
    }

    /// Appends the canonical encoding of this value to `buf`.
    pub fn encode_into(&self, buf: &mut Vec<u8>)
        ensures
            final(buf)@ == old(buf)@ + encode(canonical(self@)),
        decreases self,
    {
        match self {
            BencodeValue::Integer(i) => {
                buf.push(105u8);
                let digits = i64_digits(*i);
                append_bytes(buf, digits.as_slice());
                buf.push(101u8);
                proof {
                    assert(final(buf)@ =~= old(buf)@ + encode(canonical(self@)));
                }
            },
            BencodeValue::Bytes(b) => {
                encode_bytes_into(bytes_as_slice(b), buf);
            },
            BencodeValue::List(l) => {
                buf.push(108u8);
                let ghost start = buf@;
                let ghost items = list_view(l@);
                let mut i: usize = 0;
                proof {
                    assert(items.subrange(0, 0) =~= Seq::<Bencode>::empty());
                    assert(encode_list(canonical_items(items.subrange(0, 0))) =~= Seq::<u8>::empty());
                }
                while i < l.len()
                    invariant
                        0 <= i <= l.len(),
                        items == list_view(l@),
                        *self == BencodeValue::List(*l),
                        buf@ == start + encode_list(canonical_items(items.subrange(0, i as int))),
                    decreases l.len() - i,
                {
                    proof {
                        vstd::std_specs::vec::axiom_vec_index_decreases(*l, i as int);
                        assert(decreases_to!(*self => self->List_0));
                    }
                    l[i].encode_into(buf);
                    proof {
                        let done = items.subrange(0, i as int);
                        let next = items.subrange(0, i + 1);
                        assert(items[i as int] == l@[i as int]@);
                        assert(next.drop_last() =~= done);
                        assert(next[next.len() - 1] == items[i as int]);
                        let c = canonical(items[i as int]);
                        assert(canonical_items(next) == canonical_items(done).push(c));
                        assert(canonical_items(done).push(c) =~= canonical_items(done) + seq![c]);
                        lemma_encode_list_append(canonical_items(done), seq![c]);
                        lemma_encode_list_one(c);
                        assert(buf@ =~= start + encode_list(canonical_items(next)));
                    }
                    i = i + 1;
                }
                buf.push(101u8);
                proof {
                    assert(items.subrange(0, l.len() as int) =~= items);
                    assert(final(buf)@ =~= old(buf)@ + encode(canonical(self@)));
                }
            },
            BencodeValue::Dict(d) => {
                buf.push(100u8);
                let ghost start = buf@;
                let order = entry_order(d);
                let ghost ov = order_view(d@, order@);
                let mut j: usize = 0;
                proof {
                    assert(ov.subrange(0, 0) =~= Seq::<(Seq<u8>, Bencode)>::empty());
                    assert(encode_dict(ov.subrange(0, 0)) =~= Seq::<u8>::empty());
                }
                while j < order.len()
                    invariant
                        0 <= j <= order.len(),
                        ov == order_view(d@, order@),
                        forall|q: int| 0 <= q < order@.len() ==> order@[q] < d@.len(),
                        *self == BencodeValue::Dict(*d),
                        buf@ == start + encode_dict(ov.subrange(0, j as int)),
                    decreases order.len() - j,
                {
                    let k = order[j];
                    proof {
                        vstd::std_specs::vec::axiom_vec_index_decreases(*d, k as int);
                        assert(decreases_to!(*self => self->Dict_0));
                        assert(decreases_to!(d[k as int] => d[k as int].1));
                    }
                    let (key, value) = &d[k];
                    encode_bytes_into(bytes_as_slice(key), buf);
                    value.encode_into(buf);
                    proof {
                        let e = ov[j as int];
                        assert(e == (bytes_contents(d@[k as int].0), canonical(d@[k as int].1@)));
                        assert(ov.subrange(0, j + 1) =~= ov.subrange(0, j as int) + seq![e]);
                        lemma_encode_dict_append(ov.subrange(0, j as int), seq![e]);
                        lemma_encode_dict_one(e);
                        assert(buf@ =~= start + encode_dict(ov.subrange(0, j + 1)));
                    }
                    j = j + 1;
                }
                buf.push(101u8);
                proof {
                    assert(ov.subrange(0, order@.len() as int) =~= ov);
                    assert(final(buf)@ =~= old(buf)@ + encode(canonical(self@)));
                }
            },
        }
    }
}

/// The entries that the indices `order` pick from `d`, each value in
/// canonical form.
spec fn order_view(d: Seq<(Bytes, BencodeValue)>, order: Seq<usize>) -> Seq<(Seq<u8>, Bencode)> {
    Seq::new(order.len(), |j: int| (bytes_contents(d[order[j] as int].0), canonical(d[order[j] as int].1@)))
}

/// The position `key_pos` gives, told by the keys before and at it.
proof fn lemma_key_pos_is(d: Seq<(Seq<u8>, Bencode)>, k: Seq<u8>, p: int)
    requires
        keys_increase(d),
        0 <= p <= d.len(),
        forall|q: int| 0 <= q < p ==> lex_lt(#[trigger] d[q].0, k),
        p < d.len() ==> !lex_lt(d[p].0, k),
    ensures
        key_pos(d, k) == p,
{
    crate::bencode_order::lemma_key_pos_split(d, k);
    let kp = key_pos(d, k) as int;
    if kp < p {
        assert(lex_lt(d[kp].0, k));
    }
    if p < kp {
        assert(lex_lt(d[p].0, k));
    }
}

/// The indices of the entries of `d` in the order the canonical form holds
/// them: increasing keys, and of entries with equal keys the last.
fn entry_order(d: &Vec<(Bytes, BencodeValue)>) -> (order: Vec<usize>)
    ensures
        forall|q: int| 0 <= q < order@.len() ==> order@[q] < d@.len(),
        order_view(d@, order@) == canonical_entries(dict_view(d@)),
{
    let ghost entries = dict_view(d@);
    let mut order: Vec<usize> = Vec::new();
    let mut i: usize = 0;
    proof {
        assert(entries.subrange(0, 0) =~= Seq::<(Seq<u8>, Bencode)>::empty());
        assert(order_view(d@, order@) =~= canonical_entries(entries.subrange(0, 0)));
    }
    while i < d.len()
        invariant
            0 <= i <= d@.len(),
            entries == dict_view(d@),
            forall|q: int| 0 <= q < order@.len() ==> order@[q] < i,
            order_view(d@, order@) == canonical_entries(entries.subrange(0, i as int)),
        decreases d@.len() - i,
    {
        let ghost ov = order_view(d@, order@);
        proof {
            crate::bencode_order::lemma_canonical_entries_wf(entries.subrange(0, i as int));
        }
        let key = bytes_as_slice(&d[i].0);
        let mut p: usize = 0;
        while p < order.len()
            invariant
                0 <= p <= order@.len(),
                ov == order_view(d@, order@),
                forall|q: int| 0 <= q < order@.len() ==> order@[q] < i,
                i < d@.len(),
                forall|q: int| 0 <= q < p ==> lex_lt(#[trigger] ov[q].0, key@),
            ensures
                0 <= p <= order@.len(),
                forall|q: int| 0 <= q < p ==> lex_lt(#[trigger] ov[q].0, key@),
                p < order@.len() ==> !lex_lt(ov[p as int].0, key@),
            decreases order@.len() - p,
        {
            let other = bytes_as_slice(&d[order[p]].0);
            if !bytes_lt(other, key) {
                break;
            }
            p = p + 1;
        }
        proof {
            lemma_key_pos_is(ov, key@, p as int);
        }
        let same = p < order.len() && bytes_eq(bytes_as_slice(&d[order[p]].0), key);
        let ghost e = (bytes_contents(d@[i as int].0), canonical(d@[i as int].1@));
        if same {
            order.set(p, i);
            proof {
                assert(order_view(d@, order@) =~= ov.update(p as int, e));
            }
        } else {
            order.insert(p, i);
            proof {
                assert(order_view(d@, order@) =~= ov.insert(p as int, e));
            }
        }
        proof {
            let next = entries.subrange(0, i + 1);
            assert(next.drop_last() =~= entries.subrange(0, i as int));
            assert(next[next.len() - 1] == entries[i as int]);
            assert(entries[i as int] == (bytes_contents(d@[i as int].0), d@[i as int].1@));
            assert(order_view(d@, order@) == dict_insert(ov, e.0, e.1));
        }
        i = i + 1;
    }
    proof {
        assert(entries.subrange(0, d@.len() as int) =~= entries);
    }
    order
}

/// Whether `a` comes before `b` in byte-wise order.
pub fn bytes_lt(a: &[u8], b: &[u8]) -> (r: bool)
    ensures
        r == lex_lt(a@, b@),
{
    let mut i: usize = 0;
    proof {
        assert(a@.subrange(0, a@.len() as int) =~= a@);
        assert(b@.subrange(0, b@.len() as int) =~= b@);
    }
    while i < a.len() && i < b.len() && a[i] == b[i]
        invariant
            0 <= i <= a.len(),
            i <= b.len(),
            lex_lt(a@, b@) == lex_lt(a@.subrange(i as int, a@.len() as int), b@.subrange(i as int, b@.len() as int)),
        decreases a.len() - i,
    {
        proof {
            let sa = a@.subrange(i as int, a@.len() as int);
            let sb = b@.subrange(i as int, b@.len() as int);
            assert(sa.subrange(1, sa.len() as int) =~= a@.subrange(i + 1, a@.len() as int));
            assert(sb.subrange(1, sb.len() as int) =~= b@.subrange(i + 1, b@.len() as int));
        }
        i = i + 1;
    }
    proof {
        let sa = a@.subrange(i as int, a@.len() as int);
        let sb = b@.subrange(i as int, b@.len() as int);
        if i < a.len() && i < b.len() {
            assert(sa[0] == a@[i as int]);
            assert(sb[0] == b@[i as int]);
        }
    }
    if i == a.len() {
        i < b.len()
    } else if i == b.len() {
        false
    } else {
        a[i] < b[i]
    }
}

/// Whether two byte strings are equal.
pub fn bytes_eq(a: &[u8], b: &[u8]) -> (r: bool)
    ensures
        r == (a@ == b@),
{
    if a.len() != b.len() {
        return false;
    }
    let mut i: usize = 0;
    while i < a.len()
        invariant
            0 <= i <= a.len(),
            a.len() == b.len(),
            forall|j: int| 0 <= j < i ==> a@[j] == b@[j],
        decreases a.len() - i,
    {
        if a[i] != b[i] {
            return false;
        }
        i = i + 1;
    }
    proof {
        assert(a@ =~= b@);
    }
    true
}

/// The first position at or after `from` that holds `b`.
pub fn find_byte_from(data: &[u8], from: usize, b: u8) -> (r: Option<usize>)
    ensures
        r == (match find_byte(data@, from as int, b) {
            Some(p) => Some(p as usize),
            None => None::<usize>,
        }),
        r matches Some(p) ==> from <= p < data@.len(),
{
    let mut i = from;
    while i < data.len()
        invariant
            from <= i,
            find_byte(data@, from as int, b) == find_byte(data@, i as int, b),
        decreases data.len() - i,
    {
        if data[i] == b {
            return Some(i);
        }
        i = i + 1;
    }
    None
}

/// Stores `v` under `k` in a dictionary, as `dict_insert` describes.
pub fn dict_insert_entry(d: &mut Vec<(Bytes, BencodeValue)>, k: Bytes, v: BencodeValue)
    ensures
        dict_view(final(d)@) == dict_insert(dict_view(old(d)@), bytes_contents(k), v@),
{
    let ghost dv = dict_view(d@);
    let ghost kv = bytes_contents(k);
    let mut i: usize = 0;
    proof {
        assert(dv.subrange(0, dv.len() as int) =~= dv);
    }
    while i < d.len() && bytes_lt(bytes_as_slice(&d[i].0), bytes_as_slice(&k))
        invariant
            0 <= i <= d.len(),
            dv == dict_view(d@),
            kv == bytes_contents(k),
            key_pos(dv, kv) == i + key_pos(dv.subrange(i as int, dv.len() as int), kv),
        decreases d.len() - i,
    {
        proof {
            let rest = dv.subrange(i as int, dv.len() as int);
            assert(rest.subrange(1, rest.len() as int) =~= dv.subrange(i + 1, dv.len() as int));
            assert(rest[0] == dv[i as int]);
        }
        i = i + 1;
    }
    proof {
        let rest = dv.subrange(i as int, dv.len() as int);
        if i < d.len() {
            assert(rest[0] == dv[i as int]);
        }
        assert(key_pos(dv, kv) == i);
    }
    if i < d.len() && bytes_eq(bytes_as_slice(&d[i].0), bytes_as_slice(&k)) {
        d.set(i, (k, v));
        proof {
            assert(dict_view(d@) =~= dv.update(i as int, (kv, v@)));
        }
    } else {
        d.insert(i, (k, v));
        proof {
            assert(dict_view(d@) =~= dv.insert(i as int, (kv, v@)));
        }
    }
}

/// Why the parser stopped: a bencode error, or a byte-string length whose
/// end position does not fit in a `usize`.
enum ParseStop {
    Invalid(WebTorrentError),
    Overflow,
}

/// The parser's outcome, as `parsed` describes it.
spec fn outcome_matches(parsed: Parsed, r: core::result::Result<BencodeValue, ParseStop>) -> bool {
    match parsed {
        Parsed::Value(v, _) => r matches Ok(val) && val@ == v,
        Parsed::Fail => r matches Err(ParseStop::Invalid(e)) && e is Bencode,
        Parsed::Overflow => r matches Err(ParseStop::Overflow),
    }
}

/// Whether a byte-string length in the first bencoded value of `data`
/// ends past what a `usize` can count, where parsing would overflow.
pub fn parse_overflows(data: &[u8]) -> (r: bool)
    ensures
        r == (parse_at(data@, 0) == Parsed::Overflow),
{
    let mut pos: usize = 0;
    match parse_value(data, &mut pos) {
        Err(ParseStop::Overflow) => true,
        _ => false,
    }
}

/// Parses the first bencoded value of `data`; gives the value and the
/// position just after it.  The byte-string lengths in `data` must leave
/// positions that fit in a `usize` (`parse_overflows` tells).
pub fn parse_bencode(data: &[u8]) -> (r: Result<(BencodeValue, usize)>)
    requires
        parse_at(data@, 0) != Parsed::Overflow,
    ensures
        match parse_at(data@, 0) {
            Parsed::Value(v, p) => r matches Ok((val, q)) && val@ == v && q == p,
            _ => r matches Err(e) && e is Bencode,
        },
        r matches Ok((val, _)) ==> wf(val@),
{
    proof {
        crate::bencode_order::lemma_parse_at_wf(data@, 0);
    }
    let mut pos: usize = 0;
    match parse_value(data, &mut pos) {
        Ok(value) => Ok((value, pos)),
        Err(ParseStop::Invalid(e)) => Err(e),
        Err(ParseStop::Overflow) => Err(bencode_error("Bytes length overflows")),
    }
}

fn parse_value(data: &[u8], pos: &mut usize) -> (r: core::result::Result<BencodeValue, ParseStop>)
    ensures
        outcome_matches(parse_at(data@, *old(pos) as int), r),
        parse_at(data@, *old(pos) as int) matches Parsed::Value(_, p) ==> *final(pos) == p,
        r is Ok ==> *old(pos) < *final(pos) <= data@.len(),
    decreases data@.len() - *old(pos), 1int,
{
    if *pos >= data.len() {
        return Err(ParseStop::Invalid(bencode_error("Unexpected end of data")));
    }
    let c = data[*pos];
    if c == 105u8 {
        parse_integer(data, pos)
    } else if c == 108u8 {
        parse_list(data, pos)
    } else if c == 100u8 {
        parse_dict(data, pos)
    } else if 48u8 <= c && c <= 57u8 {
        parse_bytes(data, pos)
    } else {
        Err(ParseStop::Invalid(bencode_error("Unexpected byte")))
    }
}

fn parse_integer(data: &[u8], pos: &mut usize) -> (r: core::result::Result<BencodeValue, ParseStop>)
    requires
        *old(pos) < data@.len(),
    ensures
        outcome_matches(parse_int_at(data@, *old(pos) as int), r),
        parse_int_at(data@, *old(pos) as int) matches Parsed::Value(_, p) ==> *final(pos) == p,
        r is Ok ==> *old(pos) < *final(pos) <= data@.len(),
{
    let n = data.len();
    let start = *pos + 1;
    proof {
        lemma_find_byte_range(data@, start as int, 101u8);
    }
    match find_byte_from(data, start, 101u8) {
        None => {
            *pos = data.len();
            Err(ParseStop::Invalid(bencode_error("Integer not terminated")))
        },
        Some(e) => {
            match parse_i64_range(data, start, e) {
                Some(i) => {
                    *pos = e + 1;
                    Ok(BencodeValue::Integer(i))
                },
                None => Err(ParseStop::Invalid(bencode_error("Invalid integer"))),
            }
        },
    }
}

fn parse_bytes(data: &[u8], pos: &mut usize) -> (r: core::result::Result<BencodeValue, ParseStop>)
    requires
        *old(pos) < data@.len(),
    ensures
        outcome_matches(parse_str_at(data@, *old(pos) as int), r),
        parse_str_at(data@, *old(pos) as int) matches Parsed::Value(_, p) ==> *final(pos) == p,
        r is Ok ==> *old(pos) < *final(pos) <= data@.len(),
{
    let total = data.len();
    let start = *pos;
    proof {
        lemma_find_byte_range(data@, start as int, 58u8);
    }
    match find_byte_from(data, start, 58u8) {
        None => {
            *pos = data.len();
            Err(ParseStop::Invalid(bencode_error("Bytes length not terminated")))
        },
        Some(c) => {
            match parse_unsigned_range(data, start, c, usize::MAX as u64) {
                None => Err(ParseStop::Invalid(bencode_error("Invalid bytes length"))),
                Some(n) => {
                    let len = n as usize;
                    let from = c + 1;
                    if len > usize::MAX - from {
                        return Err(ParseStop::Overflow);
                    }
                    if len > data.len() - from {
                        return Err(ParseStop::Invalid(bencode_error("Bytes length exceeds data")));
                    }
                    let b = bytes_from_slice(vstd::slice::slice_subrange(data, from, from + len));
                    *pos = from + len;
                    Ok(BencodeValue::Bytes(b))
                },
            }
        },
    }
}

fn parse_list(data: &[u8], pos: &mut usize) -> (r: core::result::Result<BencodeValue, ParseStop>)
    requires
        *old(pos) < data@.len(),
        data@[*old(pos) as int] == 108u8,
    ensures
        outcome_matches(parse_items(data@, *old(pos) + 1, Seq::empty()), r),
        parse_items(data@, *old(pos) + 1, Seq::empty()) matches Parsed::Value(_, p) ==> *final(pos) == p,
        r is Ok ==> *old(pos) < *final(pos) <= data@.len(),
    decreases data@.len() - *old(pos), 0int,
{
    let n = data.len();
    let ghost start = *pos + 1;
    *pos = *pos + 1;
    let mut list: Vec<BencodeValue> = Vec::new();
    proof {
        assert(list_view(list@) =~= Seq::<Bencode>::empty());
    }
    while *pos < data.len() && data[*pos] != 101u8
        invariant
            start <= *pos <= data@.len(),
            start == *old(pos) + 1,
            parse_items(data@, start, Seq::empty()) == parse_items(data@, *pos as int, list_view(list@)),
        decreases data@.len() - *pos,
    {
        let ghost before = *pos;
        let v = parse_value(data, pos)?;
        proof {
            assert(list_view(list@.push(v)) =~= list_view(list@).push(v@));
        }
        list.push(v);
    }
    if *pos >= data.len() {
        return Err(ParseStop::Invalid(bencode_error("List not terminated")));
    }
    *pos = *pos + 1;
    Ok(BencodeValue::List(list))
}

fn parse_dict(data: &[u8], pos: &mut usize) -> (r: core::result::Result<BencodeValue, ParseStop>)
    requires
        *old(pos) < data@.len(),
        data@[*old(pos) as int] == 100u8,
    ensures
        outcome_matches(parse_entries(data@, *old(pos) + 1, Seq::empty()), r),
        parse_entries(data@, *old(pos) + 1, Seq::empty()) matches Parsed::Value(_, p) ==> *final(pos) == p,
        r is Ok ==> *old(pos) < *final(pos) <= data@.len(),
    decreases data@.len() - *old(pos), 0int,
{
    let n = data.len();
    let ghost start = *pos + 1;
    *pos = *pos + 1;
    let mut dict: Vec<(Bytes, BencodeValue)> = Vec::new();
    proof {
        assert(dict_view(dict@) =~= Seq::<(Seq<u8>, Bencode)>::empty());
    }
    while *pos < data.len() && data[*pos] != 101u8
        invariant
            start <= *pos <= data@.len(),
            start == *old(pos) + 1,
            parse_entries(data@, start, Seq::empty()) == parse_entries(data@, *pos as int, dict_view(dict@)),
        decreases data@.len() - *pos,
    {
        let key_value = parse_value(data, pos)?;
        let key = match key_value {
            BencodeValue::Bytes(b) => b,
            _ => {
                return Err(ParseStop::Invalid(bencode_error("Dictionary key must be bytes")));
            },
        };
        let value = parse_value(data, pos)?;
        dict_insert_entry(&mut dict, key, value);
    }
    if *pos >= data.len() {
        return Err(ParseStop::Invalid(bencode_error("Dictionary not terminated")));
    }
    *pos = *pos + 1;
    Ok(BencodeValue::Dict(dict))
}

} // verus!
