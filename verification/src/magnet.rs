//! Magnet links: reading the fields of a `magnet:?` URI and writing one.

use crate::codecs::{
    base32_decode, base32_decoded, hex_decode, hex_decoded, hex_digit_lower, hex_encode, hex_text, hex_value, pair_texts, parse_query_pairs,
    percent_encoded, url_encode, url_query_pairs,
};
use crate::decimal::{chars_as_ascii, chars_to_ascii, nat_digits, parse_unsigned, parse_unsigned_range, u64_digits, ascii_chars, ascii_to_chars, is_digit, lemma_nat_digits};
use crate::error::{invalid_torrent, Result};
use crate::text::{str_chars, string_from_chars};
use vstd::prelude::*;
use vstd::utf8::encode_utf8;

verus! {

/// The fields a magnet link gives.
#[derive(Debug, Clone)]
pub struct MagnetUri {
    pub info_hash: [u8; 20],
    pub display_name: Option<String>,
    pub trackers: Vec<String>,
    pub exact_length: Option<u64>,
    pub exact_source: Option<String>,
    pub keywords: Vec<String>,
    pub acceptable_source: Vec<String>,
}

/// The fields read so far from a magnet link's query.
pub struct MagnetFields {
    pub info_hash: Option<Seq<u8>>,
    pub display_name: Option<Seq<char>>,
    pub trackers: Seq<Seq<char>>,
    pub exact_length: Option<u64>,
    pub exact_source: Option<Seq<char>>,
    pub keywords: Seq<Seq<char>>,
    pub acceptable_source: Seq<Seq<char>>,
}

/// No field read yet.
pub open spec fn no_fields() -> MagnetFields {
    MagnetFields {
        info_hash: None,
        display_name: None,
        trackers: Seq::empty(),
        exact_length: None,
        exact_source: None,
        keywords: Seq::empty(),
        acceptable_source: Seq::empty(),
    }
}

/// The text starts with `prefix`.
pub open spec fn has_prefix(s: Seq<char>, prefix: Seq<char>) -> bool {
    prefix.len() <= s.len() && s.subrange(0, prefix.len() as int) == prefix
}

/// `s` with every leading copy of a nonempty `prefix` removed.
pub open spec fn trim_prefixes(s: Seq<char>, prefix: Seq<char>) -> Seq<char>
    decreases s.len(),
{
    if prefix.len() > 0 && has_prefix(s, prefix) {
        trim_prefixes(s.subrange(prefix.len() as int, s.len() as int), prefix)
    } else {
        s
    }
}

/// The pieces of `s` between the characters `c`.
pub open spec fn split_on(s: Seq<char>, c: char) -> Seq<Seq<char>>
    decreases s.len(),
{
    if s.len() == 0 {
        seq![Seq::empty()]
    } else {
        let parts = split_on(s.drop_last(), c);
        if s.last() == c {
            parts.push(Seq::empty())
        } else {
            parts.update(parts.len() - 1, parts.last().push(s.last()))
        }
    }
}

/// Splitting gives at least one piece.
pub proof fn lemma_split_nonempty(s: Seq<char>, c: char)
    ensures
        split_on(s, c).len() >= 1,
    decreases s.len(),
{
    if s.len() > 0 {
        lemma_split_nonempty(s.drop_last(), c);
    }
}

/// The text `urn:btih:`.
pub open spec fn btih_prefix() -> Seq<char> {
    seq!['u', 'r', 'n', ':', 'b', 't', 'i', 'h', ':']
}

/// A two-letter key.
pub open spec fn key2(a: char, b: char) -> Seq<char> {
    seq![a, b]
}

/// The fields after reading the pair `name=value`; `None` for an `xt` whose
/// `urn:btih:` hash is not 40 hexadecimal or 32 base32 characters (counted
/// as UTF-8 bytes) that decode.
pub open spec fn read_pair(st: MagnetFields, name: Seq<char>, value: Seq<char>) -> Option<MagnetFields> {
    if name == key2('x', 't') {
        if has_prefix(value, btih_prefix()) {
            let h = trim_prefixes(value, btih_prefix());
            let hb = encode_utf8(h);
            let decoded = if hb.len() == 40 {
                hex_decoded(hb)
            } else if hb.len() == 32 {
                base32_decoded(h)
            } else {
                None
            };
            match decoded {
                Some(b) => Some(
                    if b.len() == 20 {
                        MagnetFields { info_hash: Some(b), ..st }
                    } else {
                        st
                    },
                ),
                None => None,
            }
        } else {
            Some(st)
        }
    } else if name == key2('d', 'n') {
        Some(MagnetFields { display_name: Some(value), ..st })
    } else if name == key2('t', 'r') {
        Some(MagnetFields { trackers: st.trackers.push(value), ..st })
    } else if name == key2('x', 'l') {
        Some(
            MagnetFields {
                exact_length: match parse_unsigned(chars_as_ascii(value), u64::MAX as nat) {
                    Some(n) => Some(n as u64),
                    None => None,
                },
                ..st
            },
        )
    } else if name == key2('x', 's') {
        Some(MagnetFields { exact_source: Some(value), ..st })
    } else if name == key2('k', 't') {
        Some(MagnetFields { keywords: st.keywords + split_on(value, '+'), ..st })
    } else if name == key2('a', 's') {
        Some(MagnetFields { acceptable_source: st.acceptable_source.push(value), ..st })
    } else {
        Some(st)
    }
}

/// The fields read from the pairs of a query in order; `None` once a pair
/// fails.
pub open spec fn read_pairs(p: Seq<(Seq<char>, Seq<char>)>) -> Option<MagnetFields>
    decreases p.len(),
{
    if p.len() == 0 {
        Some(no_fields())
    } else {
        match read_pairs(p.drop_last()) {
            Some(st) => read_pair(st, p.last().0, p.last().1),
            None => None,
        }
    }
}

/// Once a pair fails, reading the whole query fails.
proof fn lemma_read_pairs_stops(p: Seq<(Seq<char>, Seq<char>)>, k: int)
    requires
        0 <= k <= p.len(),
        read_pairs(p.subrange(0, k)) is None,
    ensures
        read_pairs(p) is None,
    decreases p.len() - k,
{
    if k < p.len() {
        assert(p.subrange(0, k + 1).drop_last() =~= p.subrange(0, k));
        lemma_read_pairs_stops(p, k + 1);
    } else {
        assert(p.subrange(0, k) =~= p);
    }
}

/// The texts of strings.
pub open spec fn texts(s: Seq<String>) -> Seq<Seq<char>> {
    Seq::new(s.len(), |i: int| s[i]@)
}

/// The text of an optional string.
pub open spec fn opt_text(s: Option<String>) -> Option<Seq<char>> {
    match s {
        Some(t) => Some(t@),
        None => None,
    }
}

/// A magnet link holds the fields `st`, whose info hash is known.
pub open spec fn magnet_has(m: MagnetUri, st: MagnetFields) -> bool {
    &&& st.info_hash == Some(m.info_hash@)
    &&& opt_text(m.display_name) == st.display_name
    &&& texts(m.trackers@) == st.trackers
    &&& m.exact_length == st.exact_length
    &&& opt_text(m.exact_source) == st.exact_source
    &&& texts(m.keywords@) == st.keywords
    &&& texts(m.acceptable_source@) == st.acceptable_source
}

/// The text `magnet:?`.
pub open spec fn magnet_prefix() -> Seq<char> {
    seq!['m', 'a', 'g', 'n', 'e', 't', ':', '?']
}

/// Whether the characters `a` and `b` are the same.
fn chars_eq(a: &Vec<char>, b: &Vec<char>) -> (r: bool)
    ensures
        r == (a@ == b@),
{
    if a.len() != b.len() {
        return false;
    }
    let mut i: usize = 0;
    while i < a.len()
        invariant
            0 <= i <= a@.len(),
            a@.len() == b@.len(),
            forall|j: int| 0 <= j < i ==> a@[j] == b@[j],
        decreases a@.len() - i,
    {
        if a[i] != b[i] {
            return false;
        }
        i = i + 1;
    }
    proof {
        assert(a@ =~= b@);
    }
    true
}

/// Whether `s` starts with `prefix`.
fn chars_start_with(s: &Vec<char>, prefix: &Vec<char>) -> (r: bool)
    ensures
        r == has_prefix(s@, prefix@),
{
    if prefix.len() > s.len() {
        return false;
    }
    let mut i: usize = 0;
    while i < prefix.len()
        invariant
            0 <= i <= prefix@.len(),
            prefix@.len() <= s@.len(),
            forall|j: int| 0 <= j < i ==> s@[j] == prefix@[j],
        decreases prefix@.len() - i,
    {
        if s[i] != prefix[i] {
            return false;
        }
        i = i + 1;
    }
    proof {
        assert(s@.subrange(0, prefix@.len() as int) =~= prefix@);
    }
    true
}

/// `s` with every leading copy of `prefix` removed.
fn trim_leading(s: &Vec<char>, prefix: &Vec<char>) -> (r: Vec<char>)
    requires
        prefix@.len() > 0,
    ensures
        r@ == trim_prefixes(s@, prefix@),
{
    let mut start: usize = 0;
    let n = prefix.len();
    let slen = s.len();
    proof {
        assert(s@.subrange(0, s@.len() as int) =~= s@);
    }
    while n <= slen && start <= slen - n && prefix_at(s, start, prefix)
        invariant
            start <= s@.len(),
            slen == s@.len(),
            n == prefix@.len(),
            n > 0,
            trim_prefixes(s@, prefix@) == trim_prefixes(s@.subrange(start as int, s@.len() as int), prefix@),
        decreases s@.len() - start,
    {
        proof {
            let rest = s@.subrange(start as int, s@.len() as int);
            assert(rest.subrange(0, n as int) =~= prefix@);
            assert(rest.subrange(n as int, rest.len() as int) =~= s@.subrange(start + n, s@.len() as int));
        }
        start = start + n;
    }
    proof {
        let rest = s@.subrange(start as int, s@.len() as int);
        if has_prefix(rest, prefix@) {
            assert forall|j: int| 0 <= j < n implies s@[start + j] == prefix@[j] by {
                assert(rest.subrange(0, n as int)[j] == prefix@[j]);
            }
        }
    }
    let mut out: Vec<char> = Vec::new();
    let mut i = start;
    while i < s.len()
        invariant
            start <= i <= s@.len(),
            out@ == s@.subrange(start as int, i as int),
        decreases s@.len() - i,
    {
        out.push(s[i]);
        proof {
            assert(out@ =~= s@.subrange(start as int, i + 1));
        }
        i = i + 1;
    }
    out
}

/// Whether `prefix` stands in `s` at `start`.
fn prefix_at(s: &Vec<char>, start: usize, prefix: &Vec<char>) -> (r: bool)
    requires
        start + prefix@.len() <= s@.len(),
    ensures
        r == has_prefix(s@.subrange(start as int, s@.len() as int), prefix@),
        r == forall|j: int| 0 <= j < prefix@.len() ==> s@[start + j] == prefix@[j],
{
    let slen = s.len();
    let mut i: usize = 0;
    while i < prefix.len()
        invariant
            0 <= i <= prefix@.len(),
            slen == s@.len(),
            start + prefix@.len() <= s@.len(),
            forall|j: int| 0 <= j < i ==> s@[start + j] == prefix@[j],
        decreases prefix@.len() - i,
    {
        if s[start + i] != prefix[i] {
            proof {
                assert(s@.subrange(start as int, s@.len() as int).subrange(0, prefix@.len() as int)[i as int] != prefix@[i as int]);
            }
            return false;
        }
        i = i + 1;
    }
    proof {
        assert(s@.subrange(start as int, s@.len() as int).subrange(0, prefix@.len() as int) =~= prefix@);
    }
    true
}

/// The pieces of `s` between the characters `c`, as strings.
pub(crate) fn split_chars(s: &Vec<char>, c: char) -> (r: Vec<String>)
    ensures
        texts(r@) == split_on(s@, c),
{
    let mut parts: Vec<Vec<char>> = Vec::new();
    parts.push(Vec::new());
    let mut i: usize = 0;
    proof {
        assert(s@.subrange(0, 0) =~= Seq::<char>::empty());
    }
    while i < s.len()
        invariant
            0 <= i <= s@.len(),
            parts@.len() >= 1,
            parts@.len() == split_on(s@.subrange(0, i as int), c).len(),
            forall|j: int| 0 <= j < parts@.len() ==> #[trigger] parts@[j]@ == split_on(s@.subrange(0, i as int), c)[j],
        decreases s@.len() - i,
    {
        let ghost pre = split_on(s@.subrange(0, i as int), c);
        proof {
            assert(s@.subrange(0, i + 1).drop_last() =~= s@.subrange(0, i as int));
        }
        if s[i] == c {
            parts.push(Vec::new());
            proof {
                assert forall|j: int| 0 <= j < parts@.len() implies #[trigger] parts@[j]@ == split_on(s@.subrange(0, i + 1), c)[j] by {
                    if j < parts@.len() - 1 {
                        assert(parts@[j]@ == pre[j]);
                    } else {
                        assert(parts@[j]@ =~= Seq::<char>::empty());
                    }
                }
            }
        } else {
            let last = parts.len() - 1;
            let mut cur = parts.pop().unwrap();
            cur.push(s[i]);
            parts.push(cur);
            proof {
                assert forall|j: int| 0 <= j < parts@.len() implies #[trigger] parts@[j]@ == split_on(s@.subrange(0, i + 1), c)[j] by {
                    if j < last {
                        assert(parts@[j]@ == pre[j]);
                    }
                }
            }
        }
        i = i + 1;
    }
    proof {
        assert(s@.subrange(0, s@.len() as int) =~= s@);
    }
    let mut out: Vec<String> = Vec::new();
    let mut k: usize = 0;
    while k < parts.len()
        invariant
            0 <= k <= parts@.len(),
            texts(out@) == Seq::new(k as nat, |j: int| parts@[j]@),
        decreases parts@.len() - k,
    {
        let ghost before = out@;
        out.push(string_from_chars(parts[k].as_slice()));
        proof {
            assert(texts(out@) =~= texts(before).push(parts@[k as int]@));
            assert(texts(out@) =~= Seq::new((k + 1) as nat, |j: int| parts@[j]@));
        }
        k = k + 1;
    }
    proof {
        assert(texts(out@) =~= split_on(s@, c));
    }
    out
}

/// The twenty bytes of a digest held in a vector of twenty bytes.
fn to_digest(v: &Vec<u8>) -> (r: [u8; 20])
    requires
        v@.len() == 20,
    ensures
        r@ == v@,
{
    let mut h: [u8; 20] = [0u8; 20];
    let mut j: usize = 0;
    while j < 20
        invariant
            0 <= j <= 20,
            v@.len() == 20,
            forall|t: int| 0 <= t < j ==> h@[t] == v@[t],
        decreases 20 - j,
    {
        h[j] = v[j];
        j = j + 1;
    }
    proof {
        assert(h@ =~= v@);
    }
    h
}

/// A two-letter key as characters.
fn key_chars(a: char, b: char) -> (r: Vec<char>)
    ensures
        r@ == key2(a, b),
{
    let r: Vec<char> = vec![a, b];
    proof {
        assert(r@ =~= key2(a, b));
    }
    r
}

impl MagnetUri {
    /// The fields of a magnet link from the name-value pairs of its query,
    /// read in order.  Fails when an `xt` hash is malformed, or when no
    /// `xt` gives a twenty-byte info hash.
    pub fn from_query_pairs(pairs: &Vec<(String, String)>) -> (r: Result<MagnetUri>)
        ensures
            match read_pairs(pair_texts(pairs@)) {
                Some(st) => if st.info_hash is Some {
                    r matches Ok(m) && magnet_has(m, st)
                } else {
                    r matches Err(e) && e is InvalidTorrent
                },
                None => r matches Err(e) && e is InvalidTorrent,
            },
    {
        let ghost pv = pair_texts(pairs@);
        let mut info_hash: Option<[u8; 20]> = None;
        let mut display_name: Option<String> = None;
        let mut trackers: Vec<String> = Vec::new();
        let mut exact_length: Option<u64> = None;
        let mut exact_source: Option<String> = None;
        let mut keywords: Vec<String> = Vec::new();
        let mut acceptable_source: Vec<String> = Vec::new();
        let btih: Vec<char> = vec!['u', 'r', 'n', ':', 'b', 't', 'i', 'h', ':'];
        let xt = key_chars('x', 't');
        let dn = key_chars('d', 'n');
        let tr = key_chars('t', 'r');
        let xl = key_chars('x', 'l');
        let xs = key_chars('x', 's');
        let kt = key_chars('k', 't');
        let as_key = key_chars('a', 's');
        proof {
            assert(btih@ =~= btih_prefix());
            assert(pv.subrange(0, 0) =~= Seq::<(Seq<char>, Seq<char>)>::empty());
        }
        let mut i: usize = 0;
        while i < pairs.len()
            invariant
                0 <= i <= pairs@.len(),
                pv == pair_texts(pairs@),
                btih@ == btih_prefix(),
                xt@ == key2('x', 't'),
                dn@ == key2('d', 'n'),
                tr@ == key2('t', 'r'),
                xl@ == key2('x', 'l'),
                xs@ == key2('x', 's'),
                kt@ == key2('k', 't'),
                as_key@ == key2('a', 's'),
                read_pairs(pv.subrange(0, i as int)) matches Some(st) && {
                    &&& st.info_hash == match info_hash {
                        Some(h) => Some(h@),
                        None => None::<Seq<u8>>,
                    }
                    &&& opt_text(display_name) == st.display_name
                    &&& texts(trackers@) == st.trackers
                    &&& exact_length == st.exact_length
                    &&& opt_text(exact_source) == st.exact_source
                    &&& texts(keywords@) == st.keywords
                    &&& texts(acceptable_source@) == st.acceptable_source
                },
            decreases pairs@.len() - i,
        {
            let ghost st = read_pairs(pv.subrange(0, i as int)).unwrap();
            proof {
                assert(pv.subrange(0, i + 1).drop_last() =~= pv.subrange(0, i as int));
                assert(pv.subrange(0, i + 1).last() == (pairs@[i as int].0@, pairs@[i as int].1@));
            }
            let name = str_chars(pairs[i].0.as_str());
            let value_str = pairs[i].1.as_str();
            let value = str_chars(value_str);
            proof {
                assert(name@ == pv[i as int].0);
                assert(value@ == pv[i as int].1);
                assert(read_pairs(pv.subrange(0, i + 1)) == read_pair(st, name@, value@));
            }
            if chars_eq(&name, &xt) {
                if chars_start_with(&value, &btih) {
                    let h = trim_leading(&value, &btih);
                    let hs = string_from_chars(h.as_slice());
                    let hlen = hs.as_str().as_bytes().len();
                    proof {
                        assert(hs@ == trim_prefixes(value@, btih_prefix()));
                        assert(hlen == encode_utf8(hs@).len());
                    }
                    proof {
                        lemma_chars_within_bytes(hs@);
                    }
                    let decoded = if hlen == 40 {
                        hex_decode(hs.as_str())
                    } else if hlen == 32 {
                        base32_decode(hs.as_str())
                    } else {
                        None
                    };
                    match decoded {
                        Some(b) => {
                            if b.len() == 20 {
                                info_hash = Some(to_digest(&b));
                            }
                        },
                        None => {
                            proof {
                                lemma_read_pairs_stops(pv, i + 1);
                            }
                            return Err(invalid_torrent("Invalid info hash in xt"));
                        },
                    }
                }
            } else if chars_eq(&name, &dn) {
                display_name = Some(pairs[i].1.clone());
            } else if chars_eq(&name, &tr) {
                let ghost before = trackers@;
                trackers.push(pairs[i].1.clone());
                proof {
                    assert(texts(trackers@) =~= texts(before).push(value@));
                }
            } else if chars_eq(&name, &xl) {
                let bytes = chars_to_ascii(&value);
                exact_length = parse_unsigned_range(bytes.as_slice(), 0, bytes.len(), u64::MAX);
                proof {
                    assert(bytes@.subrange(0, bytes@.len() as int) =~= bytes@);
                }
            } else if chars_eq(&name, &xs) {
                exact_source = Some(pairs[i].1.clone());
            } else if chars_eq(&name, &kt) {
                let parts = split_chars(&value, '+');
                let ghost before = keywords@;
                let mut k: usize = 0;
                while k < parts.len()
                    invariant
                        0 <= k <= parts@.len(),
                        texts(keywords@) == texts(before) + texts(parts@).subrange(0, k as int),
                    decreases parts@.len() - k,
                {
                    let ghost kb = keywords@;
                    keywords.push(parts[k].clone());
                    proof {
                        assert(texts(keywords@) =~= texts(kb).push(parts@[k as int]@));
                        assert(texts(keywords@) =~= texts(before) + texts(parts@).subrange(0, k + 1));
                    }
                    k = k + 1;
                }
                proof {
                    assert(texts(parts@).subrange(0, parts@.len() as int) =~= texts(parts@));
                }
            } else if chars_eq(&name, &as_key) {
                let ghost before = acceptable_source@;
                acceptable_source.push(pairs[i].1.clone());
                proof {
                    assert(texts(acceptable_source@) =~= texts(before).push(value@));
                }
            }
            proof {
                let next = read_pair(st, name@, value@);
                assert(next is Some);
                let st2 = next.unwrap();
                assert(st2.info_hash == match info_hash {
                    Some(h) => Some(h@),
                    None => None::<Seq<u8>>,
                });
                assert(opt_text(display_name) == st2.display_name);
                assert(texts(trackers@) == st2.trackers);
                assert(exact_length == st2.exact_length);
                assert(opt_text(exact_source) == st2.exact_source);
                assert(texts(keywords@) == st2.keywords);
                assert(texts(acceptable_source@) == st2.acceptable_source);
            }
            i = i + 1;
        }
        proof {
            assert(pv.subrange(0, pairs@.len() as int) =~= pv);
        }
        match info_hash {
            Some(h) => Ok(
                MagnetUri { info_hash: h, display_name, trackers, exact_length, exact_source, keywords, acceptable_source },
            ),
            None => Err(invalid_torrent("Magnet URI missing info hash (xt)")),
        }
    }

    /// Reads a magnet link.  Fails for a text that does not start with
    /// `magnet:?` or is no URL, and as `from_query_pairs` fails.
    pub fn parse(uri: &str) -> (r: Result<MagnetUri>)
        ensures
            !has_prefix(uri@, magnet_prefix()) ==> (r matches Err(e) && e is InvalidTorrent),
            has_prefix(uri@, magnet_prefix()) ==> match url_query_pairs(uri@) {
                None => r matches Err(e) && e is InvalidTorrent,
                Some(p) => match read_pairs(p) {
                    Some(st) => if st.info_hash is Some {
                        r matches Ok(m) && magnet_has(m, st)
                    } else {
                        r matches Err(e) && e is InvalidTorrent
                    },
                    None => r matches Err(e) && e is InvalidTorrent,
                },
            },
    {
        let chars = str_chars(uri);
        let prefix: Vec<char> = vec!['m', 'a', 'g', 'n', 'e', 't', ':', '?'];
        proof {
            assert(prefix@ =~= magnet_prefix());
        }
        if !chars_start_with(&chars, &prefix) {
            return Err(invalid_torrent("Invalid magnet URI format"));
        }
        match parse_query_pairs(uri) {
            Some(pairs) => MagnetUri::from_query_pairs(&pairs),
            None => Err(invalid_torrent("Invalid magnet URI")),
        }
    }
}

/// Texts joined with a separator.
pub open spec fn join_with(parts: Seq<Seq<char>>, sep: char) -> Seq<char>
    decreases parts.len(),
{
    if parts.len() == 0 {
        Seq::empty()
    } else if parts.len() == 1 {
        parts[0]
    } else {
        join_with(parts.drop_last(), sep) + seq![sep] + parts.last()
    }
}

/// A field `name=value` of a magnet link.
pub open spec fn field(a: char, b: char, value: Seq<char>) -> Seq<char> {
    seq![a, b, '='] + value
}

/// A percent-encoded text.
pub open spec fn encoded_text(s: Seq<char>) -> Seq<char> {
    percent_encoded(encode_utf8(s))
}

/// The fields a magnet link is written with, in order: the info hash in
/// hexadecimal, the name, each tracker, the exact length, the exact
/// source, the keywords joined with `+`, each acceptable source.
pub open spec fn magnet_fields(m: MagnetUri) -> Seq<Seq<char>> {
    seq![magnet_prefix() + field('x', 't', btih_prefix() + hex_text(m.info_hash@))]
        + (match m.display_name {
        Some(n) => seq![field('d', 'n', encoded_text(n@))],
        None => Seq::empty(),
    }) + Seq::new(m.trackers@.len(), |i: int| field('t', 'r', encoded_text(m.trackers@[i]@)))
        + (match m.exact_length {
        Some(l) => seq![field('x', 'l', ascii_chars(nat_digits(l as nat)))],
        None => Seq::empty(),
    }) + (match m.exact_source {
        Some(x) => seq![field('x', 's', encoded_text(x@))],
        None => Seq::empty(),
    }) + (if m.keywords@.len() > 0 {
        seq![field('k', 't', join_with(texts(m.keywords@), '+'))]
    } else {
        Seq::empty()
    }) + Seq::new(m.acceptable_source@.len(), |i: int| field('a', 's', encoded_text(m.acceptable_source@[i]@)))
}

/// Texts joined with a separator.
fn join_texts(parts: &Vec<Vec<char>>, sep: char) -> (r: Vec<char>)
    ensures
        r@ == join_with(Seq::new(parts@.len(), |i: int| parts@[i]@), sep),
{
    let ghost pv = Seq::new(parts@.len(), |i: int| parts@[i]@);
    let mut out: Vec<char> = Vec::new();
    let mut i: usize = 0;
    while i < parts.len()
        invariant
            0 <= i <= parts@.len(),
            pv == Seq::new(parts@.len(), |i: int| parts@[i]@),
            out@ == join_with(pv.subrange(0, i as int), sep),
        decreases parts@.len() - i,
    {
        proof {
            assert(pv.subrange(0, i + 1).drop_last() =~= pv.subrange(0, i as int));
        }
        if i > 0 {
            out.push(sep);
        }
        let ghost mid = out@;
        let mut j: usize = 0;
        while j < parts[i].len()
            invariant
                0 <= j <= parts@[i as int]@.len(),
                i < parts@.len(),
                out@ == mid + parts@[i as int]@.subrange(0, j as int),
            decreases parts@[i as int]@.len() - j,
        {
            out.push(parts[i][j]);
            proof {
                assert(out@ =~= mid + parts@[i as int]@.subrange(0, j + 1));
            }
            j = j + 1;
        }
        proof {
            assert(parts@[i as int]@.subrange(0, parts@[i as int]@.len() as int) =~= parts@[i as int]@);
            if i == 0 {
                assert(pv.subrange(0, 1) =~= seq![pv[0]]);
            }
            assert(out@ =~= join_with(pv.subrange(0, i + 1), sep));
        }
        i = i + 1;
    }
    proof {
        assert(pv.subrange(0, parts@.len() as int) =~= pv);
    }
    out
}

/// The field `name=value` as characters.
fn field_chars(a: char, b: char, value: &Vec<char>) -> (r: Vec<char>)
    ensures
        r@ == field(a, b, value@),
{
    let mut out: Vec<char> = vec![a, b, '='];
    let ghost start = out@;
    let mut j: usize = 0;
    while j < value.len()
        invariant
            0 <= j <= value@.len(),
            start == seq![a, b, '='],
            out@ == start + value@.subrange(0, j as int),
        decreases value@.len() - j,
    {
        out.push(value[j]);
        proof {
            assert(out@ =~= start + value@.subrange(0, j + 1));
        }
        j = j + 1;
    }
    proof {
        assert(value@.subrange(0, value@.len() as int) =~= value@);
        assert(start =~= seq![a, b, '=']);
    }
    out
}

/// Appends `field(a, b, value)` for each value to `parts`.
fn push_fields(parts: &mut Vec<Vec<char>>, a: char, b: char, values: &Vec<String>, encode: bool)
    ensures
        Seq::new(final(parts)@.len(), |i: int| final(parts)@[i]@) == Seq::new(old(parts)@.len(), |i: int| old(parts)@[i]@)
            + Seq::new(values@.len(), |i: int| field(a, b, if encode { encoded_text(values@[i]@) } else { values@[i]@ })),
{
    let ghost start = Seq::new(parts@.len(), |i: int| parts@[i]@);
    let ghost want = Seq::new(values@.len(), |i: int| field(a, b, if encode { encoded_text(values@[i]@) } else { values@[i]@ }));
    let mut k: usize = 0;
    while k < values.len()
        invariant
            0 <= k <= values@.len(),
            start == Seq::new(old(parts)@.len(), |i: int| old(parts)@[i]@),
            want == Seq::new(values@.len(), |i: int| field(a, b, if encode { encoded_text(values@[i]@) } else { values@[i]@ })),
            Seq::new(parts@.len(), |i: int| parts@[i]@) == start + want.subrange(0, k as int),
        decreases values@.len() - k,
    {
        let v = if encode {
            url_encode(values[k].as_str())
        } else {
            values[k].clone()
        };
        let vc = str_chars(v.as_str());
        let f = field_chars(a, b, &vc);
        let ghost before = parts@;
        parts.push(f);
        proof {
            assert(Seq::new(parts@.len(), |i: int| parts@[i]@) =~= Seq::new(before.len(), |i: int| before[i]@).push(f@));
            assert(Seq::new(parts@.len(), |i: int| parts@[i]@) =~= start + want.subrange(0, k + 1));
        }
        k = k + 1;
    }
    proof {
        assert(want.subrange(0, values@.len() as int) =~= want);
    }
}

impl MagnetUri {
    /// The magnet link of these fields.
    pub fn to_string(&self) -> (r: String)
        ensures
            r@ == join_with(magnet_fields(*self), '&'),
    {
        let mut parts: Vec<Vec<char>> = Vec::new();
        let hx = str_chars(hex_encode(self.info_hash.as_slice()).as_str());
        let mut first: Vec<char> = vec!['m', 'a', 'g', 'n', 'e', 't', ':', '?', 'x', 't', '=', 'u', 'r', 'n', ':', 'b', 't', 'i', 'h', ':'];
        let ghost head = first@;
        let mut j: usize = 0;
        while j < hx.len()
            invariant
                0 <= j <= hx@.len(),
                first@ == head + hx@.subrange(0, j as int),
            decreases hx@.len() - j,
        {
            first.push(hx[j]);
            proof {
                assert(first@ =~= head + hx@.subrange(0, j + 1));
            }
            j = j + 1;
        }
        proof {
            assert(hx@.subrange(0, hx@.len() as int) =~= hx@);
            assert(first@ =~= magnet_prefix() + field('x', 't', btih_prefix() + hex_text(self.info_hash@)));
        }
        parts.push(first);
        let ghost mut want: Seq<Seq<char>> = seq![magnet_prefix() + field('x', 't', btih_prefix() + hex_text(self.info_hash@))];
        proof {
            assert(Seq::new(parts@.len(), |i: int| parts@[i]@) =~= want);
        }
        match &self.display_name {
            Some(n) => {
                let e = str_chars(url_encode(n.as_str()).as_str());
                let f = field_chars('d', 'n', &e);
                let ghost before = parts@;
                parts.push(f);
                proof {
                    want = want + seq![field('d', 'n', encoded_text(n@))];
                    assert(Seq::new(parts@.len(), |i: int| parts@[i]@) =~= want);
                }
            },
            None => {},
        }
        push_fields(&mut parts, 't', 'r', &self.trackers, true);
        proof {
            want = want + Seq::new(self.trackers@.len(), |i: int| field('t', 'r', encoded_text(self.trackers@[i]@)));
            assert(Seq::new(parts@.len(), |i: int| parts@[i]@) == want);
        }
        match self.exact_length {
            Some(l) => {
                let digits = u64_digits(l);
                proof {
                    lemma_nat_digits(l as nat);
                    assert forall|i: int| 0 <= i < digits@.len() implies digits@[i] < 128 by {
                        assert(is_digit(digits@[i]));
                    }
                }
                let dc = ascii_to_chars(&digits);
                let f = field_chars('x', 'l', &dc);
                let ghost before = parts@;
                parts.push(f);
                proof {
                    assert(Seq::new(parts@.len(), |i: int| parts@[i]@) =~= Seq::new(before.len(), |i: int| before[i]@).push(f@));
                    want = want + seq![field('x', 'l', ascii_chars(nat_digits(l as nat)))];
                    assert(Seq::new(parts@.len(), |i: int| parts@[i]@) =~= want);
                }
            },
            None => {},
        }
        match &self.exact_source {
            Some(x) => {
                let e = str_chars(url_encode(x.as_str()).as_str());
                let f = field_chars('x', 's', &e);
                let ghost before = parts@;
                parts.push(f);
                proof {
                    assert(Seq::new(parts@.len(), |i: int| parts@[i]@) =~= Seq::new(before.len(), |i: int| before[i]@).push(f@));
                    want = want + seq![field('x', 's', encoded_text(x@))];
                    assert(Seq::new(parts@.len(), |i: int| parts@[i]@) =~= want);
                }
            },
            None => {},
        }
        if self.keywords.len() > 0 {
            let mut kws: Vec<Vec<char>> = Vec::new();
            let mut k: usize = 0;
            while k < self.keywords.len()
                invariant
                    0 <= k <= self.keywords@.len(),
                    Seq::new(kws@.len(), |i: int| kws@[i]@) == texts(self.keywords@).subrange(0, k as int),
                decreases self.keywords@.len() - k,
            {
                let ghost before = kws@;
                let kc = str_chars(self.keywords[k].as_str());
                kws.push(kc);
                proof {
                    assert(Seq::new(kws@.len(), |i: int| kws@[i]@) =~= Seq::new(before.len(), |i: int| before[i]@).push(kc@));
                    assert(Seq::new(kws@.len(), |i: int| kws@[i]@) =~= texts(self.keywords@).subrange(0, k + 1));
                }
                k = k + 1;
            }
            proof {
                assert(texts(self.keywords@).subrange(0, self.keywords@.len() as int) =~= texts(self.keywords@));
            }
            let joined = join_texts(&kws, '+');
            let f = field_chars('k', 't', &joined);
            let ghost before = parts@;
            parts.push(f);
            proof {
                assert(Seq::new(parts@.len(), |i: int| parts@[i]@) =~= Seq::new(before.len(), |i: int| before[i]@).push(f@));
                want = want + seq![field('k', 't', join_with(texts(self.keywords@), '+'))];
                assert(Seq::new(parts@.len(), |i: int| parts@[i]@) =~= want);
            }
        }
        push_fields(&mut parts, 'a', 's', &self.acceptable_source, true);
        proof {
            want = want + Seq::new(self.acceptable_source@.len(), |i: int| field('a', 's', encoded_text(self.acceptable_source@[i]@)));
            assert(want =~= magnet_fields(*self));
            assert(Seq::new(parts@.len(), |i: int| parts@[i]@) == want);
        }
        let all = join_texts(&parts, '&');
        string_from_chars(all.as_slice())
    }
}

/// A text has no more characters than its UTF-8 encoding has bytes.
proof fn lemma_chars_within_bytes(chars: Seq<char>)
    ensures
        chars.len() <= encode_utf8(chars).len(),
    decreases chars.len(),
{
    if chars.len() > 0 {
        lemma_chars_within_bytes(chars.drop_first());
    }
}

/// The name-value pairs that a magnet link's query stands for, each value
/// as it reads once its percent-encoding is undone, in the order
/// `to_string` writes them.
pub open spec fn magnet_pairs(m: MagnetUri) -> Seq<(Seq<char>, Seq<char>)> {
    seq![(key2('x', 't'), btih_prefix() + hex_text(m.info_hash@))]
        + (match m.display_name {
        Some(n) => seq![(key2('d', 'n'), n@)],
        None => Seq::empty(),
    }) + Seq::new(m.trackers@.len(), |i: int| (key2('t', 'r'), m.trackers@[i]@))
        + (match m.exact_length {
        Some(l) => seq![(key2('x', 'l'), ascii_chars(nat_digits(l as nat)))],
        None => Seq::empty(),
    }) + (match m.exact_source {
        Some(x) => seq![(key2('x', 's'), x@)],
        None => Seq::empty(),
    }) + Seq::new(m.acceptable_source@.len(), |i: int| (key2('a', 's'), m.acceptable_source@[i]@))
}

/// The fields after reading more pairs `q` on top of `o`.
pub open spec fn read_more(o: Option<MagnetFields>, q: Seq<(Seq<char>, Seq<char>)>) -> Option<MagnetFields>
    decreases q.len(),
{
    if q.len() == 0 {
        o
    } else {
        match read_more(o, q.drop_last()) {
            Some(st) => read_pair(st, q.last().0, q.last().1),
            None => None,
        }
    }
}

/// Reading `p` then `q` is reading `p + q`.
proof fn lemma_read_pairs_append(p: Seq<(Seq<char>, Seq<char>)>, q: Seq<(Seq<char>, Seq<char>)>)
    ensures
        read_pairs(p + q) == read_more(read_pairs(p), q),
    decreases q.len(),
{
    if q.len() == 0 {
        assert(p + q =~= p);
    } else {
        assert((p + q).drop_last() =~= p + q.drop_last());
        assert((p + q).last() == q.last());
        lemma_read_pairs_append(p, q.drop_last());
    }
}

/// Reading trackers adds them in order.
proof fn lemma_read_trackers(st: MagnetFields, v: Seq<Seq<char>>)
    ensures
        read_more(Some(st), Seq::new(v.len(), |i: int| (key2('t', 'r'), v[i])))
            == Some(MagnetFields { trackers: st.trackers + v, ..st }),
    decreases v.len(),
{
    let q = Seq::new(v.len(), |i: int| (key2('t', 'r'), v[i]));
    if v.len() == 0 {
        assert(st.trackers + v =~= st.trackers);
    } else {
        let w = v.drop_last();
        assert(q.drop_last() =~= Seq::new(w.len(), |i: int| (key2('t', 'r'), w[i])));
        lemma_read_trackers(st, w);
        assert(key2('t', 'r') != key2('x', 't') && key2('t', 'r') != key2('d', 'n')) by {
            assert(key2('t', 'r')[0] != key2('x', 't')[0]);
            assert(key2('t', 'r')[0] != key2('d', 'n')[0]);
        }
        assert((st.trackers + w).push(v.last()) =~= st.trackers + v);
    }
}

/// Reading acceptable sources adds them in order.
proof fn lemma_read_sources(st: MagnetFields, v: Seq<Seq<char>>)
    ensures
        read_more(Some(st), Seq::new(v.len(), |i: int| (key2('a', 's'), v[i])))
            == Some(MagnetFields { acceptable_source: st.acceptable_source + v, ..st }),
    decreases v.len(),
{
    let q = Seq::new(v.len(), |i: int| (key2('a', 's'), v[i]));
    if v.len() == 0 {
        assert(st.acceptable_source + v =~= st.acceptable_source);
    } else {
        let w = v.drop_last();
        assert(q.drop_last() =~= Seq::new(w.len(), |i: int| (key2('a', 's'), w[i])));
        lemma_read_sources(st, w);
        assert(key2('a', 's')[0] != key2('x', 't')[0]);
        assert(key2('a', 's')[0] != key2('d', 'n')[0]);
        assert(key2('a', 's')[0] != key2('t', 'r')[0]);
        assert(key2('a', 's')[0] != key2('x', 'l')[0]);
        assert(key2('a', 's')[0] != key2('x', 's')[0]);
        assert(key2('a', 's')[0] != key2('k', 't')[0]);
        assert((st.acceptable_source + w).push(v.last()) =~= st.acceptable_source + v);
    }
}

/// Reading one pair on top of known fields.
proof fn lemma_read_one(st: MagnetFields, x: (Seq<char>, Seq<char>))
    ensures
        read_more(Some(st), seq![x]) == read_pair(st, x.0, x.1),
{
    assert(seq![x].drop_last() =~= Seq::<(Seq<char>, Seq<char>)>::empty());
    assert(read_more(Some(st), Seq::<(Seq<char>, Seq<char>)>::empty()) == Some(st));
    assert(seq![x].last() == x);
}

/// A hexadecimal digit's character reads back as its value.
proof fn lemma_hex_digit(n: nat)
    requires
        n < 16,
    ensures
        (hex_digit_lower(n) as u32) < 128,
        hex_value(hex_digit_lower(n) as u8) == Some(n as u8),
        hex_digit_lower(n) != 'u',
{
}

/// Hexadecimal text, as UTF-8 bytes, reads back as the bytes it was made of.
proof fn lemma_hex_text_decodes(h: Seq<u8>)
    ensures
        encode_utf8(hex_text(h)).len() == 2 * h.len(),
        hex_decoded(encode_utf8(hex_text(h))) == Some(h),
{
    let t = hex_text(h);
    assert forall|i: int| 0 <= i < t.len() implies (#[trigger] t[i] as u32) < 128 && hex_value(t[i] as u8) is Some by {
        if i % 2 == 0 {
            lemma_hex_digit((h[i / 2] / 16) as nat);
        } else {
            lemma_hex_digit((h[i / 2] % 16) as nat);
        }
    }
    assert(vstd::utf8::is_ascii_chars(t));
    vstd::utf8::is_ascii_chars_encode_utf8(t);
    let b = encode_utf8(t);
    assert forall|i: int| 0 <= i < b.len() implies #[trigger] hex_value(b[i]) is Some by {
        assert(b[i] == t[i] as u8);
    }
    let d = Seq::new(b.len() / 2, |i: int| (hex_value(b[2 * i]).unwrap() * 16 + hex_value(b[2 * i + 1]).unwrap()) as u8);
    assert forall|i: int| 0 <= i < h.len() implies #[trigger] d[i] == h[i] by {
        assert(b[2 * i] == t[2 * i] as u8);
        assert(b[2 * i + 1] == t[2 * i + 1] as u8);
        assert((2 * i) % 2 == 0 && (2 * i) / 2 == i);
        assert((2 * i + 1) % 2 == 1 && (2 * i + 1) / 2 == i);
        lemma_hex_digit((h[i] / 16) as nat);
        lemma_hex_digit((h[i] % 16) as nat);
    }
    assert(d =~= h);
}

/// The `xt` pair of a magnet link's info hash gives the hash.
proof fn lemma_read_hash(st: MagnetFields, h: Seq<u8>)
    requires
        h.len() == 20,
    ensures
        read_pair(st, key2('x', 't'), btih_prefix() + hex_text(h)) == Some(MagnetFields { info_hash: Some(h), ..st }),
{
    let t = hex_text(h);
    let v = btih_prefix() + t;
    assert(v.subrange(0, 9) =~= btih_prefix());
    assert(v.subrange(9, v.len() as int) =~= t);
    lemma_hex_digit((h[0] / 16) as nat);
    assert(t[0] != btih_prefix()[0]);
    assert(t.subrange(0, 9)[0] == t[0]);
    assert(!has_prefix(t, btih_prefix()));
    assert(trim_prefixes(t, btih_prefix()) == t);
    assert(trim_prefixes(v, btih_prefix()) == t);
    lemma_hex_text_decodes(h);
}

/// The `xl` pair of a length gives the length.
proof fn lemma_read_length(st: MagnetFields, l: u64)
    ensures
        read_pair(st, key2('x', 'l'), ascii_chars(nat_digits(l as nat))) == Some(MagnetFields { exact_length: Some(l), ..st }),
{
    lemma_nat_digits(l as nat);
    let d = nat_digits(l as nat);
    assert(chars_as_ascii(ascii_chars(d)) =~= d) by {
        assert forall|i: int| 0 <= i < d.len() implies #[trigger] chars_as_ascii(ascii_chars(d))[i] == d[i] by {
            assert(is_digit(d[i]));
        }
    }
    crate::decimal::lemma_parse_unsigned_digits(l as nat, u64::MAX as nat);
    assert(key2('x', 'l')[1] != key2('x', 't')[1]);
    assert(key2('x', 'l')[0] != key2('d', 'n')[0]);
    assert(key2('x', 'l')[0] != key2('t', 'r')[0]);
}

/// Texts joined with a separator begin with the first text.
proof fn lemma_join_starts(parts: Seq<Seq<char>>, sep: char)
    requires
        parts.len() >= 1,
    ensures
        parts[0].len() <= join_with(parts, sep).len(),
        join_with(parts, sep).subrange(0, parts[0].len() as int) == parts[0],
    decreases parts.len(),
{
    if parts.len() > 1 {
        let init = parts.drop_last();
        lemma_join_starts(init, sep);
        let j = join_with(parts, sep);
        assert(j == join_with(init, sep) + seq![sep] + parts.last());
        assert(j.subrange(0, parts[0].len() as int) =~= join_with(init, sep).subrange(0, init[0].len() as int));
    }
}

/// A magnet link without keywords reads back as itself: its text starts
/// with `magnet:?`, and when the URL parser reads its query as the pairs it
/// stands for, those pairs give back every field.
pub proof fn magnet_roundtrip(m: MagnetUri)
    requires
        m.keywords@.len() == 0,
        url_query_pairs(join_with(magnet_fields(m), '&')) == Some(magnet_pairs(m)),
    ensures
        has_prefix(join_with(magnet_fields(m), '&'), magnet_prefix()),
        url_query_pairs(join_with(magnet_fields(m), '&')) matches Some(p) && read_pairs(p) matches Some(st)
            && magnet_has(m, st),
{
    let fs = magnet_fields(m);
    assert(fs[0] == magnet_prefix() + field('x', 't', btih_prefix() + hex_text(m.info_hash@)));
    lemma_join_starts(fs, '&');
    assert(join_with(fs, '&').subrange(0, magnet_prefix().len() as int) =~= fs[0].subrange(0, 8));
    assert(fs[0].subrange(0, 8) =~= magnet_prefix());
    let a = seq![(key2('x', 't'), btih_prefix() + hex_text(m.info_hash@))];
    let b: Seq<(Seq<char>, Seq<char>)> = match m.display_name {
        Some(n) => seq![(key2('d', 'n'), n@)],
        None => Seq::empty(),
    };
    let trs = texts(m.trackers@);
    let c = Seq::new(trs.len(), |i: int| (key2('t', 'r'), trs[i]));
    let d: Seq<(Seq<char>, Seq<char>)> = match m.exact_length {
        Some(l) => seq![(key2('x', 'l'), ascii_chars(nat_digits(l as nat)))],
        None => Seq::empty(),
    };
    let e: Seq<(Seq<char>, Seq<char>)> = match m.exact_source {
        Some(x) => seq![(key2('x', 's'), x@)],
        None => Seq::empty(),
    };
    let srcs = texts(m.acceptable_source@);
    let f = Seq::new(srcs.len(), |i: int| (key2('a', 's'), srcs[i]));
    assert(magnet_pairs(m) =~= a + b + c + d + e + f);
    // The hash.
    let st0 = no_fields();
    lemma_read_one(st0, a[0]);
    assert(a =~= seq![a[0]]);
    assert(read_pairs(a) == read_more(read_pairs(Seq::<(Seq<char>, Seq<char>)>::empty()), a)) by {
        lemma_read_pairs_append(Seq::<(Seq<char>, Seq<char>)>::empty(), a);
        assert(Seq::<(Seq<char>, Seq<char>)>::empty() + a =~= a);
    }
    lemma_read_hash(st0, m.info_hash@);
    let st1 = MagnetFields { info_hash: Some(m.info_hash@), ..st0 };
    assert(read_pairs(a) == Some(st1));
    // The name.
    lemma_read_pairs_append(a, b);
    let st2 = match m.display_name {
        Some(n) => MagnetFields { display_name: Some(n@), ..st1 },
        None => st1,
    };
    match m.display_name {
        Some(n) => {
            lemma_read_one(st1, b[0]);
            assert(b =~= seq![b[0]]);
            assert(key2('d', 'n')[0] != key2('x', 't')[0]);
        },
        None => {},
    }
    assert(read_pairs(a + b) == Some(st2));
    // The trackers.
    lemma_read_pairs_append(a + b, c);
    lemma_read_trackers(st2, trs);
    let st3 = MagnetFields { trackers: st2.trackers + trs, ..st2 };
    assert(read_pairs(a + b + c) == Some(st3));
    // The length.
    lemma_read_pairs_append(a + b + c, d);
    let st4 = match m.exact_length {
        Some(l) => MagnetFields { exact_length: Some(l), ..st3 },
        None => st3,
    };
    match m.exact_length {
        Some(l) => {
            lemma_read_one(st3, d[0]);
            assert(d =~= seq![d[0]]);
            lemma_read_length(st3, l);
        },
        None => {},
    }
    assert(read_pairs(a + b + c + d) == Some(st4));
    // The exact source.
    lemma_read_pairs_append(a + b + c + d, e);
    let st5 = match m.exact_source {
        Some(x) => MagnetFields { exact_source: Some(x@), ..st4 },
        None => st4,
    };
    match m.exact_source {
        Some(x) => {
            lemma_read_one(st4, e[0]);
            assert(e =~= seq![e[0]]);
            assert(key2('x', 's')[1] != key2('x', 't')[1]);
            assert(key2('x', 's')[1] != key2('x', 'l')[1]);
            assert(key2('x', 's')[0] != key2('d', 'n')[0]);
            assert(key2('x', 's')[0] != key2('t', 'r')[0]);
        },
        None => {},
    }
    assert(read_pairs(a + b + c + d + e) == Some(st5));
    // The acceptable sources.
    lemma_read_pairs_append(a + b + c + d + e, f);
    lemma_read_sources(st5, srcs);
    let st6 = MagnetFields { acceptable_source: st5.acceptable_source + srcs, ..st5 };
    assert(read_pairs(magnet_pairs(m)) == Some(st6));
    assert(st6.trackers =~= texts(m.trackers@));
    assert(st6.acceptable_source =~= texts(m.acceptable_source@));
    assert(st6.keywords =~= texts(m.keywords@));
}

} // verus!
