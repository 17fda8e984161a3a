//! HTTP trackers: the announce and scrape requests, and reading their
//! bencoded replies.

use crate::bencode_parser::{list_view, parse_at, parse_bencode, Bencode, BencodeValue, Parsed};
use crate::buffer::bytes_as_slice;
use crate::codecs::{append_query_pair, hex_digit_upper, hex_encode, hex_text, normalize_url, percent_byte, url_serialization, url_with_pair};
use crate::decimal::{ascii_chars, ascii_to_chars, is_digit, lemma_nat_digits, nat_digits, u64_digits};
use crate::error::{invalid_torrent, Result, WebTorrentError};
use crate::extensions::{peers_of_compact, UtPex};
use crate::text::{str_chars, string_from_chars};
use crate::torrent::string_of;
use crate::webrtc::push_text;
use crate::keys::{complete_key, complete_key_bytes, downloaded_key, downloaded_key_bytes, failure_reason_key, failure_reason_key_bytes, files_key, files_key_bytes, incomplete_key, incomplete_key_bytes, interval_key, interval_key_bytes, ip_key, ip_key_bytes, min_interval_key, min_interval_key_bytes, peers_key, peers_key_bytes, port_key, port_key_bytes, tracker_id_key, tracker_id_key_bytes, warning_message_key, warning_message_key_bytes};

use vstd::prelude::*;

verus! {

/// A peer in the dictionary form of a tracker's peer list.
#[derive(Debug, Clone)]
pub struct TrackerPeer {
    pub peer_id: Option<String>,
    pub ip: String,
    pub port: u16,
}

/// The peers of a tracker reply, compact or as dictionaries.
#[derive(Debug, Clone)]
pub enum TrackerPeers {
    String(String),
    List(Vec<TrackerPeer>),
}

/// A tracker's reply to an announce.
#[derive(Debug, Clone)]
pub struct TrackerResponse {
    pub interval: Option<u64>,
    pub min_interval: Option<u64>,
    pub tracker_id: Option<String>,
    pub complete: Option<u64>,
    pub incomplete: Option<u64>,
    pub peers: TrackerPeers,
    pub failure_reason: Option<String>,
    pub warning_message: Option<String>,
}

/// The text ends with `suffix`.
pub open spec fn ends_with(s: Seq<char>, suffix: Seq<char>) -> bool {
    suffix.len() <= s.len() && s.subrange(s.len() - suffix.len(), s.len() as int) == suffix
}

/// The text starts with `prefix`.
pub open spec fn begins_with(s: Seq<char>, prefix: Seq<char>) -> bool {
    prefix.len() <= s.len() && s.subrange(0, prefix.len() as int) == prefix
}

/// Every occurrence of a nonempty `from` replaced by `to`, scanning from
/// the front, as `str::replace` does.
pub open spec fn replace_all(s: Seq<char>, from: Seq<char>, to: Seq<char>) -> Seq<char>
    decreases s.len(),
{
    if s.len() == 0 || from.len() == 0 {
        s
    } else if begins_with(s, from) {
        to + replace_all(s.subrange(from.len() as int, s.len() as int), from, to)
    } else {
        seq![s[0]] + replace_all(s.subrange(1, s.len() as int), from, to)
    }
}

/// The text `/announce`.
pub open spec fn slash_announce() -> Seq<char> {
    seq!['/', 'a', 'n', 'n', 'o', 'u', 'n', 'c', 'e']
}

/// The text `/stats`.
pub open spec fn slash_stats() -> Seq<char> {
    seq!['/', 's', 't', 'a', 't', 's']
}

/// The announce endpoint of a tracker URL: kept when it ends in
/// `/announce`; `/stats` replaced by `/announce` when it ends in `/stats`;
/// otherwise `announce` appended after a `/`.
pub open spec fn announce_endpoint(url: Seq<char>) -> Seq<char> {
    if ends_with(url, slash_announce()) {
        url
    } else if ends_with(url, slash_stats()) {
        replace_all(url, slash_stats(), slash_announce())
    } else if url.len() > 0 && url.last() == '/' {
        url + slash_announce().subrange(1, 9)
    } else {
        url + slash_announce()
    }
}

/// Every byte written as `%XX`.
pub open spec fn percent_all(b: Seq<u8>) -> Seq<char>
    decreases b.len(),
{
    if b.len() == 0 {
        Seq::empty()
    } else {
        percent_all(b.drop_last()) + percent_byte(b.last())
    }
}

/// The decimal text of a number.
pub open spec fn dec(n: nat) -> Seq<char> {
    ascii_chars(nat_digits(n))
}

/// The query of an announce request.
pub open spec fn announce_query(
    info_hash: Seq<u8>,
    peer_id: Seq<u8>,
    port: u16,
    uploaded: u64,
    downloaded: u64,
    left: u64,
    event: Seq<char>,
) -> Seq<char> {
    seq!['i', 'n', 'f', 'o', '_', 'h', 'a', 's', 'h', '='] + percent_all(info_hash) + seq![
        '&',
        'p',
        'e',
        'e',
        'r',
        '_',
        'i',
        'd',
        '=',
    ] + percent_all(peer_id) + seq!['&', 'p', 'o', 'r', 't', '='] + dec(port as nat) + seq![
        '&',
        'u',
        'p',
        'l',
        'o',
        'a',
        'd',
        'e',
        'd',
        '=',
    ] + dec(uploaded as nat) + seq!['&', 'd', 'o', 'w', 'n', 'l', 'o', 'a', 'd', 'e', 'd', '=']
        + dec(downloaded as nat) + seq!['&', 'l', 'e', 'f', 't', '='] + dec(left as nat) + seq![
        '&',
        'c',
        'o',
        'm',
        'p',
        'a',
        'c',
        't',
        '=',
        '1',
        '&',
        'e',
        'v',
        'e',
        'n',
        't',
        '=',
    ] + event
}

/// The announce URL before the URL parser sees it: the endpoint, then `?`
/// (or `&` when the endpoint already has a query), then the query.
pub open spec fn announce_url_text(endpoint: Seq<char>, query: Seq<char>) -> Seq<char> {
    endpoint + (if endpoint.contains('?') {
        seq!['&']
    } else {
        seq!['?']
    }) + query
}

/// A tracker.
pub struct TrackerClient {
    announce_url: String,
    info_hash: [u8; 20],
    peer_id: [u8; 20],
    port: u16,
}

impl TrackerClient {
    /// The tracker's URL.
    pub closed spec fn url_view(&self) -> Seq<char> {
        self.announce_url@
    }

    /// The torrent's info hash.
    pub closed spec fn info_hash_view(&self) -> Seq<u8> {
        self.info_hash@
    }

    /// Our peer id.
    pub closed spec fn peer_id_view(&self) -> Seq<u8> {
        self.peer_id@
    }

    /// The port we listen on.
    pub closed spec fn port_view(&self) -> u16 {
        self.port
    }

    /// A tracker at `announce_url` for a torrent.
    pub fn new(announce_url: String, info_hash: [u8; 20], peer_id: [u8; 20], port: u16) -> (r: TrackerClient)
        ensures
            r.url_view() == announce_url@,
            r.info_hash_view() == info_hash@,
            r.peer_id_view() == peer_id@,
            r.port_view() == port,
    {
        TrackerClient { announce_url, info_hash, peer_id, port }
    }

    /// The URL of an announce, as the URL parser writes it; fails when the
    /// text is no URL.
    pub fn announce_request(&self, uploaded: u64, downloaded: u64, left: u64, event: &str) -> (r: Result<String>)
        ensures
            ({
                let text = announce_url_text(
                    announce_endpoint(self.url_view()),
                    announce_query(self.info_hash_view(), self.peer_id_view(), self.port_view(), uploaded, downloaded, left, event@),
                );
                match url_serialization(text) {
                    Some(u) => r matches Ok(s) && s@ == u,
                    None => r matches Err(e) && e is InvalidTorrent,
                }
            }),
    {
        let url = str_chars(self.announce_url.as_str());
        let mut text = endpoint_chars(&url);
        let ghost endpoint = text@;
        let has_query = contains_char(&text, '?');
        if has_query {
            text.push('&');
        } else {
            text.push('?');
        }
        let ghost with_sep = text@;
        let query = query_chars(&self.info_hash, &self.peer_id, self.port, uploaded, downloaded, left, event);
        append_chars(&mut text, &query);
        proof {
            assert(with_sep =~= endpoint + (if endpoint.contains('?') {
                seq!['&']
            } else {
                seq!['?']
            }));
        }
        let full = string_from_chars(text.as_slice());
        match normalize_url(full.as_str()) {
            Some(u) => Ok(u),
            None => Err(invalid_torrent("Invalid tracker URL")),
        }
    }

    /// The URL of a scrape: `/announce` then `announce` replaced by
    /// `/scrape` and `scrape`, with the info hash appended as a query pair
    /// whose value is the percent-encoded hash; fails when the text is no
    /// URL.
    pub fn scrape_request(&self) -> (r: Result<String>)
        ensures
            ({
                let text = replace_all(
                    replace_all(self.url_view(), slash_announce(), seq!['/', 's', 'c', 'r', 'a', 'p', 'e']),
                    slash_announce().subrange(1, 9),
                    seq!['s', 'c', 'r', 'a', 'p', 'e'],
                );
                match url_with_pair(text, seq!['i', 'n', 'f', 'o', '_', 'h', 'a', 's', 'h'], scrape_hash_text(self.info_hash_view())) {
                    Some(u) => r matches Ok(s) && s@ == u,
                    None => r matches Err(e) && e is InvalidTorrent,
                }
            }),
    {
        let url = str_chars(self.announce_url.as_str());
        let from1: Vec<char> = vec!['/', 'a', 'n', 'n', 'o', 'u', 'n', 'c', 'e'];
        let to1: Vec<char> = vec!['/', 's', 'c', 'r', 'a', 'p', 'e'];
        let from2: Vec<char> = vec!['a', 'n', 'n', 'o', 'u', 'n', 'c', 'e'];
        let to2: Vec<char> = vec!['s', 'c', 'r', 'a', 'p', 'e'];
        proof {
            assert(from1@ =~= slash_announce());
            assert(to1@ =~= seq!['/', 's', 'c', 'r', 'a', 'p', 'e']);
            assert(from2@ =~= slash_announce().subrange(1, 9));
            assert(to2@ =~= seq!['s', 'c', 'r', 'a', 'p', 'e']);
        }
        let step1 = replace_chars(&url, &from1, &to1);
        let step2 = replace_chars(&step1, &from2, &to2);
        let text = string_from_chars(step2.as_slice());
        let name_chars: Vec<char> = vec!['i', 'n', 'f', 'o', '_', 'h', 'a', 's', 'h'];
        proof {
            assert(name_chars@ =~= seq!['i', 'n', 'f', 'o', '_', 'h', 'a', 's', 'h']);
        }
        let name = string_from_chars(name_chars.as_slice());
        let value = scrape_hash(&self.info_hash);
        match append_query_pair(text.as_str(), name.as_str(), value.as_str()) {
            Some(u) => Ok(u),
            None => Err(invalid_torrent("Invalid tracker URL")),
        }
    }
}

/// The info hash as a scrape request writes it: each byte percent-encoded
/// the way `urlencoding::encode_binary` does.
pub open spec fn scrape_hash_text(h: Seq<u8>) -> Seq<char> {
    crate::codecs::percent_encoded(h)
}

/// `urlencoding::encode_binary` of the info hash.
#[verifier::external_body]
fn scrape_hash(h: &[u8; 20]) -> (r: String)
    ensures
        r@ == scrape_hash_text(h@),
{
    urlencoding::encode_binary(h).into_owned()
}

/// Whether `c` occurs in `s`.
fn contains_char(s: &Vec<char>, c: char) -> (r: bool)
    ensures
        r == s@.contains(c),
{
    let mut i: usize = 0;
    while i < s.len()
        invariant
            0 <= i <= s@.len(),
            forall|j: int| 0 <= j < i ==> s@[j] != c,
        decreases s@.len() - i,
    {
        if s[i] == c {
            proof {
                assert(s@[i as int] == c);
            }
            return true;
        }
        i = i + 1;
    }
    false
}

/// Appends characters.
fn append_chars(out: &mut Vec<char>, s: &Vec<char>)
    ensures
        final(out)@ == old(out)@ + s@,
{
    let mut i: usize = 0;
    while i < s.len()
        invariant
            0 <= i <= s@.len(),
            out@ == old(out)@ + s@.subrange(0, i as int),
        decreases s@.len() - i,
    {
        out.push(s[i]);
        proof {
            assert(out@ =~= old(out)@ + s@.subrange(0, i + 1));
        }
        i = i + 1;
    }
    proof {
        assert(s@.subrange(0, s@.len() as int) =~= s@);
    }
}

/// Whether `s` ends with `suffix`.
fn ends_with_chars(s: &Vec<char>, suffix: &Vec<char>) -> (r: bool)
    ensures
        r == ends_with(s@, suffix@),
{
    if suffix.len() > s.len() {
        return false;
    }
    let off = s.len() - suffix.len();
    let slen = s.len();
    let mut i: usize = 0;
    while i < suffix.len()
        invariant
            0 <= i <= suffix@.len(),
            slen == s@.len(),
            off + suffix@.len() == s@.len(),
            forall|j: int| 0 <= j < i ==> s@[off + j] == suffix@[j],
        decreases suffix@.len() - i,
    {
        if s[off + i] != suffix[i] {
            proof {
                assert(s@.subrange(off as int, s@.len() as int)[i as int] != suffix@[i as int]);
            }
            return false;
        }
        i = i + 1;
    }
    proof {
        assert(s@.subrange(off as int, s@.len() as int) =~= suffix@);
    }
    true
}

/// Whether `from` stands in `s` at `i`.
fn matches_at(s: &Vec<char>, i: usize, from: &Vec<char>) -> (r: bool)
    requires
        i <= s@.len(),
    ensures
        r == begins_with(s@.subrange(i as int, s@.len() as int), from@),
{
    let rest_len = s.len() - i;
    if from.len() > rest_len {
        return false;
    }
    let slen = s.len();
    let mut k: usize = 0;
    while k < from.len()
        invariant
            0 <= k <= from@.len(),
            slen == s@.len(),
            i + from@.len() <= s@.len(),
            forall|j: int| 0 <= j < k ==> s@[i + j] == from@[j],
        decreases from@.len() - k,
    {
        if s[i + k] != from[k] {
            proof {
                assert(s@.subrange(i as int, s@.len() as int).subrange(0, from@.len() as int)[k as int] != from@[k as int]);
            }
            return false;
        }
        k = k + 1;
    }
    proof {
        assert(s@.subrange(i as int, s@.len() as int).subrange(0, from@.len() as int) =~= from@);
    }
    true
}

/// Every occurrence of `from` replaced by `to`.
fn replace_chars(s: &Vec<char>, from: &Vec<char>, to: &Vec<char>) -> (r: Vec<char>)
    requires
        from@.len() > 0,
    ensures
        r@ == replace_all(s@, from@, to@),
{
    let mut out: Vec<char> = Vec::new();
    let mut i: usize = 0;
    proof {
        assert(s@.subrange(0, s@.len() as int) =~= s@);
    }
    while i < s.len()
        invariant
            0 <= i <= s@.len(),
            from@.len() > 0,
            out@ + replace_all(s@.subrange(i as int, s@.len() as int), from@, to@) == replace_all(s@, from@, to@),
        decreases s@.len() - i,
    {
        let ghost rest = s@.subrange(i as int, s@.len() as int);
        if matches_at(s, i, from) {
            append_chars(&mut out, to);
            proof {
                assert(rest.subrange(from@.len() as int, rest.len() as int) =~= s@.subrange(i + from@.len(), s@.len() as int));
                assert(out@ + replace_all(s@.subrange(i + from@.len(), s@.len() as int), from@, to@) =~= replace_all(s@, from@, to@));
            }
            i = i + from.len();
        } else {
            out.push(s[i]);
            proof {
                assert(rest.subrange(1, rest.len() as int) =~= s@.subrange(i + 1, s@.len() as int));
                assert(out@ + replace_all(s@.subrange(i + 1, s@.len() as int), from@, to@) =~= replace_all(s@, from@, to@));
            }
            i = i + 1;
        }
    }
    proof {
        assert(s@.subrange(s@.len() as int, s@.len() as int) =~= Seq::<char>::empty());
        assert(out@ + Seq::<char>::empty() =~= out@);
    }
    out
}

/// The announce endpoint of a tracker URL.
fn endpoint_chars(url: &Vec<char>) -> (r: Vec<char>)
    ensures
        r@ == announce_endpoint(url@),
{
    let announce: Vec<char> = vec!['/', 'a', 'n', 'n', 'o', 'u', 'n', 'c', 'e'];
    let stats: Vec<char> = vec!['/', 's', 't', 'a', 't', 's'];
    proof {
        assert(announce@ =~= slash_announce());
        assert(stats@ =~= slash_stats());
    }
    if ends_with_chars(url, &announce) {
        let mut out: Vec<char> = Vec::new();
        append_chars(&mut out, url);
        proof {
            assert(out@ =~= url@);
        }
        out
    } else if ends_with_chars(url, &stats) {
        replace_chars(url, &stats, &announce)
    } else if url.len() > 0 && url[url.len() - 1] == '/' {
        let mut out: Vec<char> = Vec::new();
        append_chars(&mut out, url);
        let tail: Vec<char> = vec!['a', 'n', 'n', 'o', 'u', 'n', 'c', 'e'];
        append_chars(&mut out, &tail);
        proof {
            assert(tail@ =~= slash_announce().subrange(1, 9));
            assert(out@ =~= url@ + slash_announce().subrange(1, 9));
        }
        out
    } else {
        let mut out: Vec<char> = Vec::new();
        append_chars(&mut out, url);
        append_chars(&mut out, &announce);
        proof {
            assert(out@ =~= url@ + slash_announce());
        }
        out
    }
}

/// The hexadecimal digit of `n < 16`, upper case.
fn upper_digit(n: u8) -> (r: char)
    requires
        n < 16,
    ensures
        r == hex_digit_upper(n as nat),
{
    if n < 10 {
        ((48 + n) as u8) as char
    } else {
        ((55 + n) as u8) as char
    }
}

/// Every byte written as `%XX`.
fn percent_all_chars(b: &[u8]) -> (r: Vec<char>)
    ensures
        r@ == percent_all(b@),
{
    let mut out: Vec<char> = Vec::new();
    let mut i: usize = 0;
    while i < b.len()
        invariant
            0 <= i <= b@.len(),
            out@ == percent_all(b@.subrange(0, i as int)),
        decreases b@.len() - i,
    {
        let x = b[i];
        out.push('%');
        out.push(upper_digit(x / 16));
        out.push(upper_digit(x % 16));
        proof {
            assert(b@.subrange(0, i + 1).drop_last() =~= b@.subrange(0, i as int));
            assert(out@ =~= percent_all(b@.subrange(0, i + 1)));
        }
        i = i + 1;
    }
    proof {
        assert(b@.subrange(0, b@.len() as int) =~= b@);
    }
    out
}

/// The decimal text of a number.
fn dec_chars(n: u64) -> (r: Vec<char>)
    ensures
        r@ == dec(n as nat),
{
    let d = u64_digits(n);
    proof {
        lemma_nat_digits(n as nat);
        assert forall|i: int| 0 <= i < d@.len() implies d@[i] < 128 by {
            assert(is_digit(d@[i]));
        }
    }
    ascii_to_chars(&d)
}

/// The query of an announce request.
fn query_chars(
    info_hash: &[u8; 20],
    peer_id: &[u8; 20],
    port: u16,
    uploaded: u64,
    downloaded: u64,
    left: u64,
    event: &str,
) -> (r: Vec<char>)
    ensures
        r@ == announce_query(info_hash@, peer_id@, port, uploaded, downloaded, left, event@),
{
    let mut out: Vec<char> = vec!['i', 'n', 'f', 'o', '_', 'h', 'a', 's', 'h', '='];
    append_chars(&mut out, &percent_all_chars(info_hash.as_slice()));
    append_chars(&mut out, &vec!['&', 'p', 'e', 'e', 'r', '_', 'i', 'd', '=']);
    append_chars(&mut out, &percent_all_chars(peer_id.as_slice()));
    append_chars(&mut out, &vec!['&', 'p', 'o', 'r', 't', '=']);
    append_chars(&mut out, &dec_chars(port as u64));
    append_chars(&mut out, &vec!['&', 'u', 'p', 'l', 'o', 'a', 'd', 'e', 'd', '=']);
    append_chars(&mut out, &dec_chars(uploaded));
    append_chars(&mut out, &vec!['&', 'd', 'o', 'w', 'n', 'l', 'o', 'a', 'd', 'e', 'd', '=']);
    append_chars(&mut out, &dec_chars(downloaded));
    append_chars(&mut out, &vec!['&', 'l', 'e', 'f', 't', '=']);
    append_chars(&mut out, &dec_chars(left));
    append_chars(&mut out, &vec!['&', 'c', 'o', 'm', 'p', 'a', 'c', 't', '=', '1', '&', 'e', 'v', 'e', 'n', 't', '=']);
    append_chars(&mut out, &str_chars(event));
    proof {
        assert(out@ =~= announce_query(info_hash@, peer_id@, port, uploaded, downloaded, left, event@));
    }
    out
}

/// An integer value cut to 64 bits.
pub open spec fn int_of(v: Option<Bencode>) -> Option<u64> {
    match v {
        Some(Bencode::Int(i)) => Some(i as u64),
        _ => None,
    }
}

/// The peers of a list of peer dictionaries: those with a UTF-8 `ip` and an
/// integer `port`, which is cut to 16 bits.
pub open spec fn dict_peers(l: Seq<Bencode>) -> Seq<(Seq<char>, u16)>
    decreases l.len(),
{
    if l.len() == 0 {
        Seq::empty()
    } else {
        let d = l.last();
        dict_peers(l.drop_last()) + match (string_of(d.get(ip_key())), d.get(port_key())) {
            (Some(ip), Some(Bencode::Int(p))) => seq![(ip, p as u16)],
            _ => Seq::empty(),
        }
    }
}

/// The peers of a tracker reply: compact (six bytes a peer) when `peers`
/// is a byte string of a multiple of six bytes, dictionaries when it is a
/// list, none otherwise.
pub open spec fn reply_peers(v: Bencode) -> Seq<(Seq<char>, u16)> {
    match v.get(peers_key()) {
        Some(Bencode::Str(b)) => if b.len() % 6 == 0 {
            peers_of_compact(b)
        } else {
            Seq::empty()
        },
        Some(Bencode::List(l)) => dict_peers(l),
        _ => Seq::empty(),
    }
}

/// The texts and ports of peers.
pub open spec fn peer_texts(v: Seq<(String, u16)>) -> Seq<(Seq<char>, u16)> {
    Seq::new(v.len(), |i: int| (v[i].0@, v[i].1))
}

/// The text of an optional string.
pub open spec fn text_of(s: Option<String>) -> Option<Seq<char>> {
    match s {
        Some(t) => Some(t@),
        None => None,
    }
}

/// The reply `r` to an announce, read from the value `v`.
pub open spec fn response_matches(v: Bencode, r: TrackerResponse) -> bool {
    &&& r.interval == Some(
        match int_of(v.get(interval_key())) {
            Some(i) => i,
            None => 1800u64,
        },
    )
    &&& r.min_interval == int_of(v.get(min_interval_key()))
    &&& text_of(r.tracker_id) == string_of(v.get(tracker_id_key()))
    &&& r.complete == int_of(v.get(complete_key()))
    &&& r.incomplete == int_of(v.get(incomplete_key()))
    &&& r.peers matches TrackerPeers::String(s) && s@.len() == 0
    &&& text_of(r.failure_reason) == string_of(v.get(failure_reason_key()))
    &&& text_of(r.warning_message) == string_of(v.get(warning_message_key()))
}

/// An integer field of a reply cut to 64 bits.
fn int_field(v: &BencodeValue, key: &Vec<u8>) -> (r: Option<u64>)
    ensures
        r == int_of(v@.get(key@)),
{
    match v.get(key.as_slice()) {
        Some(x) => match x.as_integer() {
            Some(i) => Some(i as u64),
            None => None,
        },
        None => None,
    }
}

/// A UTF-8 string field of a reply.
fn string_field(v: &BencodeValue, key: &Vec<u8>) -> (r: Option<String>)
    ensures
        text_of(r) == string_of(v@.get(key@)),
{
    match v.get(key.as_slice()) {
        Some(x) => x.as_string(),
        None => None,
    }
}

/// The peers of the compact form of a peer list.
fn compact_peers_list(b: &[u8]) -> (r: Vec<(String, u16)>)
    ensures
        peer_texts(r@) == peers_of_compact(b@),
{
    match UtPex::decode(b) {
        Ok(v) => v,
        Err(_) => Vec::new(),
    }
}

/// The message of a tracker's refusal: `Tracker error: ` and its reason.
pub open spec fn tracker_error_text(reason: Seq<char>) -> Seq<char> {
    seq!['T', 'r', 'a', 'c', 'k', 'e', 'r', ' ', 'e', 'r', 'r', 'o', 'r', ':', ' '] + reason
}

/// Reads an announce reply.  Fails with a bencode error where the bytes do
/// not begin with a bencoded value, and with a discovery error, whose
/// message is `Tracker error: ` and the reason, where it holds a UTF-8
/// `failure reason`.  The peers come compact or as
/// dictionaries; the interval is 1800 seconds unless given.
pub fn parse_announce_response(data: &[u8]) -> (r: Result<(TrackerResponse, Vec<(String, u16)>)>)
    requires
        parse_at(data@, 0) != Parsed::Overflow,
    ensures
        match parse_at(data@, 0) {
            Parsed::Value(v, _) => if string_of(v.get(failure_reason_key())) is Some {
                r matches Err(e) && e matches WebTorrentError::Discovery(m)
                    && m@ == tracker_error_text(string_of(v.get(failure_reason_key())).unwrap())
            } else {
                r matches Ok((resp, peers)) && response_matches(v, resp) && peer_texts(peers@) == reply_peers(v)
            },
            _ => r matches Err(e) && e is Bencode,
        },
{
    let (bencode, _) = match parse_bencode(data) {
        Ok(x) => x,
        Err(e) => return Err(e),
    };
    let failure_k = failure_reason_key_bytes();
    match string_field(&bencode, &failure_k) {
        Some(reason) => {
            let mut text: Vec<char> = Vec::new();
            push_text(&mut text, "Tracker error: ");
            proof {
                reveal_strlit("Tracker error: ");
            }
            let r = str_chars(reason.as_str());
            let ghost head = text@;
            let mut i: usize = 0;
            while i < r.len()
                invariant
                    0 <= i <= r@.len(),
                    text@ == head + r@.subrange(0, i as int),
                decreases r@.len() - i,
            {
                text.push(r[i]);
                proof {
                    assert(text@ =~= head + r@.subrange(0, i + 1));
                }
                i = i + 1;
            }
            proof {
                assert(r@.subrange(0, r@.len() as int) =~= r@);
                assert(text@ =~= tracker_error_text(reason@));
            }
            return Err(WebTorrentError::Discovery(string_from_chars(text.as_slice())));
        },
        None => {},
    }
    let peers_k = peers_key_bytes();
    let mut peers: Vec<(String, u16)> = Vec::new();
    match bencode.get(peers_k.as_slice()) {
        Some(p) => match p.as_bytes() {
            Some(b) => {
                let slice = bytes_as_slice(b);
                if slice.len() % 6 == 0 {
                    peers = compact_peers_list(slice);
                } else {
                    proof {
                        assert(peer_texts(peers@) =~= reply_peers(bencode@));
                    }
                }
            },
            None => match p.as_list() {
                Some(list) => {
                    let ghost lv = list_view(list@);
                    let ip_k = ip_key_bytes();
                    let port_k = port_key_bytes();
                    let mut i: usize = 0;
                    proof {
                        assert(lv.subrange(0, 0) =~= Seq::<Bencode>::empty());
                        assert(peer_texts(peers@) =~= dict_peers(lv.subrange(0, 0)));
                    }
                    while i < list.len()
                        invariant
                            0 <= i <= list@.len(),
                            lv == list_view(list@),
                            ip_k@ == ip_key(),
                            port_k@ == port_key(),
                            peer_texts(peers@) == dict_peers(lv.subrange(0, i as int)),
                        decreases list@.len() - i,
                    {
                        proof {
                            assert(lv.subrange(0, i + 1).drop_last() =~= lv.subrange(0, i as int));
                            assert(lv[i as int] == list@[i as int]@);
                        }
                        let d = &list[i];
                        let ip = string_field(d, &ip_k);
                        let port: Option<i64> = match d.get(port_k.as_slice()) {
                            Some(x) => x.as_integer(),
                            None => None,
                        };
                        let ghost before = peers@;
                        match (ip, port) {
                            (Some(ip), Some(p)) => {
                                peers.push((ip, p as u16));
                                proof {
                                    assert(peer_texts(peers@) =~= peer_texts(before).push((ip@, p as u16)));
                                }
                            },
                            _ => {},
                        }
                        proof {
                            assert(peer_texts(peers@) =~= dict_peers(lv.subrange(0, i + 1)));
                        }
                        i = i + 1;
                    }
                    proof {
                        assert(lv.subrange(0, list@.len() as int) =~= lv);
                    }
                },
                None => {
                    proof {
                        assert(peer_texts(peers@) =~= reply_peers(bencode@));
                    }
                },
            },
        },
        None => {
            proof {
                assert(peer_texts(peers@) =~= reply_peers(bencode@));
            }
        },
    }
    let interval_k = interval_key_bytes();
    let interval = match int_field(&bencode, &interval_k) {
        Some(i) => i,
        None => 1800,
    };
    let min_interval_k = min_interval_key_bytes();
    let tracker_id_k = tracker_id_key_bytes();
    let complete_k = complete_key_bytes();
    let incomplete_k = incomplete_key_bytes();
    let warning_k = warning_message_key_bytes();
    let response = TrackerResponse {
        interval: Some(interval),
        min_interval: int_field(&bencode, &min_interval_k),
        tracker_id: string_field(&bencode, &tracker_id_k),
        complete: int_field(&bencode, &complete_k),
        incomplete: int_field(&bencode, &incomplete_k),
        peers: TrackerPeers::String(String::new()),
        failure_reason: string_field(&bencode, &failure_k),
        warning_message: string_field(&bencode, &warning_k),
    };
    Ok((response, peers))
}

/// The counts a scrape reply gives for the torrent whose info hash is
/// written `key` in hexadecimal: `complete`, `downloaded`, `incomplete`,
/// each 0 when missing.
pub open spec fn scrape_counts(v: Bencode, key: Seq<u8>) -> Option<(u64, u64, u64)> {
    match v.get(files_key()) {
        Some(f) => match f {
            Bencode::Dict(_) => match f.get(key) {
                Some(e) => Some(
                    (
                        match int_of(e.get(complete_key())) {
                            Some(n) => n,
                            None => 0u64,
                        },
                        match int_of(e.get(downloaded_key())) {
                            Some(n) => n,
                            None => 0u64,
                        },
                        match int_of(e.get(incomplete_key())) {
                            Some(n) => n,
                            None => 0u64,
                        },
                    ),
                ),
                None => None,
            },
            _ => None,
        },
        None => None,
    }
}

/// The ASCII bytes of hexadecimal text.
pub open spec fn hex_bytes(h: Seq<u8>) -> Seq<u8> {
    vstd::utf8::encode_utf8(hex_text(h))
}

/// Reads a scrape reply: the counts for our torrent, keyed by the info
/// hash in hexadecimal; no entry when the reply has none.  Fails with a
/// bencode error where the bytes do not begin with a bencoded value.
pub fn parse_scrape_response(info_hash: &[u8; 20], data: &[u8]) -> (r: Result<Vec<(String, (u64, u64, u64))>>)
    requires
        parse_at(data@, 0) != Parsed::Overflow,
    ensures
        match parse_at(data@, 0) {
            Parsed::Value(v, _) => r matches Ok(entries) && match scrape_counts(v, hex_bytes(info_hash@)) {
                Some(c) => entries@.len() == 1 && entries@[0].0@ == hex_text(info_hash@) && entries@[0].1 == c,
                None => entries@.len() == 0,
            },
            _ => r matches Err(e) && e is Bencode,
        },
{
    let (bencode, _) = match parse_bencode(data) {
        Ok(x) => x,
        Err(e) => return Err(e),
    };
    let mut result: Vec<(String, (u64, u64, u64))> = Vec::new();
    let key = hex_encode(info_hash.as_slice());
    let key_bytes = key.as_str().as_bytes();
    let files_k = files_key_bytes();
    match bencode.get(files_k.as_slice()) {
        Some(files) => {
            if files.as_dict().is_some() {
                match files.get(key_bytes) {
                    Some(file_info) => {
                        let complete_k = complete_key_bytes();
                        let downloaded_k = downloaded_key_bytes();
                        let incomplete_k = incomplete_key_bytes();
                        let complete = match int_field(file_info, &complete_k) {
                            Some(n) => n,
                            None => 0,
                        };
                        let downloaded = match int_field(file_info, &downloaded_k) {
                            Some(n) => n,
                            None => 0,
                        };
                        let incomplete = match int_field(file_info, &incomplete_k) {
                            Some(n) => n,
                            None => 0,
                        };
                        result.push((key, (complete, downloaded, incomplete)));
                    },
                    None => {},
                }
            }
        },
        None => {},
    }
    Ok(result)
}


/// A text ending in `/stats` ends in `/announce` once every `/stats` is
/// replaced.
proof fn lemma_replace_stats_ends(s: Seq<char>)
    requires
        ends_with(s, seq!['/', 's', 't', 'a', 't', 's']),
    ensures
        ends_with(replace_all(s, seq!['/', 's', 't', 'a', 't', 's'], seq!['/', 'a', 'n', 'n', 'o', 'u', 'n', 'c', 'e']),
            seq!['/', 'a', 'n', 'n', 'o', 'u', 'n', 'c', 'e']),
    decreases s.len(),
{
    let st = seq!['/', 's', 't', 'a', 't', 's'];
    let an = seq!['/', 'a', 'n', 'n', 'o', 'u', 'n', 'c', 'e'];
    let n = s.len() as int;
    assert(s.subrange(n - 6, n) == st);
    assert(s[n - 6] == '/') by {
        assert(s.subrange(n - 6, n)[0] == s[n - 6]);
    }
    let r = replace_all(s, st, an);
    if begins_with(s, st) {
        let rest = s.subrange(6, n);
        let t = replace_all(rest, st, an);
        assert(r == an + t);
        if rest.len() == 0 {
            assert(t =~= rest);
            assert(r.subrange(r.len() - 9, r.len() as int) =~= an);
        } else {
            assert(rest.len() >= 6) by {
                if rest.len() < 6 {
                    assert(s.subrange(0, 6)[n - 6] == s[n - 6]);
                    assert(st[n - 6] != '/');
                }
            }
            assert(rest.subrange(rest.len() - 6, rest.len() as int) =~= s.subrange(n - 6, n));
            lemma_replace_stats_ends(rest);
            assert(t.subrange(t.len() - 9, t.len() as int) == an);
            assert(r.subrange(r.len() - 9, r.len() as int) =~= t.subrange(t.len() - 9, t.len() as int));
        }
    } else {
        assert(n > 6) by {
            if n == 6 {
                assert(s.subrange(0, 6) =~= s.subrange(n - 6, n));
            }
        }
        let rest = s.subrange(1, n);
        let t = replace_all(rest, st, an);
        assert(r == seq![s[0]] + t);
        assert(rest.subrange(rest.len() - 6, rest.len() as int) =~= s.subrange(n - 6, n));
        lemma_replace_stats_ends(rest);
        assert(t.subrange(t.len() - 9, t.len() as int) == an);
        assert(r.subrange(r.len() - 9, r.len() as int) =~= t.subrange(t.len() - 9, t.len() as int));
    }
}

/// Replacing `/stats` in a text where it occurs only at the very end
/// changes just that end.
proof fn lemma_replace_single_stats(h: Seq<char>)
    requires
        forall|k: int| 0 <= k < h.len() ==> #[trigger] (h + slash_stats()).subrange(k, k + 6) != slash_stats(),
    ensures
        replace_all(h + slash_stats(), slash_stats(), slash_announce()) == h + slash_announce(),
    decreases h.len(),
{
    let st = slash_stats();
    let an = slash_announce();
    let s = h + st;
    if h.len() == 0 {
        assert(s =~= st);
        assert(s.subrange(0, 6) =~= st);
        assert(s.subrange(6, 6) =~= Seq::<char>::empty());
        assert(st.len() == 6);
        assert(begins_with(s, st));
        assert(replace_all(s, st, an) == an + replace_all(s.subrange(6, s.len() as int), st, an));
        assert(s.subrange(6, s.len() as int) =~= Seq::<char>::empty());
        assert(replace_all(Seq::<char>::empty(), st, an) == Seq::<char>::empty());
        assert(an + Seq::<char>::empty() =~= an);
        assert(h + an =~= an);
    } else {
        assert((h + slash_stats()).subrange(0int, 0int + 6) != slash_stats());
        assert(!begins_with(s, st));
        let t = h.subrange(1, h.len() as int);
        assert(s.subrange(1, s.len() as int) =~= t + st);
        assert forall|k: int| 0 <= k < t.len() implies #[trigger] (t + slash_stats()).subrange(k, k + 6) != slash_stats() by {
            assert((t + st).subrange(k, k + 6) =~= s.subrange(k + 1, k + 1 + 6));
            assert((h + slash_stats()).subrange(k + 1, k + 1 + 6) != slash_stats());
        }
        lemma_replace_single_stats(t);
        assert(replace_all(s, st, an) == seq![s[0]] + replace_all(s.subrange(1, s.len() as int), st, an));
        assert(s[0] == h[0]);
        assert(seq![h[0]] + (t + an) =~= h + an);
    }
}

/// A tracker URL that ends in its only `/stats` has that `/stats` turned
/// into `/announce`, the rest kept.
pub proof fn stats_endpoint_becomes_announce(h: Seq<char>)
    requires
        forall|k: int| 0 <= k < h.len() ==> #[trigger] (h + slash_stats()).subrange(k, k + 6) != slash_stats(),
    ensures
        announce_endpoint(h + seq!['/', 's', 't', 'a', 't', 's']) == h + seq!['/', 'a', 'n', 'n', 'o', 'u', 'n', 'c', 'e'],
{
    let st = seq!['/', 's', 't', 'a', 't', 's'];
    let an = seq!['/', 'a', 'n', 'n', 'o', 'u', 'n', 'c', 'e'];
    let u = h + st;
    assert(slash_announce() =~= an);
    assert(slash_stats() =~= st);
    assert(u.subrange(u.len() - 6, u.len() as int) =~= st);
    assert(!ends_with(u, an)) by {
        if ends_with(u, an) {
            assert(u.subrange(u.len() - 9, u.len() as int)[8] == u[u.len() - 1]);
            assert(u[u.len() - 1] == 's');
        }
    }
    lemma_replace_single_stats(h);
    assert(h + slash_announce() =~= h + an);
}

/// The announce endpoint of a tracker URL always ends in `/announce`.  A
/// URL that already does is kept; one that ends in neither `/announce` nor
/// `/stats` is kept whole and followed by `/announce`, its own trailing `/`
/// (if any) standing for the slash.
pub proof fn announce_endpoint_law(url: Seq<char>)
    ensures
        ends_with(announce_endpoint(url), seq!['/', 'a', 'n', 'n', 'o', 'u', 'n', 'c', 'e']),
        ends_with(url, seq!['/', 'a', 'n', 'n', 'o', 'u', 'n', 'c', 'e']) ==> announce_endpoint(url) == url,
        !ends_with(url, seq!['/', 'a', 'n', 'n', 'o', 'u', 'n', 'c', 'e']) && !ends_with(url, seq!['/', 's', 't', 'a', 't', 's'])
            ==> {
            &&& announce_endpoint(url).subrange(0, url.len() as int) == url
            &&& url.len() > 0 && url[url.len() - 1] == '/' ==> announce_endpoint(url).len() == url.len() + 8
            &&& !(url.len() > 0 && url[url.len() - 1] == '/') ==> announce_endpoint(url).len() == url.len() + 9
        },
{
    let an = seq!['/', 'a', 'n', 'n', 'o', 'u', 'n', 'c', 'e'];
    let st = seq!['/', 's', 't', 'a', 't', 's'];
    assert(slash_announce() =~= an);
    assert(slash_stats() =~= st);
    let e = announce_endpoint(url);
    if ends_with(url, an) {
    } else if ends_with(url, st) {
        lemma_replace_stats_ends(url);
    } else if url.len() > 0 && url.last() == '/' {
        assert(slash_announce().subrange(1, 9) =~= an.subrange(1, 9));
        assert(e.subrange(0, url.len() as int) =~= url);
        assert(e.subrange(e.len() - 9, e.len() as int) =~= an) by {
            assert(e.subrange(e.len() - 9, e.len() as int)[0] == url[url.len() - 1]);
        }
    } else {
        assert(e.subrange(0, url.len() as int) =~= url);
        assert(e.subrange(e.len() - 9, e.len() as int) =~= an);
    }
}

} // verus!
