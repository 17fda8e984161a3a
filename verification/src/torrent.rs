//! Torrent metadata: reading a `.torrent` file, and the state of a torrent
//! being downloaded (its pieces, files, selections and counters).

use crate::bencode_order::{lemma_dict_get_wf, lemma_parse_at_wf};
use crate::bencode_parser::{parse_overflows, encode, list_view, parse_at, parse_bencode, Bencode, BencodeValue, Parsed};
use crate::bitfield::{bits_of, max_bits, Bitfield};
use crate::codecs::url_scheme;
use crate::webseed::{is_http_scheme, WebSeedConn};
use crate::buffer::{bytes_as_slice, bytes_contents};
use crate::digest::{sha1, sha1_digest};
use crate::error::{invalid_torrent, Result};
use crate::file::{last_segment, File};
use crate::keys::{announce_key, announce_key_bytes, announce_list_key, announce_list_key_bytes, files_key, files_key_bytes, info_key, info_key_bytes, length_key, length_key_bytes, name_key, name_key_bytes, path_key, path_key_bytes, piece_length_key, piece_length_key_bytes, pieces_key, pieces_key_bytes, private_key, private_key_bytes, url_list_key, url_list_key_bytes};
use crate::text::{str_chars, string_from_chars};
use crate::piece::Piece;
use crate::selections::{matches_range, outside_range, remove_undoes_insert, sorted, stable_sort, Selection, Selections};
use bytes::Bytes;
use std::collections::HashMap;
use vstd::prelude::*;
use vstd::std_specs::iter::IteratorSpec;

use vstd::utf8::{decode_utf8, valid_utf8};

verus! {

/// The text of a byte-string value that is valid UTF-8.
pub open spec fn string_of(v: Option<Bencode>) -> Option<Seq<char>> {
    match v {
        Some(Bencode::Str(s)) => if valid_utf8(s) {
            Some(decode_utf8(s))
        } else {
            None
        },
        _ => None,
    }
}

/// The texts of the items of a list that are UTF-8 byte strings, in order.
pub open spec fn strings_in(l: Seq<Bencode>) -> Seq<Seq<char>>
    decreases l.len(),
{
    if l.len() == 0 {
        Seq::empty()
    } else {
        strings_in(l.drop_last()) + match string_of(Some(l.last())) {
            Some(s) => seq![s],
            None => Seq::empty(),
        }
    }
}

/// The texts in the lists of a list of lists (the tiers of `announce-list`).
pub open spec fn tier_strings(l: Seq<Bencode>) -> Seq<Seq<char>>
    decreases l.len(),
{
    if l.len() == 0 {
        Seq::empty()
    } else {
        tier_strings(l.drop_last()) + match l.last() {
            Bencode::List(inner) => strings_in(inner),
            _ => Seq::empty(),
        }
    }
}

/// The trackers a torrent names: `announce`, then each tracker of each tier
/// of `announce-list`, repeats included.
pub open spec fn announce_candidates(v: Bencode) -> Seq<Seq<char>> {
    (match string_of(v.get(announce_key())) {
        Some(s) => seq![s],
        None => Seq::empty(),
    }) + match v.get(announce_list_key()) {
        Some(Bencode::List(l)) => tier_strings(l),
        _ => Seq::empty(),
    }
}

/// The web seeds a torrent names: `url-list` as one string or a list of them.
pub open spec fn url_list_of(v: Bencode) -> Seq<Seq<char>> {
    match v.get(url_list_key()) {
        Some(x) => match string_of(Some(x)) {
            Some(s) => seq![s],
            None => match x {
                Bencode::List(l) => strings_in(l),
                _ => Seq::empty(),
            },
        },
        None => Seq::empty(),
    }
}

/// Whether a torrent is private: a nonzero integer under `private`.
pub open spec fn private_of(v: Bencode) -> bool {
    match v.get(private_key()) {
        Some(Bencode::Int(i)) => i != 0,
        _ => false,
    }
}

/// Path segments joined with `/`.
pub open spec fn join_path(parts: Seq<Seq<char>>) -> Seq<char>
    decreases parts.len(),
{
    if parts.len() == 0 {
        Seq::empty()
    } else if parts.len() == 1 {
        parts[0]
    } else {
        join_path(parts.drop_last()) + seq!['/'] + parts.last()
    }
}

/// The length of an entry of `files`: its integer `length` cut to 64 bits,
/// 0 when missing.
pub open spec fn file_length_of(f: Bencode) -> u64 {
    match f.get(length_key()) {
        Some(Bencode::Int(i)) => i as u64,
        _ => 0,
    }
}

/// The path of an entry of `files`: its UTF-8 segments joined with `/`.
pub open spec fn file_path_of(f: Bencode) -> Seq<char> {
    match f.get(path_key()) {
        Some(Bencode::List(l)) => join_path(strings_in(l)),
        _ => Seq::empty(),
    }
}

/// The total length of a list of `files` entries.
pub open spec fn files_total(l: Seq<Bencode>) -> nat
    decreases l.len(),
{
    if l.len() == 0 {
        0
    } else {
        files_total(l.drop_last()) + file_length_of(l.last()) as nat
    }
}

/// The path, length and offset of each entry of `files`: each file starts
/// where the ones before it end.
pub open spec fn file_entries(l: Seq<Bencode>) -> Seq<(Seq<char>, u64, u64)>
    decreases l.len(),
{
    if l.len() == 0 {
        Seq::empty()
    } else {
        file_entries(l.drop_last()).push((file_path_of(l.last()), file_length_of(l.last()), files_total(l.drop_last()) as u64))
    }
}

/// The twenty-byte piece digests of `pieces`; a shorter tail is ignored.
pub open spec fn piece_digests(pieces: Seq<u8>) -> Seq<Seq<u8>> {
    Seq::new(pieces.len() / 20, |i: int| pieces.subrange(20 * i, 20 * i + 20))
}

/// The `info` dictionary of a torrent.
pub open spec fn info_of(v: Bencode) -> Bencode {
    v.get(info_key()).unwrap()
}

/// A torrent value has what a torrent needs: it is a dictionary with an
/// `info` dictionary holding a UTF-8 `name`, an integer `piece length`, a
/// byte-string `pieces`, and either an integer `length` or a list `files`.
pub open spec fn torrent_valid(v: Bencode) -> bool {
    &&& v is Dict
    &&& v.get(info_key()) is Some
    &&& string_of(info_of(v).get(name_key())) is Some
    &&& info_of(v).get(piece_length_key()) matches Some(Bencode::Int(_))
    &&& info_of(v).get(pieces_key()) matches Some(Bencode::Str(_))
    &&& match info_of(v).get(length_key()) {
        Some(x) => x is Int,
        None => info_of(v).get(files_key()) matches Some(Bencode::List(_)),
    }
}

/// The lengths of the files of a multi-file torrent add up within 64 bits.
pub open spec fn files_fit(v: Bencode) -> bool {
    v.get(info_key()) matches Some(info) ==> (info.get(length_key()) is None ==> (info.get(files_key())
        matches Some(Bencode::List(l)) ==> files_total(l) <= u64::MAX))
}

/// The texts of strings.
pub open spec fn strings_view(s: Seq<String>) -> Seq<Seq<char>> {
    Seq::new(s.len(), |i: int| s[i]@)
}

/// The path, length and offset of each file.
pub open spec fn files_view(s: Seq<File>) -> Seq<(Seq<char>, u64, u64)> {
    Seq::new(s.len(), |i: int| (s[i].path_view(), s[i].length_view(), s[i].offset_view()))
}

/// What a torrent's metadata says.
pub struct TorrentMetadata {
    pub info_hash: [u8; 20],
    pub metadata: Option<Bytes>,
    pub announce: Vec<String>,
    pub url_list: Vec<String>,
    pub private: bool,
    pub name: String,
    pub length: u64,
    pub piece_length: u64,
    pub piece_hashes: Vec<[u8; 20]>,
    pub files: Vec<File>,
}

/// The digests of a list of twenty-byte arrays.
pub open spec fn digests_view(s: Seq<[u8; 20]>) -> Seq<Seq<u8>> {
    Seq::new(s.len(), |i: int| s[i]@)
}

/// The metadata `m` read from the torrent value `v` of the file `data`.
pub open spec fn metadata_matches(v: Bencode, data: Seq<u8>, m: TorrentMetadata) -> bool {
    let info = info_of(v);
    &&& m.info_hash@ == sha1_digest(encode(info))
    &&& m.metadata matches Some(b) && bytes_contents(b) == data
    &&& strings_view(m.announce@).no_duplicates()
    &&& strings_view(m.announce@).to_set() == announce_candidates(v).to_set()
    &&& strings_view(m.url_list@) == url_list_of(v)
    &&& m.private == private_of(v)
    &&& Some(m.name@) == string_of(info.get(name_key()))
    &&& info.get(piece_length_key()) matches Some(Bencode::Int(i)) && m.piece_length == i as u64
    &&& info.get(pieces_key()) matches Some(Bencode::Str(p)) && digests_view(m.piece_hashes@) == piece_digests(p)
    &&& forall|i: int| 0 <= i < m.files@.len() ==> (#[trigger] m.files@[i]).name_view() == last_segment(m.files@[i].path_view())
        && !m.files@[i].done_view()
    &&& match info.get(length_key()) {
        Some(Bencode::Int(l)) => m.length == l as u64 && files_view(m.files@) == seq![(m.name@, l as u64, 0u64)],
        _ => info.get(files_key()) matches Some(Bencode::List(l)) && m.length == files_total(l) && files_view(m.files@)
            == file_entries(l),
    }
}

/// The text of a value that is a UTF-8 byte string.
fn string_value(v: Option<&BencodeValue>) -> (r: Option<String>)
    ensures
        match string_of(
            match v {
                Some(x) => Some(x@),
                None => None,
            },
        ) {
            Some(s) => r matches Some(t) && t@ == s,
            None => r is None,
        },
{
    match v {
        Some(x) => x.as_string(),
        None => None,
    }
}

/// Appends the texts of the UTF-8 byte strings of a list.
fn push_strings_in(l: &Vec<BencodeValue>, out: &mut Vec<String>)
    ensures
        strings_view(final(out)@) == strings_view(old(out)@) + strings_in(list_view(l@)),
{
    let ghost lv = list_view(l@);
    let mut i: usize = 0;
    proof {
        assert(lv.subrange(0, 0) =~= Seq::<Bencode>::empty());
        assert(strings_view(out@) =~= strings_view(old(out)@) + strings_in(lv.subrange(0, 0)));
    }
    while i < l.len()
        invariant
            0 <= i <= l@.len(),
            lv == list_view(l@),
            strings_view(out@) == strings_view(old(out)@) + strings_in(lv.subrange(0, i as int)),
        decreases l@.len() - i,
    {
        let ghost before = out@;
        proof {
            assert(lv.subrange(0, i + 1).drop_last() =~= lv.subrange(0, i as int));
            assert(lv[i as int] == l@[i as int]@);
        }
        match l[i].as_string() {
            Some(s) => {
                out.push(s);
                proof {
                    assert(strings_view(out@) =~= strings_view(before) + seq![lv[i as int]->Str_0].map_values(
                        |b: Seq<u8>| decode_utf8(b),
                    ));
                    assert(strings_view(out@) =~= strings_view(old(out)@) + strings_in(lv.subrange(0, i + 1)));
                }
            },
            None => {
                proof {
                    assert(strings_view(out@) =~= strings_view(old(out)@) + strings_in(lv.subrange(0, i + 1)));
                }
            },
        }
        i = i + 1;
    }
    proof {
        assert(lv.subrange(0, l@.len() as int) =~= lv);
    }
}

/// Whether `s` is among `v`.
fn contains_string(v: &Vec<String>, s: &String) -> (r: bool)
    ensures
        r == strings_view(v@).contains(s@),
{
    let mut i: usize = 0;
    while i < v.len()
        invariant
            0 <= i <= v@.len(),
            forall|j: int| 0 <= j < i ==> v@[j]@ != s@,
        decreases v@.len() - i,
    {
        if v[i] == *s {
            proof {
                assert(strings_view(v@)[i as int] == s@);
            }
            return true;
        }
        i = i + 1;
    }
    proof {
        if strings_view(v@).contains(s@) {
            let j = choose|j: int| 0 <= j < strings_view(v@).len() && strings_view(v@)[j] == s@;
            assert(v@[j]@ == s@);
        }
    }
    false
}

/// The strings of `v` with repeats removed.
fn dedup_strings(v: Vec<String>) -> (r: Vec<String>)
    ensures
        strings_view(r@).no_duplicates(),
        strings_view(r@).to_set() == strings_view(v@).to_set(),
{
    let mut out: Vec<String> = Vec::new();
    let mut i: usize = 0;
    while i < v.len()
        invariant
            0 <= i <= v@.len(),
            strings_view(out@).no_duplicates(),
            strings_view(out@).to_set() == strings_view(v@).subrange(0, i as int).to_set(),
        decreases v@.len() - i,
    {
        let ghost before = strings_view(out@);
        let s = &v[i];
        proof {
            assert(strings_view(v@).subrange(0, i + 1) =~= strings_view(v@).subrange(0, i as int).push(s@));
            strings_view(v@).subrange(0, i as int).lemma_push_to_set_commute(s@);
        }
        if !contains_string(&out, s) {
            out.push(s.clone());
            proof {
                assert(strings_view(out@) =~= before.push(s@));
                before.lemma_push_to_set_commute(s@);
                assert forall|a: int, b: int| 0 <= a < b < strings_view(out@).len() implies strings_view(out@)[a]
                    != strings_view(out@)[b] by {
                    if b == before.len() {
                        assert(before[a] == strings_view(out@)[a]);
                        assert(before.contains(before[a]));
                    }
                }
            }
        } else {
            proof {
                assert(before.to_set().contains(s@));
                assert(before.to_set().insert(s@) =~= before.to_set());
            }
        }
        i = i + 1;
    }
    proof {
        assert(strings_view(v@).subrange(0, v@.len() as int) =~= strings_view(v@));
    }
    out
}

/// The twenty-byte digests of `pieces`.
fn chunk_digests(pieces: &[u8]) -> (r: Vec<[u8; 20]>)
    ensures
        digests_view(r@) == piece_digests(pieces@),
{
    let len = pieces.len();
    let n = len / 20;
    let mut out: Vec<[u8; 20]> = Vec::new();
    let mut k: usize = 0;
    while k < n
        invariant
            0 <= k <= n,
            len == pieces@.len(),
            n == pieces@.len() / 20,
            digests_view(out@) == piece_digests(pieces@).subrange(0, k as int),
        decreases n - k,
    {
        assert(20 * k + 20 <= pieces@.len()) by (nonlinear_arith)
            requires
                k < n,
                n == pieces@.len() / 20,
        ;
        assert(20 * k <= len);
        let b: usize = 20 * k;
        let mut h: [u8; 20] = [0u8; 20];
        let mut j: usize = 0;
        while j < 20
            invariant
                0 <= j <= 20,
                len == pieces@.len(),
                b + 20 <= len,
                forall|t: int| 0 <= t < j ==> h@[t] == pieces@[b + t],
            decreases 20 - j,
        {
            h[j] = pieces[b + j];
            j = j + 1;
        }
        let ghost before = out@;
        out.push(h);
        proof {
            assert(h@ =~= pieces@.subrange(b as int, b + 20));
            assert(digests_view(out@) =~= digests_view(before).push(h@));
            assert(piece_digests(pieces@)[k as int] == pieces@.subrange(20 * k, 20 * k + 20));
            assert(digests_view(out@) =~= piece_digests(pieces@).subrange(0, k + 1));
        }
        k = k + 1;
    }
    proof {
        assert(piece_digests(pieces@).subrange(0, n as int) =~= piece_digests(pieces@));
    }
    out
}

/// Path segments joined with `/`.
fn join_segments(parts: &Vec<String>) -> (r: String)
    ensures
        r@ == join_path(strings_view(parts@)),
{
    let ghost pv = strings_view(parts@);
    let mut chars: Vec<char> = Vec::new();
    let mut i: usize = 0;
    while i < parts.len()
        invariant
            0 <= i <= parts@.len(),
            pv == strings_view(parts@),
            chars@ == join_path(pv.subrange(0, i as int)),
        decreases parts@.len() - i,
    {
        proof {
            assert(pv.subrange(0, i + 1).drop_last() =~= pv.subrange(0, i as int));
        }
        let part = str_chars(parts[i].as_str());
        if i > 0 {
            chars.push('/');
        }
        let ghost mid = chars@;
        let mut j: usize = 0;
        while j < part.len()
            invariant
                0 <= j <= part@.len(),
                chars@ == mid + part@.subrange(0, j as int),
            decreases part@.len() - j,
        {
            chars.push(part[j]);
            proof {
                assert(chars@ =~= mid + part@.subrange(0, j + 1));
            }
            j = j + 1;
        }
        proof {
            assert(part@.subrange(0, part@.len() as int) =~= part@);
            if i == 0 {
                assert(pv.subrange(0, 1) =~= seq![pv[0]]);
                assert(chars@ =~= join_path(pv.subrange(0, 1)));
            } else {
                assert(chars@ =~= join_path(pv.subrange(0, i + 1)));
            }
        }
        i = i + 1;
    }
    proof {
        assert(pv.subrange(0, parts@.len() as int) =~= pv);
    }
    string_from_chars(chars.as_slice())
}

/// Reads a file list: each entry's path (its UTF-8 segments joined with
/// `/`), length (0 when missing) and offset (the lengths before it).
fn read_file_list(l: &Vec<BencodeValue>) -> (r: (Vec<File>, u64))
    requires
        files_total(list_view(l@)) <= u64::MAX,
    ensures
        files_view(r.0@) == file_entries(list_view(l@)),
        r.1 == files_total(list_view(l@)),
        forall|i: int| 0 <= i < r.0@.len() ==> (#[trigger] r.0@[i]).name_view() == last_segment(r.0@[i].path_view())
            && !r.0@[i].done_view(),
{
    let ghost lv = list_view(l@);
    let mut files: Vec<File> = Vec::new();
    let mut offset: u64 = 0;
    let mut i: usize = 0;
    proof {
        assert(files_view(files@) =~= file_entries(lv.subrange(0, 0)));
    }
    while i < l.len()
        invariant
            0 <= i <= l@.len(),
            lv == list_view(l@),
            files_total(lv) <= u64::MAX,
            files_view(files@) == file_entries(lv.subrange(0, i as int)),
            offset == files_total(lv.subrange(0, i as int)),
            forall|j: int| 0 <= j < files@.len() ==> (#[trigger] files@[j]).name_view() == last_segment(files@[j].path_view())
                && !files@[j].done_view(),
        decreases l@.len() - i,
    {
        let ghost pre = lv.subrange(0, i as int);
        proof {
            assert(lv.subrange(0, i + 1).drop_last() =~= pre);
            assert(lv[i as int] == l@[i as int]@);
            lemma_files_total_prefix(lv, i + 1);
        }
        let entry = &l[i];
        let length_k = length_key_bytes();
        let file_length: u64 = match entry.get(length_k.as_slice()) {
            Some(x) => match x.as_integer() {
                Some(n) => n as u64,
                None => 0,
            },
            None => 0,
        };
        let path_k = path_key_bytes();
        let mut parts: Vec<String> = Vec::new();
        match entry.get(path_k.as_slice()) {
            Some(x) => match x.as_list() {
                Some(segs) => {
                    push_strings_in(segs, &mut parts);
                    proof {
                        assert(strings_view(Seq::<String>::empty()) =~= Seq::<Seq<char>>::empty());
                        assert(strings_view(parts@) =~= strings_in(list_view(segs@)));
                    }
                },
                None => {},
            },
            None => {},
        }
        let path = join_segments(&parts);
        proof {
            if !(entry@.get(path_key()) matches Some(Bencode::List(_))) {
                assert(strings_view(parts@) =~= Seq::<Seq<char>>::empty());
            }
            assert(path@ == file_path_of(lv[i as int]));
            assert(file_length == file_length_of(lv[i as int]));
        }
        let f = File::new(path, file_length, offset);
        let ghost fb = files@;
        files.push(f);
        offset = offset + file_length;
        proof {
            assert(files_view(files@) =~= files_view(fb).push((file_path_of(lv[i as int]), file_length_of(lv[i as int]), files_total(pre) as u64)));
        }
        i = i + 1;
    }
    proof {
        assert(lv.subrange(0, l@.len() as int) =~= lv);
    }
    (files, offset)
}

/// The total of a prefix of a file list is at most the total of the list.
proof fn lemma_files_total_prefix(l: Seq<Bencode>, k: int)
    requires
        0 <= k <= l.len(),
    ensures
        files_total(l.subrange(0, k)) <= files_total(l),
    decreases l.len() - k,
{
    if k < l.len() {
        lemma_files_total_prefix(l, k + 1);
        assert(l.subrange(0, k + 1).drop_last() =~= l.subrange(0, k));
    } else {
        assert(l.subrange(0, k) =~= l);
    }
}

/// The length of a `files` entry as `file_length_of` reads it.
fn entry_length(f: &BencodeValue) -> (r: u64)
    ensures
        r == file_length_of(f@),
{
    let length_k = length_key_bytes();
    match f.get(length_k.as_slice()) {
        Some(x) => match x.as_integer() {
            Some(i) => i as u64,
            None => 0,
        },
        None => 0,
    }
}

/// Whether the lengths of a torrent's files add up within 64 bits
/// (`files_fit`).
pub fn files_fit_check(v: &BencodeValue) -> (r: bool)
    ensures
        r == files_fit(v@),
{
    let info_k = info_key_bytes();
    let info = match v.get(info_k.as_slice()) {
        Some(i) => i,
        None => return true,
    };
    let length_k = length_key_bytes();
    if info.get(length_k.as_slice()).is_some() {
        return true;
    }
    let files_k = files_key_bytes();
    let files = match info.get(files_k.as_slice()) {
        Some(f) => f,
        None => return true,
    };
    let list = match files.as_list() {
        Some(l) => l,
        None => return true,
    };
    let ghost lv = list_view(list@);
    let mut total: u64 = 0;
    let mut k: usize = 0;
    proof {
        assert(lv.take(0) =~= Seq::<Bencode>::empty());
    }
    while k < list.len()
        invariant
            0 <= k <= list@.len(),
            lv == list_view(list@),
            files@ == Bencode::List(lv),
            v@.get(info_key()) == Some(info@),
            info@.get(length_key()) is None,
            info@.get(files_key()) == Some(files@),
            total as nat == files_total(lv.take(k as int)),
        decreases list@.len() - k,
    {
        proof {
            assert(lv.take(k + 1).drop_last() =~= lv.take(k as int));
            assert(lv.take(k + 1).last() == list@[k as int]@);
        }
        let n = entry_length(&list[k]);
        if n > u64::MAX - total {
            proof {
                assert(files_total(lv.take(k + 1)) == files_total(lv.take(k as int)) + file_length_of(list@[k as int]@));
                lemma_files_total_prefix(lv, k + 1);
                assert(lv.take(k + 1) =~= lv.subrange(0, k + 1));
                assert(files_total(lv) > u64::MAX);
                assert(files@ == Bencode::List(lv));
            }
            return false;
        }
        total = total + n;
        k = k + 1;
    }
    proof {
        assert(lv.take(list@.len() as int) =~= lv);
    }
    true
}

/// Reads a torrent file whatever its bytes: a byte-string length that
/// overflows a position, or files whose lengths overflow 64 bits, give an
/// invalid-torrent error; any other file is read as `parse_torrent_file`
/// reads it.
pub fn read_torrent_file(data: Bytes) -> (r: Result<TorrentMetadata>)
    ensures
        parse_at(bytes_contents(data), 0) == Parsed::Overflow ==> (r matches Err(e) && e is InvalidTorrent),
        parse_at(bytes_contents(data), 0) matches Parsed::Value(v, _) && !files_fit(v) ==> (r matches Err(e)
            && e is InvalidTorrent),
        parse_at(bytes_contents(data), 0) != Parsed::Overflow && (parse_at(bytes_contents(data), 0) matches Parsed::Value(
            v,
            _,
        ) ==> files_fit(v)) ==> match parse_at(bytes_contents(data), 0) {
            Parsed::Value(v, _) => if torrent_valid(v) {
                r matches Ok(m) && metadata_matches(v, bytes_contents(data), m)
            } else {
                r matches Err(e) && e is InvalidTorrent
            },
            _ => r matches Err(e) && e is Bencode,
        },
{
    if parse_overflows(bytes_as_slice(&data)) {
        return Err(invalid_torrent("Byte-string length overflows"));
    }
    match parse_bencode(bytes_as_slice(&data)) {
        Ok((v, _)) => {
            if !files_fit_check(&v) {
                return Err(invalid_torrent("File lengths overflow"));
            }
        },
        Err(_) => {},
    }
    parse_torrent_file(data)
}

/// Reads a torrent file.  Fails with a bencode error where the bytes do not
/// begin with a bencoded value, and with an invalid-torrent error where
/// that value lacks what a torrent needs (`torrent_valid`).  The trackers
/// come without repeats, in no promised order.
pub fn parse_torrent_file(data: Bytes) -> (r: Result<TorrentMetadata>)
    requires
        parse_at(bytes_contents(data), 0) != Parsed::Overflow,
        parse_at(bytes_contents(data), 0) matches Parsed::Value(v, _) ==> files_fit(v),
    ensures
        match parse_at(bytes_contents(data), 0) {
            Parsed::Value(v, _) => if torrent_valid(v) {
                r matches Ok(m) && metadata_matches(v, bytes_contents(data), m)
            } else {
                r matches Err(e) && e is InvalidTorrent
            },
            _ => r matches Err(e) && e is Bencode,
        },
{
    let (bencode, _) = match parse_bencode(bytes_as_slice(&data)) {
        Ok(x) => x,
        Err(e) => return Err(e),
    };
    let ghost v = bencode@;
    if bencode.as_dict().is_none() {
        return Err(invalid_torrent("Torrent file must be a dictionary"));
    }
    let info_k = info_key_bytes();
    let info = match bencode.get(info_k.as_slice()) {
        Some(i) => i,
        None => return Err(invalid_torrent("Torrent file missing 'info' field")),
    };
    proof {
        lemma_parse_at_wf(bytes_contents(data), 0);
        if let Bencode::Dict(d) = v {
            lemma_dict_get_wf(d, info_key());
        }
        crate::bencode_order::lemma_canonical_of_wf(info@);
    }
    let info_bytes = info.encode();
    let info_hash = sha1(bytes_as_slice(&info_bytes));

    // Trackers: `announce`, then every tier of `announce-list`.
    let mut all_announce: Vec<String> = Vec::new();
    let announce_k = announce_key_bytes();
    match string_value(bencode.get(announce_k.as_slice())) {
        Some(s) => all_announce.push(s),
        None => {},
    }
    let ghost first = strings_view(all_announce@);
    proof {
        assert(first =~= match string_of(v.get(announce_key())) {
            Some(s) => seq![s],
            None => Seq::<Seq<char>>::empty(),
        });
    }
    let announce_list_k = announce_list_key_bytes();
    match bencode.get(announce_list_k.as_slice()) {
        Some(al) => match al.as_list() {
            Some(tiers) => {
                let ghost tv = list_view(tiers@);
                let mut t: usize = 0;
                proof {
                    assert(tv.subrange(0, 0) =~= Seq::<Bencode>::empty());
                    assert(strings_view(all_announce@) =~= first + tier_strings(tv.subrange(0, 0)));
                }
                while t < tiers.len()
                    invariant
                        0 <= t <= tiers@.len(),
                        tv == list_view(tiers@),
                        strings_view(all_announce@) == first + tier_strings(tv.subrange(0, t as int)),
                    decreases tiers@.len() - t,
                {
                    proof {
                        assert(tv.subrange(0, t + 1).drop_last() =~= tv.subrange(0, t as int));
                        assert(tv[t as int] == tiers@[t as int]@);
                    }
                    let ghost before = strings_view(all_announce@);
                    match tiers[t].as_list() {
                        Some(inner) => {
                            push_strings_in(inner, &mut all_announce);
                            proof {
                                assert(strings_view(all_announce@) =~= first + tier_strings(tv.subrange(0, t + 1)));
                            }
                        },
                        None => {
                            proof {
                                assert(strings_view(all_announce@) =~= first + tier_strings(tv.subrange(0, t + 1)));
                            }
                        },
                    }
                    t = t + 1;
                }
                proof {
                    assert(tv.subrange(0, tiers@.len() as int) =~= tv);
                }
            },
            None => {
                proof {
                    assert(strings_view(all_announce@) =~= announce_candidates(v));
                }
            },
        },
        None => {
            proof {
                assert(strings_view(all_announce@) =~= announce_candidates(v));
            }
        },
    }
    let announce = dedup_strings(all_announce);

    // Web seeds.
    let mut url_list: Vec<String> = Vec::new();
    let url_list_k = url_list_key_bytes();
    match bencode.get(url_list_k.as_slice()) {
        Some(x) => match string_value(Some(x)) {
            Some(s) => {
                url_list.push(s);
                proof {
                    assert(strings_view(url_list@) =~= url_list_of(v));
                }
            },
            None => match x.as_list() {
                Some(items) => {
                    push_strings_in(items, &mut url_list);
                    proof {
                        assert(strings_view(Seq::<String>::empty()) =~= Seq::<Seq<char>>::empty());
                        assert(strings_view(url_list@) =~= url_list_of(v));
                    }
                },
                None => {
                    proof {
                        assert(strings_view(url_list@) =~= url_list_of(v));
                    }
                },
            },
        },
        None => {
            proof {
                assert(strings_view(url_list@) =~= url_list_of(v));
            }
        },
    }

    let private_k = private_key_bytes();
    let private = match bencode.get(private_k.as_slice()) {
        Some(p) => match p.as_integer() {
            Some(i) => i != 0,
            None => false,
        },
        None => false,
    };

    let name_k = name_key_bytes();
    let name = match string_value(info.get(name_k.as_slice())) {
        Some(n) => n,
        None => return Err(invalid_torrent("Info missing 'name' field")),
    };
    let piece_length_k = piece_length_key_bytes();
    let piece_length: u64 = match info.get(piece_length_k.as_slice()) {
        Some(pl) => match pl.as_integer() {
            Some(i) => i as u64,
            None => return Err(invalid_torrent("Info missing 'piece length' field")),
        },
        None => return Err(invalid_torrent("Info missing 'piece length' field")),
    };
    let pieces_k = pieces_key_bytes();
    let pieces = match info.get(pieces_k.as_slice()) {
        Some(p) => match p.as_bytes() {
            Some(b) => b,
            None => return Err(invalid_torrent("Info missing 'pieces' field")),
        },
        None => return Err(invalid_torrent("Info missing 'pieces' field")),
    };
    let piece_hashes = chunk_digests(bytes_as_slice(pieces));

    let length_k = length_key_bytes();
    let files_k = files_key_bytes();
    let (length, files) = match info.get(length_k.as_slice()) {
        Some(length_val) => match length_val.as_integer() {
            Some(l) => {
                let length = l as u64;
                let mut files: Vec<File> = Vec::new();
                files.push(File::new(name.clone(), length, 0));
                proof {
                    assert(files_view(files@) =~= seq![(name@, l as u64, 0u64)]);
                }
                (length, files)
            },
            None => return Err(invalid_torrent("Info 'length' field must be an integer")),
        },
        None => match info.get(files_k.as_slice()) {
            Some(file_list_val) => match file_list_val.as_list() {
                Some(file_list) => {
                    let (files, total) = read_file_list(file_list);
                    (total, files)
                },
                None => return Err(invalid_torrent("Info 'files' field must be a list")),
            },
            None => return Err(invalid_torrent("Info missing 'length' or 'files' field")),
        },
    };

    Ok(
        TorrentMetadata {
            info_hash,
            metadata: Some(data),
            announce,
            url_list,
            private,
            name,
            length,
            piece_length,
            piece_hashes,
            files,
        },
    )
}

/// The length of piece `i` of a torrent of `length` bytes in pieces of
/// `piece_length`: the last piece holds what is left.
pub open spec fn piece_len(length: nat, piece_length: nat, count: nat, i: nat) -> int {
    if i == count - 1 {
        length - i * piece_length
    } else {
        piece_length as int
    }
}

/// Pieces can be laid out: every piece length is at least zero and leaves
/// room for a block count in a `usize`.
pub open spec fn pieces_fit(length: nat, piece_length: nat, count: nat) -> bool {
    forall|i: nat| i < count ==> 0 <= #[trigger] piece_len(length, piece_length, count, i) && piece_len(length, piece_length, count, i) + 16384 <= usize::MAX
}

/// A torrent and the state of its download.
/// The order in which pieces are fetched.
#[derive(Clone, Copy, Debug, PartialEq, Eq, Structural)]
pub enum PieceStrategy {
    /// First piece first, the order a stream reads them.
    Sequential,
    /// The piece fewest peers have first.
    Rarest,
}

pub struct Torrent {
    info_hash: [u8; 20],
    name: String,
    length: u64,
    piece_length: u64,
    pieces: Vec<Option<Piece>>,
    piece_hashes: Vec<[u8; 20]>,
    files: Vec<File>,
    bitfield: Bitfield,
    #[allow(dead_code)]
    metadata: Option<Bytes>,
    announce: Vec<String>,
    url_list: Vec<String>,
    private: bool,
    destroyed: bool,
    downloaded: u64,
    uploaded: u64,
    received: u64,
    web_seeds: Vec<WebSeedConn>,
    peer_ids: Vec<String>,
    selections: Selections,
    selected_files: HashMap<usize, i32>,
    #[allow(dead_code)]
    strategy: PieceStrategy,
}

impl Torrent {
    /// The info hash.
    pub closed spec fn info_hash_view(&self) -> Seq<u8> {
        self.info_hash@
    }

    /// The total length in bytes.
    pub closed spec fn length_view(&self) -> nat {
        self.length as nat
    }

    /// The piece length.
    pub closed spec fn piece_length_view(&self) -> nat {
        self.piece_length as nat
    }

    /// The files, by path, length and offset.
    pub closed spec fn files_view(&self) -> Seq<(Seq<char>, u64, u64)> {
        files_view(self.files@)
    }

    /// The piece selections.
    pub closed spec fn selections_view(&self) -> Seq<Selection> {
        self.selections@
    }

    /// The selected files and their priorities.
    pub closed spec fn selected_view(&self) -> Map<usize, i32> {
        self.selected_files@
    }

    /// Whether the torrent was destroyed.
    pub closed spec fn destroyed_view(&self) -> bool {
        self.destroyed
    }

    /// The ids of the peers, web seeds among them.
    pub closed spec fn peer_ids_view(&self) -> Seq<Seq<char>> {
        strings_view(self.peer_ids@)
    }

    /// The pieces we have.
    pub closed spec fn bitfield_view(&self) -> Seq<bool> {
        bits_of(self.bitfield)
    }

    /// The torrent's name.
    pub closed spec fn name_view(&self) -> Seq<char> {
        self.name@
    }

    /// The digest of each piece.
    pub closed spec fn piece_hashes_view(&self) -> Seq<Seq<u8>> {
        digests_view(self.piece_hashes@)
    }

    /// Whether the torrent is private.
    pub closed spec fn private_view(&self) -> bool {
        self.private
    }

    /// The trackers.
    pub closed spec fn announce_view(&self) -> Seq<Seq<char>> {
        strings_view(self.announce@)
    }

    /// The web seeds the metadata names.
    pub closed spec fn url_list_view(&self) -> Seq<Seq<char>> {
        strings_view(self.url_list@)
    }

    /// The bytes downloaded, uploaded and received.
    pub closed spec fn counters_view(&self) -> (u64, u64, u64) {
        (self.downloaded, self.uploaded, self.received)
    }

    /// The order in which pieces are fetched.
    pub closed spec fn strategy_view(&self) -> PieceStrategy {
        self.strategy
    }

    /// The web seeds, in the order added.
    pub closed spec fn web_seeds_view(&self) -> Seq<WebSeedConn> {
        self.web_seeds@
    }

    /// The number of connections: one per web seed.
    pub closed spec fn num_peers_view(&self) -> nat {
        self.web_seeds@.len()
    }

    /// A torrent from its metadata: every piece missing, no file selected.
    pub fn new(meta: TorrentMetadata) -> (r: Torrent)
        requires
            meta.piece_hashes@.len() <= crate::bitfield::max_bits(),
            pieces_fit(meta.length as nat, meta.piece_length as nat, meta.piece_hashes@.len()),
        ensures
            r.info_hash_view() == meta.info_hash@,
            r.length_view() == meta.length,
            r.piece_length_view() == meta.piece_length,
            r.files_view() == files_view(meta.files@),
            r.bitfield_view() == Seq::new(meta.piece_hashes@.len(), |i: int| false),
            r.selections_view() == Seq::<Selection>::empty(),
            sorted(r.selections_view()),
            r.selected_view() == Map::<usize, i32>::empty(),
            !r.destroyed_view(),
            r.peer_ids_view() == Seq::<Seq<char>>::empty(),
            r.counters_view() == (0u64, 0u64, 0u64),
            r.num_peers_view() == 0,
            r.web_seeds_view() == Seq::<WebSeedConn>::empty(),
            r.piece_hashes_view().len() == meta.piece_hashes@.len(),
            r.strategy_view() == PieceStrategy::Sequential,
    {
        broadcast use vstd::std_specs::hash::group_hash_axioms;

        let n = meta.piece_hashes.len();
        let mut pieces: Vec<Option<Piece>> = Vec::new();
        let mut i: usize = 0;
        while i < n
            invariant
                0 <= i <= n,
                n == meta.piece_hashes@.len(),
                pieces_fit(meta.length as nat, meta.piece_length as nat, n as nat),
            decreases n - i,
        {
            proof {
                assert(0 <= piece_len(meta.length as nat, meta.piece_length as nat, n as nat, i as nat));
            }
            let len: u64 = if i == n - 1 {
                assert(i * meta.piece_length <= meta.length);
                assert(i * meta.piece_length <= u64::MAX) by (nonlinear_arith)
                    requires
                        i * meta.piece_length <= meta.length,
                        meta.length <= u64::MAX,
                ;
                meta.length - (i as u64) * meta.piece_length
            } else {
                meta.piece_length
            };
            pieces.push(Some(Piece::new(len)));
            i = i + 1;
        }
        let bitfield = Bitfield::filled(n, false);
        Torrent {
            info_hash: meta.info_hash,
            name: meta.name,
            length: meta.length,
            piece_length: meta.piece_length,
            pieces,
            piece_hashes: meta.piece_hashes,
            files: meta.files,
            bitfield,
            metadata: meta.metadata,
            announce: meta.announce,
            url_list: meta.url_list,
            private: meta.private,
            destroyed: false,
            downloaded: 0,
            uploaded: 0,
            received: 0,
            web_seeds: Vec::new(),
            peer_ids: Vec::new(),
            selections: Selections::new(),
            selected_files: HashMap::new(),
            strategy: PieceStrategy::Sequential,
        }
    }

    /// The info hash.
    pub fn info_hash(&self) -> (r: [u8; 20])
        ensures
            r@ == self.info_hash_view(),
    {
        self.info_hash
    }

    /// The total length in bytes.
    pub fn length(&self) -> (r: u64)
        ensures
            r == self.length_view(),
    {
        self.length
    }

    /// The bytes downloaded.
    pub fn downloaded(&self) -> (r: u64)
        ensures
            r == self.counters_view().0,
    {
        self.downloaded
    }

    /// The bytes uploaded.
    pub fn uploaded(&self) -> (r: u64)
        ensures
            r == self.counters_view().1,
    {
        self.uploaded
    }

    /// The bytes received.
    pub fn received(&self) -> (r: u64)
        ensures
            r == self.counters_view().2,
    {
        self.received
    }

    /// Whether the torrent was destroyed.
    pub fn destroyed(&self) -> (r: bool)
        ensures
            r == self.destroyed_view(),
    {
        self.destroyed
    }

    /// The number of connections.
    pub fn num_peers(&self) -> (r: usize)
        ensures
            r == self.num_peers_view(),
    {
        self.web_seeds.len()
    }

    /// The pieces we have.
    pub fn get_bitfield(&self) -> (r: Bitfield)
        ensures
            bits_of(r) == self.bitfield_view(),
    {
        self.bitfield.duplicate()
    }

    /// The torrent's name.
    pub fn name(&self) -> (r: &str)
        ensures
            r@ == self.name_view(),
    {
        self.name.as_str()
    }

    /// The files.
    pub fn files(&self) -> (r: &[File])
        ensures
            files_view(r@) == self.files_view(),
    {
        self.files.as_slice()
    }

    /// The piece length.
    pub fn piece_length(&self) -> (r: u64)
        ensures
            r == self.piece_length_view(),
    {
        self.piece_length
    }

    /// The digest of each piece.
    pub fn piece_hashes(&self) -> (r: &[[u8; 20]])
        ensures
            digests_view(r@) == self.piece_hashes_view(),
    {
        self.piece_hashes.as_slice()
    }

    /// Whether the torrent is private.
    pub fn is_private(&self) -> (r: bool)
        ensures
            r == self.private_view(),
    {
        self.private
    }

    /// The trackers.
    pub fn announce(&self) -> (r: &[String])
        ensures
            strings_view(r@) == self.announce_view(),
    {
        self.announce.as_slice()
    }

    /// The web seeds the metadata names.
    pub fn url_list(&self) -> (r: &[String])
        ensures
            strings_view(r@) == self.url_list_view(),
    {
        self.url_list.as_slice()
    }

    /// The piece selections.
    pub fn selections(&self) -> (r: &Selections)
        ensures
            r@ == self.selections_view(),
    {
        &self.selections
    }

    /// Selects file `file_index` for download at `priority`: records its
    /// priority and adds a selection of its pieces.  Fails for a destroyed
    /// torrent or a file index out of range.
    pub fn select(&mut self, file_index: usize, priority: i32) -> (r: Result<bool>)
        requires
            old(self).piece_length_view() > 0,
            file_index < old(self).files_view().len() ==> 1 <= old(self).files_view()[file_index as int].2
                + old(self).files_view()[file_index as int].1 <= u64::MAX,
        ensures
            sorted(old(self).selections_view()) ==> sorted(final(self).selections_view()),
            final(self).piece_hashes_view() == old(self).piece_hashes_view(),
            final(self).piece_length_view() == old(self).piece_length_view(),
            final(self).files_view() == old(self).files_view(),
            final(self).destroyed_view() == old(self).destroyed_view(),
            (old(self).destroyed_view() || file_index >= old(self).files_view().len()) ==> (r matches Err(e) && e is InvalidTorrent
                && final(self).selections_view() == old(self).selections_view() && final(self).selected_view()
                == old(self).selected_view()),
            !(old(self).destroyed_view() || file_index >= old(self).files_view().len()) ==> ({
                let f = old(self).files_view()[file_index as int];
                &&& r matches Ok(true)
                &&& final(self).selected_view() == old(self).selected_view().insert(file_index, priority)
                &&& final(self).selections_view() == stable_sort(old(self).selections_view().push(
                    file_selection(f.2 as nat, f.1 as nat, old(self).piece_length_view(), priority, false),
                ))
            }),
    {
        broadcast use vstd::std_specs::hash::group_hash_axioms;

        if self.destroyed {
            return Err(invalid_torrent("Torrent destroyed"));
        }
        if file_index >= self.files.len() {
            return Err(invalid_torrent("File index out of range"));
        }
        let file = &self.files[file_index];
        let start_piece = file.start_piece(self.piece_length);
        let end_piece = file.end_piece(self.piece_length);
        self.selected_files.insert(file_index, priority);
        self.selections.insert(Selection::new(start_piece, end_piece, priority, false));
        Ok(true)
    }

    /// Deselects file `file_index`: forgets its priority and removes the
    /// selection of its pieces.  Fails for a destroyed torrent or a file
    /// index out of range.
    pub fn deselect(&mut self, file_index: usize) -> (r: Result<bool>)
        requires
            old(self).piece_length_view() > 0,
            file_index < old(self).files_view().len() ==> 1 <= old(self).files_view()[file_index as int].2
                + old(self).files_view()[file_index as int].1 <= u64::MAX,
        ensures
            sorted(old(self).selections_view()) ==> sorted(final(self).selections_view()),
            final(self).piece_hashes_view() == old(self).piece_hashes_view(),
            final(self).piece_length_view() == old(self).piece_length_view(),
            final(self).files_view() == old(self).files_view(),
            final(self).destroyed_view() == old(self).destroyed_view(),
            (old(self).destroyed_view() || file_index >= old(self).files_view().len()) ==> (r matches Err(e) && e is InvalidTorrent
                && final(self).selections_view() == old(self).selections_view() && final(self).selected_view()
                == old(self).selected_view()),
            !(old(self).destroyed_view() || file_index >= old(self).files_view().len()) ==> ({
                let f = old(self).files_view()[file_index as int];
                let sel = file_selection(f.2 as nat, f.1 as nat, old(self).piece_length_view(), 0, false);
                &&& r matches Ok(true)
                &&& final(self).selected_view() == old(self).selected_view().remove(file_index)
                &&& final(self).selections_view() == old(self).selections_view().filter(
                    |s: Selection| !matches_range(s, sel.from, sel.to, false),
                )
            }),
    {
        broadcast use vstd::std_specs::hash::group_hash_axioms;

        if self.destroyed {
            return Err(invalid_torrent("Torrent destroyed"));
        }
        if file_index >= self.files.len() {
            return Err(invalid_torrent("File index out of range"));
        }
        let file = &self.files[file_index];
        let start_piece = file.start_piece(self.piece_length);
        let end_piece = file.end_piece(self.piece_length);
        self.selected_files.remove(&file_index);
        self.selections.remove(start_piece, end_piece, false);
        Ok(true)
    }

    /// Selects file `file_index` at the highest priority, 7.
    pub fn critical(&mut self, file_index: usize) -> (r: Result<bool>)
        requires
            old(self).piece_length_view() > 0,
            file_index < old(self).files_view().len() ==> 1 <= old(self).files_view()[file_index as int].2
                + old(self).files_view()[file_index as int].1 <= u64::MAX,
        ensures
            sorted(old(self).selections_view()) ==> sorted(final(self).selections_view()),
            final(self).piece_hashes_view() == old(self).piece_hashes_view(),
            final(self).piece_length_view() == old(self).piece_length_view(),
            final(self).files_view() == old(self).files_view(),
            final(self).destroyed_view() == old(self).destroyed_view(),
            (old(self).destroyed_view() || file_index >= old(self).files_view().len()) ==> (r matches Err(e) && e is InvalidTorrent
                && final(self).selections_view() == old(self).selections_view() && final(self).selected_view()
                == old(self).selected_view()),
            !(old(self).destroyed_view() || file_index >= old(self).files_view().len()) ==> ({
                let f = old(self).files_view()[file_index as int];
                &&& r matches Ok(true)
                &&& final(self).selected_view() == old(self).selected_view().insert(file_index, 7)
                &&& final(self).selections_view() == stable_sort(old(self).selections_view().push(
                    file_selection(f.2 as nat, f.1 as nat, old(self).piece_length_view(), 7, false),
                ))
            }),
    {
        self.select(file_index, 7)
    }

    /// Adds a stream selection (priority 7) over the pieces of file
    /// `file_index`, for reading the file in order.
    pub fn add_stream_selection(&mut self, file_index: usize)
        requires
            old(self).piece_length_view() > 0,
            file_index < old(self).files_view().len(),
            1 <= old(self).files_view()[file_index as int].2 + old(self).files_view()[file_index as int].1 <= u64::MAX,
        ensures
            sorted(old(self).selections_view()) ==> sorted(final(self).selections_view()),
            final(self).piece_hashes_view() == old(self).piece_hashes_view(),
            final(self).piece_length_view() == old(self).piece_length_view(),
            final(self).files_view() == old(self).files_view(),
            final(self).destroyed_view() == old(self).destroyed_view(),
            final(self).selected_view() == old(self).selected_view(),
            final(self).selections_view() == stable_sort(old(self).selections_view().push(
                file_selection(
                    old(self).files_view()[file_index as int].2 as nat,
                    old(self).files_view()[file_index as int].1 as nat,
                    old(self).piece_length_view(),
                    7,
                    true,
                ),
            )),
    {
        let file = &self.files[file_index];
        let start_piece = file.start_piece(self.piece_length);
        let end_piece = file.end_piece(self.piece_length);
        self.selections.insert(Selection::new(start_piece, end_piece, 7, true));
    }

    /// Whether file `file_index` is selected.
    pub fn is_file_selected(&self, file_index: usize) -> (r: bool)
        ensures
            r == self.selected_view().contains_key(file_index),
    {
        broadcast use vstd::std_specs::hash::group_hash_axioms;

        self.selected_files.contains_key(&file_index)
    }

    /// The priority of file `file_index`, if selected.
    pub fn get_file_priority(&self, file_index: usize) -> (r: Option<i32>)
        ensures
            r == (if self.selected_view().contains_key(file_index) {
                Some(self.selected_view()[file_index])
            } else {
                None
            }),
    {
        broadcast use vstd::std_specs::hash::group_hash_axioms;

        match self.selected_files.get(&file_index) {
            Some(p) => Some(*p),
            None => None,
        }
    }

    /// The selected files, each once, in no promised order.
    pub fn get_selected_files(&self) -> (r: Vec<usize>)
        ensures
            r@.no_duplicates(),
            r@.to_set() == self.selected_view().dom(),
    {
        broadcast use vstd::std_specs::hash::group_hash_axioms;

        let mut out: Vec<usize> = Vec::new();
        let ghost all = vstd::std_specs::hash::spec_hash_map_iter(&self.selected_files).remaining();
        let ghost mut visited: int = 0;
        proof {
            vstd::std_specs::hash::axiom_spec_hash_map_iter(&self.selected_files);
        }
        for entry in it: self.selected_files.iter()
            invariant
                all == vstd::std_specs::hash::spec_hash_map_iter(&self.selected_files).remaining(),
                it.seq() == all,
                visited == it.index(),
                all.no_duplicates(),
                forall|j: int|
                    #![trigger all[j]]
                    0 <= j < all.len() ==> self.selected_files@.contains_key(*all[j].0)
                        && self.selected_files@[*all[j].0] == *all[j].1,
                forall|k: usize| #[trigger] self.selected_files@.contains_key(k) ==> all.contains((&k, &self.selected_files@[k])),
                out@.len() == visited,
                forall|j: int| 0 <= j < visited ==> out@[j] == *#[trigger] all[j].0,
        {
            let (k, _) = entry;
            proof {
                assert(all[visited] == entry);
            }
            out.push(*k);
            proof {
                visited = visited + 1;
            }
        }
        proof {
            assert(visited == all.len());
            assert forall|a: int, b: int| 0 <= a < b < out@.len() implies out@[a] != out@[b] by {
                assert(out@[a] == *all[a].0);
                assert(out@[b] == *all[b].0);
                if out@[a] == out@[b] {
                    assert(all[a] == all[b]);
                }
            }
            assert forall|k: usize| #[trigger] out@.to_set().contains(k) <==> self.selected_files@.dom().contains(k) by {
                if self.selected_files@.dom().contains(k) {
                    let j = choose|j: int| 0 <= j < all.len() && all[j] == (&k, &self.selected_files@[k]);
                    assert(out@[j] == k);
                    assert(out@.contains(k));
                }
                if out@.to_set().contains(k) {
                    assert(out@.contains(k));
                    let j = choose|j: int| 0 <= j < out@.len() && out@[j] == k;
                    assert(out@[j] == *all[j].0);
                }
            }
            assert(out@.to_set() =~= self.selected_files@.dom());
        }
        out
    }

    /// Adds a web seed: its URL must start with `http://` or `https://`,
    /// parse as an `http` or `https` URL, and not already name a peer.  Its
    /// connection has every piece, and both sides unchoke and are interested.
    /// Fails for a destroyed torrent, an invalid URL or a repeated one.
    pub fn add_web_seed(&mut self, url: String) -> (r: Result<()>)
        requires
            old(self).piece_hashes_view().len() <= max_bits(),
        ensures
            final(self).selections_view() == old(self).selections_view(),
            final(self).destroyed_view() == old(self).destroyed_view(),
            final(self).piece_hashes_view() == old(self).piece_hashes_view(),
            r is Ok <==> (!old(self).destroyed_view() && is_web_url(url@) && !old(self).peer_ids_view().contains(url@)
                && web_seed_url(url@)),
            r matches Err(e) ==> e is InvalidTorrent && final(self).peer_ids_view() == old(self).peer_ids_view()
                && final(self).web_seeds_view() == old(self).web_seeds_view(),
            r is Ok ==> final(self).peer_ids_view() == old(self).peer_ids_view().push(url@),
            r is Ok ==> final(self).web_seeds_view().len() == old(self).web_seeds_view().len() + 1
                && final(self).web_seeds_view().drop_last() == old(self).web_seeds_view()
                && web_seed_ready(
                    final(self).web_seeds_view().last(),
                    url@,
                    old(self).piece_length_view(),
                    old(self).files_view(),
                    old(self).piece_hashes_view().len(),
                ),
    {
        if self.destroyed {
            return Err(invalid_torrent("Torrent destroyed"));
        }
        if !web_url(url.as_str()) {
            return Err(invalid_torrent("Invalid web seed URL"));
        }
        if contains_string(&self.peer_ids, &url) {
            return Err(invalid_torrent("Duplicate web seed"));
        }
        let mut files_meta: Vec<(String, u64, u64)> = Vec::new();
        let mut i: usize = 0;
        while i < self.files.len()
            invariant
                0 <= i <= self.files@.len(),
                files_meta@.len() == i,
                forall|j: int| 0 <= j < i ==> (#[trigger] files_meta@[j].0@, files_meta@[j].1, files_meta@[j].2)
                    == files_view(self.files@)[j],
            decreases self.files@.len() - i,
        {
            let f = &self.files[i];
            files_meta.push((f.path().to_string(), f.length(), f.offset()));
            i = i + 1;
        }
        proof {
            assert(Seq::new(files_meta@.len(), |j: int| (files_meta@[j].0@, files_meta@[j].1, files_meta@[j].2))
                =~= files_view(self.files@));
        }
        let mut conn = match WebSeedConn::new(url.clone(), self.piece_length, files_meta) {
            Ok(c) => c,
            Err(e) => {
                return Err(e);
            },
        };
        let n = self.piece_hashes.len();
        proof {
            assert(n == self.piece_hashes_view().len());
        }
        match conn.init(n) {
            Ok(()) => {},
            Err(e) => {
                return Err(e);
            },
        }
        conn.open_exchange();
        let ghost before = self.peer_ids@;
        self.peer_ids.push(url);
        proof {
            assert(strings_view(self.peer_ids@) =~= strings_view(before).push(url@));
        }
        let ghost seeds = self.web_seeds@;
        self.web_seeds.push(conn);
        proof {
            assert(self.web_seeds@.drop_last() =~= seeds);
        }
        Ok(())
    }

    /// Marks the torrent destroyed; destroying twice is harmless.
    pub fn destroy(&mut self) -> (r: Result<()>)
        ensures
            final(self).selections_view() == old(self).selections_view(),
            final(self).piece_hashes_view() == old(self).piece_hashes_view(),
            r is Ok,
            final(self).destroyed_view(),
    {
        self.destroyed = true;
        Ok(())
    }
}

/// Deselecting a file right after selecting it undoes the selection: the
/// file's priority is forgotten and the selections are as before, when the
/// file was not selected and no selection of its pieces was held.  (The
/// selections of every torrent stay sorted: `new` makes them so and every
/// method keeps them so.)
pub proof fn deselect_undoes_select(before: Torrent, selected: Torrent, after: Torrent, file_index: usize, priority: i32)
    requires
        before.piece_length_view() > 0,
        file_index < before.files_view().len(),
        sorted(before.selections_view()),
        !before.selected_view().dom().contains(file_index),
        ({
            let f = before.files_view()[file_index as int];
            let sel = file_selection(f.2 as nat, f.1 as nat, before.piece_length_view(), priority, false);
            forall|j: int|
                0 <= j < before.selections_view().len() ==> !matches_range(
                    #[trigger] before.selections_view()[j],
                    sel.from,
                    sel.to,
                    false,
                )
        }),
        selected.piece_length_view() == before.piece_length_view(),
        selected.files_view() == before.files_view(),
        ({
            let f = before.files_view()[file_index as int];
            &&& selected.selected_view() == before.selected_view().insert(file_index, priority)
            &&& selected.selections_view() == stable_sort(
                before.selections_view().push(file_selection(f.2 as nat, f.1 as nat, before.piece_length_view(), priority, false)),
            )
        }),
        ({
            let f = selected.files_view()[file_index as int];
            let sel = file_selection(f.2 as nat, f.1 as nat, selected.piece_length_view(), 0, false);
            &&& after.selected_view() == selected.selected_view().remove(file_index)
            &&& after.selections_view() == selected.selections_view().filter(
                |s: Selection| !matches_range(s, sel.from, sel.to, false),
            )
        }),
    ensures
        after.selections_view() == before.selections_view(),
        after.selected_view() == before.selected_view(),
        !after.selected_view().dom().contains(file_index),
{
    let f = before.files_view()[file_index as int];
    let x = file_selection(f.2 as nat, f.1 as nat, before.piece_length_view(), priority, false);
    let sel = file_selection(f.2 as nat, f.1 as nat, before.piece_length_view(), 0, false);
    assert(sel.from == x.from && sel.to == x.to);
    remove_undoes_insert(before.selections_view(), x);
    assert((|s: Selection| !matches_range(s, sel.from, sel.to, false)) =~= outside_range(x.from, x.to, false));
    assert(after.selected_view() =~= before.selected_view());
}

/// A URL that parses with the `http` or `https` scheme.
pub open spec fn web_seed_url(url: Seq<char>) -> bool {
    url_scheme(url) matches Some(s) && is_http_scheme(s)
}

/// A web seed's connection as `add_web_seed` leaves it: at `url`, for the
/// torrent's piece length and files, not destroyed, holding all `n` pieces,
/// with neither side choking and both interested.
pub open spec fn web_seed_ready(w: WebSeedConn, url: Seq<char>, piece_length: nat, files: Seq<(Seq<char>, u64, u64)>, n: nat) -> bool {
    &&& w.url_view() == url
    &&& w.piece_length_view() == piece_length
    &&& w.files_view() == files
    &&& !w.destroyed_view()
    &&& w.pieces_view() == Seq::new(n, |i: int| true)
    &&& !w.wire_view().peer_choking_view()
    &&& w.wire_view().peer_interested_view()
    &&& !w.wire_view().am_choking_view()
    &&& w.wire_view().am_interested_view()
}

/// The selection of the pieces of a file at `offset` of `length` bytes.
pub open spec fn file_selection(offset: nat, length: nat, piece_length: nat, priority: i32, stream: bool) -> Selection {
    Selection {
        from: (offset / piece_length) as usize,
        to: ((offset + length - 1) / (piece_length as int)) as usize,
        offset: 0,
        priority,
        is_stream_selection: stream,
    }
}

/// The text starts with `prefix`.
pub open spec fn starts_with(s: Seq<char>, prefix: Seq<char>) -> bool {
    prefix.len() <= s.len() && s.subrange(0, prefix.len() as int) == prefix
}

/// A URL with the `http://` or `https://` scheme.
pub open spec fn is_web_url(s: Seq<char>) -> bool {
    starts_with(s, seq!['h', 't', 't', 'p', ':', '/', '/']) || starts_with(s, seq!['h', 't', 't', 'p', 's', ':', '/', '/'])
}

/// Whether `s` starts with `prefix`.
pub fn str_starts_with(s: &str, prefix: &str) -> (r: bool)
    ensures
        r == starts_with(s@, prefix@),
{
    let a = str_chars(s);
    let b = str_chars(prefix);
    if b.len() > a.len() {
        return false;
    }
    let mut i: usize = 0;
    while i < b.len()
        invariant
            0 <= i <= b@.len(),
            b@.len() <= a@.len(),
            a@ == s@,
            b@ == prefix@,
            forall|j: int| 0 <= j < i ==> a@[j] == b@[j],
        decreases b@.len() - i,
    {
        if a[i] != b[i] {
            return false;
        }
        i = i + 1;
    }
    proof {
        assert(s@.subrange(0, prefix@.len() as int) =~= prefix@);
    }
    true
}

/// Whether `s` is a URL with the `http://` or `https://` scheme.
pub fn web_url(s: &str) -> (r: bool)
    ensures
        r == is_web_url(s@),
{
    let http = str_chars_of_http();
    let https = str_chars_of_https();
    starts_with_chars(s, &http) || starts_with_chars(s, &https)
}

fn str_chars_of_http() -> (r: Vec<char>)
    ensures
        r@ == seq!['h', 't', 't', 'p', ':', '/', '/'],
{
    let r: Vec<char> = vec!['h', 't', 't', 'p', ':', '/', '/'];
    proof {
        assert(r@ =~= seq!['h', 't', 't', 'p', ':', '/', '/']);
    }
    r
}

fn str_chars_of_https() -> (r: Vec<char>)
    ensures
        r@ == seq!['h', 't', 't', 'p', 's', ':', '/', '/'],
{
    let r: Vec<char> = vec!['h', 't', 't', 'p', 's', ':', '/', '/'];
    proof {
        assert(r@ =~= seq!['h', 't', 't', 'p', 's', ':', '/', '/']);
    }
    r
}

/// Whether the text of `s` starts with the characters `prefix`.
pub fn starts_with_chars(s: &str, prefix: &Vec<char>) -> (r: bool)
    ensures
        r == starts_with(s@, prefix@),
{
    let a = str_chars(s);
    if prefix.len() > a.len() {
        return false;
    }
    let mut i: usize = 0;
    while i < prefix.len()
        invariant
            0 <= i <= prefix@.len(),
            prefix@.len() <= a@.len(),
            a@ == s@,
            forall|j: int| 0 <= j < i ==> a@[j] == prefix@[j],
        decreases prefix@.len() - i,
    {
        if a[i] != prefix[i] {
            return false;
        }
        i = i + 1;
    }
    proof {
        assert(s@.subrange(0, prefix@.len() as int) =~= prefix@);
    }
    true
}


/// A `url-list` given as one UTF-8 byte string names exactly one web seed,
/// that text; one that is missing, or a byte string that is not UTF-8,
/// names none.
pub proof fn url_list_single_string(v: Bencode, b: Seq<u8>)
    ensures
        v.get(url_list_key()) == Some(Bencode::Str(b)) && valid_utf8(b) ==> url_list_of(v) == seq![decode_utf8(b)],
        v.get(url_list_key()) == Some(Bencode::Str(b)) && !valid_utf8(b) ==> url_list_of(v).len() == 0,
        v.get(url_list_key()) is None ==> url_list_of(v).len() == 0,
{
}

/// The texts of a list whose every item is a UTF-8 byte string: one per
/// item, in order.
proof fn lemma_strings_in_all(l: Seq<Bencode>)
    requires
        forall|i: int| 0 <= i < l.len() ==> #[trigger] string_of(Some(l[i])) is Some,
    ensures
        strings_in(l).len() == l.len(),
        forall|i: int| 0 <= i < l.len() ==> #[trigger] strings_in(l)[i] == string_of(Some(l[i]))->0,
    decreases l.len(),
{
    if l.len() > 0 {
        let d = l.drop_last();
        assert forall|i: int| 0 <= i < d.len() implies #[trigger] string_of(Some(d[i])) is Some by {
            assert(d[i] == l[i]);
            assert(string_of(Some(l[i])) is Some);
        }
        lemma_strings_in_all(d);
        assert(string_of(Some(l[l.len() - 1])) is Some);
        assert(l.last() == l[l.len() - 1]);
        assert forall|i: int| 0 <= i < l.len() implies #[trigger] strings_in(l)[i] == string_of(Some(l[i]))->0 by {
            if i < l.len() - 1 {
                assert(d[i] == l[i]);
                assert(strings_in(d)[i] == string_of(Some(d[i]))->0);
            }
        }
    }
}

/// A `url-list` given as a list of UTF-8 byte strings names one web seed
/// per item, each that item's text, in the list's order.
pub proof fn url_list_from_list(v: Bencode, l: Seq<Bencode>)
    requires
        v.get(url_list_key()) == Some(Bencode::List(l)),
        forall|i: int| 0 <= i < l.len() ==> #[trigger] string_of(Some(l[i])) is Some,
    ensures
        url_list_of(v).len() == l.len(),
        forall|i: int|
            0 <= i < l.len() ==> #[trigger] url_list_of(v)[i] == decode_utf8(l[i]->Str_0) && valid_utf8(l[i]->Str_0),
{
    lemma_strings_in_all(l);
    assert forall|i: int| 0 <= i < l.len() implies #[trigger] url_list_of(v)[i] == decode_utf8(l[i]->Str_0)
        && valid_utf8(l[i]->Str_0) by {
        assert(string_of(Some(l[i])) is Some);
        assert(strings_in(l)[i] == string_of(Some(l[i]))->0);
    }
}

} // verus!
