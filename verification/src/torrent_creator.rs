//! Making a torrent for data: piece digests, the info dictionary and the
//! bencoded torrent file.

use crate::bencode_order::{canonical, lemma_wf_entries_each, lemma_wf_list_each};
use crate::bencode_parser::{dict_get, dict_view, encode, keys_increase, lex_lt, list_view, parse_at, roundtrip_parse_encode, wf, wf_list, Bencode, BencodeValue, Parsed};
use crate::torrent::{metadata_matches, TorrentMetadata, announce_candidates, files_fit, info_of, private_of, string_of, strings_in, tier_strings, torrent_valid, url_list_of};
use crate::buffer::{bytes_as_slice, bytes_contents, bytes_from_slice, bytes_from_vec, bytes_len};
use crate::digest::{sha1, sha1_digest};
use crate::error::Result;
use crate::keys::{announce_key, announce_key_bytes, announce_list_key, announce_list_key_bytes, comment_key, comment_key_bytes, created_by_key, created_by_key_bytes, info_key, info_key_bytes, length_key, length_key_bytes, name_key, name_key_bytes, piece_length_key, piece_length_key_bytes, pieces_key, pieces_key_bytes, private_key, url_list_key};
use crate::text::string_from_chars;
use bytes::Bytes;
use vstd::prelude::*;
use vstd::utf8::encode_utf8;

verus! {

/// The number of pieces of `len` bytes in pieces of `pl` bytes.
pub open spec fn piece_count(len: nat, pl: nat) -> nat {
    ((len + pl - 1) as nat) / pl
}

/// Piece `i` of `data`: `pl` bytes from `i * pl`, fewer at the end.
pub open spec fn piece_at(data: Seq<u8>, pl: nat, i: nat) -> Seq<u8> {
    data.subrange((i * pl) as int, if i * pl + pl <= data.len() { (i * pl + pl) as int } else { data.len() as int })
}

/// The digests of the first `n` pieces of `data`, one after another.
pub open spec fn piece_hash_bytes(data: Seq<u8>, pl: nat, n: nat) -> Seq<u8>
    decreases n,
{
    if n == 0 {
        Seq::empty()
    } else {
        piece_hash_bytes(data, pl, (n - 1) as nat) + sha1_digest(piece_at(data, pl, (n - 1) as nat))
    }
}

/// The info dictionary of a single-file torrent for `data`.
pub open spec fn created_info(name: Seq<char>, data: Seq<u8>, pl: u64) -> Bencode {
    Bencode::Dict(
        seq![
            (length_key(), Bencode::Int(data.len() as i64)),
            (name_key(), Bencode::Str(encode_utf8(name))),
            (piece_length_key(), Bencode::Int(pl as i64)),
            (pieces_key(), Bencode::Str(piece_hash_bytes(data, pl as nat, piece_count(data.len(), pl as nat)))),
        ],
    )
}

/// Each tracker in a tier of its own.
pub open spec fn announce_tiers(a: Seq<Seq<char>>) -> Seq<Bencode> {
    Seq::new(a.len(), |i: int| Bencode::List(seq![Bencode::Str(encode_utf8(a[i]))]))
}

/// The entries of a created torrent file, in key order: the first tracker
/// as `announce`, the others as `announce-list`, the comment, `created by`
/// and the info dictionary.
pub open spec fn created_entries(
    announce: Seq<Seq<char>>,
    comment: Option<Seq<char>>,
    created_by: Seq<char>,
    info: Bencode,
) -> Seq<(Seq<u8>, Bencode)> {
    (if announce.len() > 0 {
        seq![(announce_key(), Bencode::Str(encode_utf8(announce[0])))]
    } else {
        Seq::empty()
    }) + (if announce.len() > 1 {
        seq![(announce_list_key(), Bencode::List(announce_tiers(announce.drop_first())))]
    } else {
        Seq::empty()
    }) + (match comment {
        Some(c) => seq![(comment_key(), Bencode::Str(encode_utf8(c)))],
        None => Seq::empty(),
    }) + seq![(created_by_key(), Bencode::Str(encode_utf8(created_by))), (info_key(), info)]
}

/// The texts of strings.
pub open spec fn texts(s: Seq<String>) -> Seq<Seq<char>> {
    Seq::new(s.len(), |i: int| s[i]@)
}

/// The text `WebTorrent/0.1.0`, which names this library as a torrent's
/// creator.
pub open spec fn creator_name() -> Seq<char> {
    seq!['W', 'e', 'b', 'T', 'o', 'r', 'r', 'e', 'n', 't', '/', '0', '.', '1', '.', '0']
}

/// Settings for making torrents.
pub struct TorrentCreator {
    piece_length: u64,
    announce: Vec<String>,
    created_by: String,
    comment: Option<String>,
}

impl TorrentCreator {
    /// The piece length.
    pub closed spec fn piece_length_view(&self) -> u64 {
        self.piece_length
    }

    /// The trackers.
    pub closed spec fn announce_view(&self) -> Seq<Seq<char>> {
        texts(self.announce@)
    }

    /// The creator's name.
    pub closed spec fn created_by_view(&self) -> Seq<char> {
        self.created_by@
    }

    /// The comment, if any.
    pub closed spec fn comment_view(&self) -> Option<Seq<char>> {
        match self.comment {
            Some(c) => Some(c@),
            None => None,
        }
    }

    /// Pieces of 256 KiB, no trackers, no comment.
    pub fn new() -> (r: TorrentCreator)
        ensures
            r.piece_length_view() == 262144,
            r.announce_view() == Seq::<Seq<char>>::empty(),
            r.created_by_view() == creator_name(),
            r.comment_view() is None,
    {
        let chars: Vec<char> = vec!['W', 'e', 'b', 'T', 'o', 'r', 'r', 'e', 'n', 't', '/', '0', '.', '1', '.', '0'];
        proof {
            assert(chars@ =~= creator_name());
        }
        let r = TorrentCreator {
            piece_length: 262144,
            announce: Vec::new(),
            created_by: string_from_chars(chars.as_slice()),
            comment: None,
        };
        proof {
            assert(r.announce_view() =~= Seq::<Seq<char>>::empty());
        }
        r
    }

    /// The same settings with pieces of `length` bytes.
    pub fn with_piece_length(self, length: u64) -> (r: TorrentCreator)
        ensures
            r.piece_length_view() == length,
            r.announce_view() == self.announce_view(),
            r.created_by_view() == self.created_by_view(),
            r.comment_view() == self.comment_view(),
    {
        TorrentCreator { piece_length: length, ..self }
    }

    /// The same settings with the trackers `announce`.
    pub fn with_announce(self, announce: Vec<String>) -> (r: TorrentCreator)
        ensures
            r.piece_length_view() == self.piece_length_view(),
            r.announce_view() == texts(announce@),
            r.created_by_view() == self.created_by_view(),
            r.comment_view() == self.comment_view(),
    {
        TorrentCreator { announce, ..self }
    }

    /// The same settings with a comment.
    pub fn with_comment(self, comment: String) -> (r: TorrentCreator)
        ensures
            r.piece_length_view() == self.piece_length_view(),
            r.announce_view() == self.announce_view(),
            r.created_by_view() == self.created_by_view(),
            r.comment_view() == Some(comment@),
    {
        TorrentCreator { comment: Some(comment), ..self }
    }

    /// A single-file torrent for `data` named `name`: the bencoded torrent
    /// file, and the info hash (the digest of the encoded info dictionary).
    pub fn create_from_data(&self, name: String, data: Bytes) -> (r: Result<(Bytes, [u8; 20])>)
        requires
            self.piece_length_view() > 0,
            bytes_contents(data).len() + self.piece_length_view() <= u64::MAX,
        ensures
            r matches Ok((file, hash)) && {
                let info = created_info(name@, bytes_contents(data), self.piece_length_view());
                &&& bytes_contents(file) == encode(
                    Bencode::Dict(created_entries(self.announce_view(), self.comment_view(), self.created_by_view(), info)),
                )
                &&& hash@ == sha1_digest(encode(info))
            },
    {
        let ghost d = bytes_contents(data);
        let pl = self.piece_length;
        let len = bytes_len(&data);
        let slice = bytes_as_slice(&data);
        let q: u64 = (len as u64 + pl - 1) / pl;
        assert(q <= len) by (nonlinear_arith)
            requires
                q == (len + pl - 1) / (pl as int),
                pl > 0,
        ;
        let num_pieces = q as usize;
        proof {
            assert(num_pieces == piece_count(d.len(), pl as nat));
        }
        let mut hashes: Vec<u8> = Vec::new();
        let mut i: usize = 0;
        while i < num_pieces
            invariant
                0 <= i <= num_pieces,
                num_pieces == piece_count(d.len(), pl as nat),
                len == d.len(),
                slice@ == d,
                pl > 0,
                d.len() + pl <= u64::MAX,
                hashes@ == piece_hash_bytes(d, pl as nat, i as nat),
            decreases num_pieces - i,
        {
            assert(i * pl < d.len()) by (nonlinear_arith)
                requires
                    i < num_pieces,
                    num_pieces == ((d.len() + pl - 1) as nat) / (pl as nat),
                    pl > 0,
            ;
            let start: usize = ((i as u64) * pl) as usize;
            let end: usize = if (start as u64) + pl <= (len as u64) {
                ((start as u64) + pl) as usize
            } else {
                len
            };
            let piece = vstd::slice::slice_subrange(slice, start, end);
            let h = sha1(piece);
            proof {
                assert(piece@ == piece_at(d, pl as nat, i as nat));
            }
            crate::bencode_parser::append_bytes(&mut hashes, h.as_slice());
            i = i + 1;
        }

        // The info dictionary, keys in order.
        let mut info_entries: Vec<(Bytes, BencodeValue)> = Vec::new();
        let length_k = length_key_bytes();
        info_entries.push((bytes_from_slice(length_k.as_slice()), BencodeValue::Integer(len as i64)));
        let name_k = name_key_bytes();
        info_entries.push((bytes_from_slice(name_k.as_slice()), BencodeValue::Bytes(bytes_from_slice(name.as_str().as_bytes()))));
        let piece_length_k = piece_length_key_bytes();
        info_entries.push((bytes_from_slice(piece_length_k.as_slice()), BencodeValue::Integer(pl as i64)));
        let pieces_k = pieces_key_bytes();
        let ghost hv = hashes@;
        info_entries.push((bytes_from_slice(pieces_k.as_slice()), BencodeValue::Bytes(bytes_from_vec(hashes))));
        let info = BencodeValue::Dict(info_entries);
        let ghost info_v = created_info(name@, d, pl);
        proof {
            let dv = dict_view(info_entries@);
            assert(dv[0] == info_v->Dict_0[0]);
            assert(dv[1] == info_v->Dict_0[1]);
            assert(dv[2] == info_v->Dict_0[2]);
            assert(dv[3] == info_v->Dict_0[3]);
            assert(dv =~= info_v->Dict_0);
            assert(info@ == info_v);
            lemma_created_wf(self.announce_view(), self.comment_view(), self.created_by_view(), name@, d, pl);
            crate::bencode_order::lemma_canonical_of_wf(info_v);
            crate::bencode_order::lemma_canonical_of_wf(
                created_torrent(self.announce_view(), self.comment_view(), self.created_by_view(), name@, d, pl),
            );
        }
        let info_bytes = info.encode();
        let info_hash = sha1(bytes_as_slice(&info_bytes));

        // The torrent dictionary, keys in order.
        let ghost expected = created_entries(self.announce_view(), self.comment_view(), self.created_by_view(), info_v);
        let mut entries: Vec<(Bytes, BencodeValue)> = Vec::new();
        let ghost mut want: Seq<(Seq<u8>, Bencode)> = Seq::empty();
        if self.announce.len() > 0 {
            let k = announce_key_bytes();
            entries.push((bytes_from_slice(k.as_slice()), BencodeValue::Bytes(bytes_from_slice(self.announce[0].as_str().as_bytes()))));
            proof {
                want = seq![(announce_key(), Bencode::Str(encode_utf8(self.announce_view()[0])))];
                assert(dict_view(entries@) =~= want);
            }
        } else {
            proof {
                assert(dict_view(entries@) =~= want);
            }
        }
        if self.announce.len() > 1 {
            let mut tiers: Vec<BencodeValue> = Vec::new();
            let mut t: usize = 1;
            while t < self.announce.len()
                invariant
                    1 <= t <= self.announce@.len(),
                    list_view(tiers@) =~= announce_tiers(self.announce_view().drop_first()).subrange(0, t - 1),
                decreases self.announce@.len() - t,
            {
                let mut one: Vec<BencodeValue> = Vec::new();
                one.push(BencodeValue::Bytes(bytes_from_slice(self.announce[t].as_str().as_bytes())));
                let item = BencodeValue::List(one);
                proof {
                    assert(list_view(one@) =~= seq![Bencode::Str(encode_utf8(self.announce@[t as int]@))]);
                }
                let ghost before = tiers@;
                tiers.push(item);
                proof {
                    assert(list_view(tiers@) =~= list_view(before).push(item@));
                    assert(self.announce_view().drop_first()[t - 1] == self.announce@[t as int]@);
                }
                t = t + 1;
            }
            let k = announce_list_key_bytes();
            let tiers_v = BencodeValue::List(tiers);
            proof {
                assert(announce_tiers(self.announce_view().drop_first()).subrange(0, self.announce@.len() - 1)
                    =~= announce_tiers(self.announce_view().drop_first()));
            }
            let ghost before = dict_view(entries@);
            entries.push((bytes_from_slice(k.as_slice()), tiers_v));
            proof {
                want = want + seq![(announce_list_key(), Bencode::List(announce_tiers(self.announce_view().drop_first())))];
                assert(dict_view(entries@) =~= want);
            }
        }
        match &self.comment {
            Some(c) => {
                let k = comment_key_bytes();
                entries.push((bytes_from_slice(k.as_slice()), BencodeValue::Bytes(bytes_from_slice(c.as_str().as_bytes()))));
                proof {
                    want = want + seq![(comment_key(), Bencode::Str(encode_utf8(c@)))];
                    assert(dict_view(entries@) =~= want);
                }
            },
            None => {},
        }
        let k = created_by_key_bytes();
        entries.push((bytes_from_slice(k.as_slice()), BencodeValue::Bytes(bytes_from_slice(self.created_by.as_str().as_bytes()))));
        let k = info_key_bytes();
        entries.push((bytes_from_slice(k.as_slice()), info));
        proof {
            want = want + seq![(created_by_key(), Bencode::Str(encode_utf8(self.created_by@))), (info_key(), info_v)];
            assert(dict_view(entries@) =~= want);
            assert(want =~= expected);
        }
        let torrent = BencodeValue::Dict(entries);
        let torrent_bytes = torrent.encode();
        Ok((torrent_bytes, info_hash))
    }
}

/// The value under the first entry with key `k`, when no earlier entry has
/// that key.
proof fn lemma_dict_get_at(d: Seq<(Seq<u8>, Bencode)>, k: Seq<u8>, i: int)
    requires
        0 <= i < d.len(),
        d[i].0 == k,
        forall|j: int| 0 <= j < i ==> d[j].0 != k,
    ensures
        dict_get(d, k) == Some(d[i].1),
    decreases i,
{
    if i > 0 {
        let rest = d.subrange(1, d.len() as int);
        assert forall|j: int| 0 <= j < i - 1 implies rest[j].0 != k by {
            assert(rest[j] == d[j + 1]);
        }
        lemma_dict_get_at(rest, k, i - 1);
    }
}

/// No entry has key `k`.
proof fn lemma_dict_get_none(d: Seq<(Seq<u8>, Bencode)>, k: Seq<u8>)
    requires
        forall|j: int| 0 <= j < d.len() ==> d[j].0 != k,
    ensures
        dict_get(d, k) is None,
    decreases d.len(),
{
    if d.len() > 0 {
        let rest = d.subrange(1, d.len() as int);
        assert forall|j: int| 0 <= j < rest.len() implies rest[j].0 != k by {
            assert(rest[j] == d[j + 1]);
        }
        lemma_dict_get_none(rest, k);
    }
}

/// The UTF-8 bytes of a text read back as the text.
proof fn lemma_text_str(s: Seq<char>)
    ensures
        string_of(Some(Bencode::Str(encode_utf8(s)))) == Some(s),
{
    vstd::utf8::encode_utf8_valid_utf8(s);
    vstd::utf8::encode_utf8_decode_utf8(s);
}

/// The trackers of tiers of one tracker each are those trackers.
proof fn lemma_tier_strings(a: Seq<Seq<char>>)
    ensures
        tier_strings(announce_tiers(a)) == a,
    decreases a.len(),
{
    if a.len() > 0 {
        let t = announce_tiers(a);
        lemma_tier_strings(a.drop_last());
        assert(t.drop_last() =~= announce_tiers(a.drop_last()));
        let one = seq![Bencode::Str(encode_utf8(a.last()))];
        assert(t.last() == Bencode::List(one));
        assert(one.drop_last() =~= Seq::<Bencode>::empty());
        lemma_text_str(a.last());
        assert(strings_in(one.drop_last()) =~= Seq::<Seq<char>>::empty());
        assert(string_of(Some(one.last())) == Some(a.last()));
        assert(strings_in(one) == strings_in(one.drop_last()) + seq![a.last()]);
        assert(strings_in(one) =~= seq![a.last()]);
        assert(a.drop_last().push(a.last()) =~= a);
    } else {
        assert(announce_tiers(a) =~= Seq::<Bencode>::empty());
    }
}

/// The keys of a torrent file come in this order: `announce`,
/// `announce-list`, `comment`, `created by`, `info`; those of an info
/// dictionary: `length`, `name`, `piece length`, `pieces`.
proof fn lemma_key_order()
    ensures
        lex_lt(announce_key(), announce_list_key()),
        lex_lt(announce_list_key(), comment_key()),
        lex_lt(announce_key(), comment_key()),
        lex_lt(comment_key(), created_by_key()),
        lex_lt(announce_key(), created_by_key()),
        lex_lt(announce_list_key(), created_by_key()),
        lex_lt(created_by_key(), info_key()),
        lex_lt(comment_key(), info_key()),
        lex_lt(announce_key(), info_key()),
        lex_lt(announce_list_key(), info_key()),
        lex_lt(length_key(), name_key()),
        lex_lt(name_key(), piece_length_key()),
        lex_lt(length_key(), piece_length_key()),
        lex_lt(piece_length_key(), pieces_key()),
        lex_lt(name_key(), pieces_key()),
        lex_lt(length_key(), pieces_key()),
{
    reveal_with_fuel(lex_lt, 14);
    assert(announce_key().subrange(1, 8) =~= seq![110u8, 110u8, 111u8, 117u8, 110u8, 99u8, 101u8]);
    assert(announce_list_key().subrange(1, 13) =~= seq![110u8, 110u8, 111u8, 117u8, 110u8, 99u8, 101u8, 45u8, 108u8, 105u8, 115u8, 116u8]);
    assert(lex_lt(announce_key(), announce_list_key())) by {
        let mut a = announce_key();
        let mut b = announce_list_key();
        assert(a.subrange(1, 8).subrange(1, 7) =~= seq![110u8, 111u8, 117u8, 110u8, 99u8, 101u8]);
    }
    assert(piece_length_key().subrange(1, 12) =~= seq![105u8, 101u8, 99u8, 101u8, 32u8, 108u8, 101u8, 110u8, 103u8, 116u8, 104u8]);
    assert(pieces_key().subrange(1, 6) =~= seq![105u8, 101u8, 99u8, 101u8, 115u8]);
    assert(piece_length_key().subrange(1, 12).subrange(1, 11) =~= seq![101u8, 99u8, 101u8, 32u8, 108u8, 101u8, 110u8, 103u8, 116u8, 104u8]);
    assert(pieces_key().subrange(1, 6).subrange(1, 5) =~= seq![101u8, 99u8, 101u8, 115u8]);
    assert(comment_key().subrange(1, 7) =~= seq![111u8, 109u8, 109u8, 101u8, 110u8, 116u8]);
    assert(created_by_key().subrange(1, 10) =~= seq![114u8, 101u8, 97u8, 116u8, 101u8, 100u8, 32u8, 98u8, 121u8]);
}

/// The torrent file that `create_from_data` writes.
pub open spec fn created_torrent(
    announce: Seq<Seq<char>>,
    comment: Option<Seq<char>>,
    created_by: Seq<char>,
    name: Seq<char>,
    data: Seq<u8>,
    pl: u64,
) -> Bencode {
    Bencode::Dict(created_entries(announce, comment, created_by, created_info(name, data, pl)))
}

/// The info dictionary and the torrent file that `create_from_data` makes
/// are well formed: keys in increasing order at every level.
proof fn lemma_created_wf(announce: Seq<Seq<char>>, comment: Option<Seq<char>>, created_by: Seq<char>, name: Seq<char>, data: Seq<u8>, pl: u64)
    ensures
        wf(created_info(name, data, pl)),
        wf(created_torrent(announce, comment, created_by, name, data, pl)),
{
    let info = created_info(name, data, pl);
    let d = created_entries(announce, comment, created_by, info);
    let t = Bencode::Dict(d);
    let id = info->Dict_0;
    lemma_key_order();
    assert(keys_increase(id));
    lemma_wf_entries_each(id);
    assert(wf(info));
    let n = d.len() as int;
    assert(d[n - 1] == (info_key(), info));
    assert forall|i: int, j: int| 0 <= i < j < d.len() implies lex_lt(#[trigger] d[i].0, #[trigger] d[j].0) by {
        lemma_key_order();
    }
    if announce.len() > 1 {
        assert forall|j: int| 0 <= j < announce_tiers(announce.drop_first()).len() implies wf(
            #[trigger] announce_tiers(announce.drop_first())[j],
        ) by {
            let one = seq![Bencode::Str(encode_utf8(announce.drop_first()[j]))];
            assert(one.subrange(1, 1) =~= Seq::<Bencode>::empty());
            assert(wf_list(one.subrange(1, 1)));
            assert(wf(one[0]));
            assert(wf_list(one));
        }
        lemma_wf_list_each(announce_tiers(announce.drop_first()));
    }
    assert forall|j: int| 0 <= j < d.len() implies wf(#[trigger] d[j].1) by {
        if announce.len() > 1 && j == 1 {
            assert(d[1].1 == Bencode::List(announce_tiers(announce.drop_first())));
        }
    }
    lemma_wf_entries_each(d);
    assert(wf(t));
}


/// A torrent file made for data reads back as what it was made from: the
/// parser finds the whole file, a valid single-file torrent whose info
/// dictionary (and so info hash) is the one made, with the name, piece
/// length, length and piece digests given, the trackers given in their
/// order, no web seeds, and not private.
pub proof fn created_torrent_reads_back(
    announce: Seq<Seq<char>>,
    comment: Option<Seq<char>>,
    created_by: Seq<char>,
    name: Seq<char>,
    data: Seq<u8>,
    pl: u64,
)
    requires
        encode(created_torrent(announce, comment, created_by, name, data, pl)).len() <= usize::MAX,
    ensures
        ({
            let t = created_torrent(announce, comment, created_by, name, data, pl);
            let info = info_of(t);
            &&& parse_at(encode(t), 0) == Parsed::Value(t, encode(t).len() as int)
            &&& torrent_valid(t)
            &&& files_fit(t)
            &&& info == created_info(name, data, pl)
            &&& string_of(info.get(name_key())) == Some(name)
            &&& info.get(piece_length_key()) == Some(Bencode::Int(pl as i64))
            &&& info.get(length_key()) == Some(Bencode::Int(data.len() as i64))
            &&& info.get(pieces_key()) == Some(Bencode::Str(piece_hash_bytes(data, pl as nat, piece_count(data.len(), pl as nat))))
            &&& announce_candidates(t) == announce
            &&& url_list_of(t) == Seq::<Seq<char>>::empty()
            &&& !private_of(t)
        }),
{
    let info = created_info(name, data, pl);
    let d = created_entries(announce, comment, created_by, info);
    let t = Bencode::Dict(d);
    let id = info->Dict_0;
    lemma_key_order();
    // The info dictionary is well formed and its entries are found.
    assert(keys_increase(id));
    lemma_wf_entries_each(id);
    assert(wf(info));
    lemma_dict_get_at(id, length_key(), 0);
    assert(id[0].0 != name_key());
    lemma_dict_get_at(id, name_key(), 1);
    assert(id[0].0 != piece_length_key() && id[1].0 != piece_length_key());
    lemma_dict_get_at(id, piece_length_key(), 2);
    assert(id[0].0 != pieces_key() && id[1].0 != pieces_key() && id[2].0 != pieces_key());
    lemma_dict_get_at(id, pieces_key(), 3);
    lemma_text_str(name);
    // The torrent dictionary.
    let n = d.len() as int;
    assert(d[n - 1] == (info_key(), info));
    assert(d[n - 2] == (created_by_key(), Bencode::Str(encode_utf8(created_by))));
    lemma_created_wf(announce, comment, created_by, name, data, pl);
    roundtrip_parse_encode(t, Seq::empty());
    assert(encode(t) + Seq::<u8>::empty() =~= encode(t));
    // Looking up the keys.
    assert forall|j: int| 0 <= j < n - 1 implies d[j].0 != info_key() by {
        assert(lex_lt(d[j].0, info_key()));
        if d[j].0 == info_key() {
            assert(!lex_lt(info_key(), info_key())) by {
                reveal_with_fuel(lex_lt, 5);
            }
        }
    }
    lemma_dict_get_at(d, info_key(), n - 1);
    assert forall|j: int| 0 <= j < d.len() implies d[j].0 != url_list_key() && d[j].0 != private_key() by {
        assert(d[j].0[0] != url_list_key()[0] || d[j].0.len() != url_list_key().len());
        assert(d[j].0[0] != private_key()[0] || d[j].0.len() != private_key().len());
    }
    lemma_dict_get_none(d, url_list_key());
    lemma_dict_get_none(d, private_key());
    if announce.len() > 0 {
        lemma_dict_get_at(d, announce_key(), 0);
        lemma_text_str(announce[0]);
    } else {
        assert forall|j: int| 0 <= j < d.len() implies d[j].0 != announce_key() by {
            assert(d[j].0.len() != announce_key().len() || d[j].0[0] != announce_key()[0]);
        }
        lemma_dict_get_none(d, announce_key());
    }
    if announce.len() > 1 {
        assert(d[0].0 != announce_list_key());
        lemma_dict_get_at(d, announce_list_key(), 1);
        lemma_tier_strings(announce.drop_first());
        assert(seq![announce[0]] + announce.drop_first() =~= announce);
    } else {
        assert forall|j: int| 0 <= j < d.len() implies d[j].0 != announce_list_key() by {
            assert(d[j].0.len() != announce_list_key().len());
        }
        lemma_dict_get_none(d, announce_list_key());
        if announce.len() == 1 {
            assert(seq![announce[0]] =~= announce);
        } else {
            assert(announce =~= Seq::<Seq<char>>::empty());
        }
    }
}

/// The info hash that `create_from_data` gives is the one a reader of the
/// torrent file it writes finds: for the file bytes and the hash that
/// `create_from_data` returns, the file parses back whole, the digest of
/// the encoding of the `info` dictionary inside it is the hash, and any
/// metadata `parse_torrent_file` reads from the file carries that hash.
pub proof fn created_info_hash_reads_back(
    announce: Seq<Seq<char>>,
    comment: Option<Seq<char>>,
    created_by: Seq<char>,
    name: Seq<char>,
    data: Seq<u8>,
    pl: u64,
    file: Seq<u8>,
    hash: Seq<u8>,
    m: TorrentMetadata,
)
    requires
        file == encode(created_torrent(announce, comment, created_by, name, data, pl)),
        hash == sha1_digest(encode(created_info(name, data, pl))),
        file.len() <= usize::MAX,
        parse_at(file, 0) matches Parsed::Value(v, _) ==> metadata_matches(v, file, m),
    ensures
        ({
            let t = created_torrent(announce, comment, created_by, name, data, pl);
            &&& parse_at(file, 0) == Parsed::Value(t, file.len() as int)
            &&& sha1_digest(encode(canonical(info_of(t)))) == hash
            &&& m.info_hash@ == hash
        }),
{
    created_torrent_reads_back(announce, comment, created_by, name, data, pl);
    lemma_created_wf(announce, comment, created_by, name, data, pl);
    crate::bencode_order::lemma_canonical_of_wf(created_info(name, data, pl));
}

} // verus!
