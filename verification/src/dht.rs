//! Peer records stored in the DHT: a bencoded dictionary with the peer's
//! id, address and port, filed under the torrent's info hash.

use crate::bencode_parser::{encode, parse_at, parse_bencode, roundtrip_parse_encode, wf, Bencode, BencodeValue, Parsed};
use crate::buffer::bytes_from_slice;
use crate::responses::{digits, push_number};
use crate::text::{str_chars, string_from_chars};
use crate::webrtc::push_text;
use libp2p::kad::{Record, RecordKey};
use vstd::prelude::*;
use vstd::utf8::{decode_utf8, encode_utf8, valid_utf8};

verus! {

/// What the DHT task reports.
#[derive(Debug, Clone)]
pub enum DhtEvent {
    PeerDiscovered(String, u16),
    AnnounceComplete,
    LookupComplete(Vec<(String, u16)>),
    Error(String),
}

#[verifier::external_type_specification]
#[verifier::external_body]
pub struct ExRecordKey(RecordKey);

#[verifier::external_type_specification]
#[verifier::external_body]
pub struct ExRecord(Record);

/// The bytes a record key holds.
pub uninterp spec fn record_key_bytes(k: RecordKey) -> Seq<u8>;

/// The key bytes and the value a record holds.
pub uninterp spec fn record_contents(r: Record) -> (Seq<u8>, Seq<u8>);

/// The key under which a torrent's peers are filed: the info hash itself
/// (`RecordKey::new`, which copies the bytes it is given).
#[verifier::external_body]
fn info_hash_to_key(info_hash: &[u8; 20]) -> (r: RecordKey)
    ensures
        record_key_bytes(r) == info_hash@,
{
    RecordKey::new(info_hash)
}

/// `Record::new`: a record with the given key and value, no publisher and
/// no expiry.
#[verifier::external_body]
fn record_new(key: RecordKey, value: Vec<u8>) -> (r: Record)
    ensures
        record_contents(r) == (record_key_bytes(key), value@),
{
    Record::new(key, value)
}

/// The key `id`.
pub open spec fn id_key() -> Seq<u8> {
    seq![105u8, 100u8]
}

/// The key `ip`.
pub open spec fn ip_key() -> Seq<u8> {
    seq![105u8, 112u8]
}

/// The key `port`.
pub open spec fn port_key() -> Seq<u8> {
    seq![112u8, 111u8, 114u8, 116u8]
}

/// The dictionary a peer record holds: `id`, `ip` (the address text as
/// UTF-8) and `port`, in key order.
pub open spec fn dht_record_dict(peer_id: Seq<u8>, ip: Seq<char>, port: u16) -> Bencode {
    Bencode::Dict(
        seq![
            (id_key(), Bencode::Str(peer_id)),
            (ip_key(), Bencode::Str(encode_utf8(ip))),
            (port_key(), Bencode::Int(port as i64)),
        ],
    )
}

/// The address and port a record value names: the value's first bencoded
/// item must hold a UTF-8 string under `ip` and an integer under `port`,
/// which is cut to 16 bits.
pub open spec fn dht_record_of(value: Seq<u8>) -> Option<(Seq<char>, u16)> {
    match parse_at(value, 0) {
        Parsed::Value(v, _) => match (v.get(ip_key()), v.get(port_key())) {
            (Some(Bencode::Str(s)), Some(Bencode::Int(p))) => if valid_utf8(s) {
                Some((decode_utf8(s), p as u16))
            } else {
                None
            },
            _ => None,
        },
        _ => None,
    }
}

/// The record announcing a peer for a torrent: keyed by the info hash, its
/// value the bencoded peer dictionary.
pub fn create_dht_record(info_hash: [u8; 20], peer_id: [u8; 20], ip: String, port: u16) -> (r: Record)
    ensures
        record_contents(r) == (info_hash@, encode(dht_record_dict(peer_id@, ip@, port))),
{
    let key = info_hash_to_key(&info_hash);
    let id_k: [u8; 2] = [105u8, 100u8];
    let ip_k: [u8; 2] = [105u8, 112u8];
    let port_k: [u8; 4] = [112u8, 111u8, 114u8, 116u8];
    let mut entries: Vec<(bytes::Bytes, BencodeValue)> = Vec::new();
    entries.push((bytes_from_slice(id_k.as_slice()), BencodeValue::Bytes(bytes_from_slice(peer_id.as_slice()))));
    entries.push((bytes_from_slice(ip_k.as_slice()), BencodeValue::Bytes(bytes_from_slice(ip.as_str().as_bytes()))));
    entries.push((bytes_from_slice(port_k.as_slice()), BencodeValue::Integer(port as i64)));
    let dict = BencodeValue::Dict(entries);
    proof {
        assert(id_k@ =~= id_key());
        assert(ip_k@ =~= ip_key());
        assert(port_k@ =~= port_key());
        let dv = crate::bencode_parser::dict_view(entries@);
        assert(dv[0] == (id_key(), Bencode::Str(peer_id@)));
        assert(dv[1] == (ip_key(), Bencode::Str(encode_utf8(ip@))));
        assert(dv[2] == (port_key(), Bencode::Int(port as i64)));
        assert(dv =~= dht_record_dict(peer_id@, ip@, port)->Dict_0);
        assert(dict@ == dht_record_dict(peer_id@, ip@, port));
        lemma_dht_record_wf(peer_id@, ip@, port);
        crate::bencode_order::lemma_canonical_of_wf(dht_record_dict(peer_id@, ip@, port));
    }
    let mut value: Vec<u8> = Vec::new();
    dict.encode_into(&mut value);
    proof {
        assert(value@ =~= encode(dht_record_dict(peer_id@, ip@, port)));
    }
    record_new(key, value)
}

/// The address and port a record value names, if it names them.
pub fn parse_dht_record(value: &[u8]) -> (r: Option<(String, u16)>)
    requires
        parse_at(value@, 0) != Parsed::Overflow,
    ensures
        match dht_record_of(value@) {
            Some((ip, port)) => r matches Some((s, p)) && s@ == ip && p == port,
            None => r is None,
        },
{
    let (bencode, _) = match parse_bencode(value) {
        Ok(x) => x,
        Err(_) => return None,
    };
    if bencode.as_dict().is_none() {
        return None;
    }
    let ip_k: [u8; 2] = [105u8, 112u8];
    let port_k: [u8; 4] = [112u8, 111u8, 114u8, 116u8];
    proof {
        assert(ip_k@ =~= ip_key());
        assert(port_k@ =~= port_key());
    }
    let ip = match bencode.get(ip_k.as_slice()) {
        Some(v) => match v.as_string() {
            Some(s) => s,
            None => return None,
        },
        None => return None,
    };
    let port = match bencode.get(port_k.as_slice()) {
        Some(v) => match v.as_integer() {
            Some(p) => p as u16,
            None => return None,
        },
        None => return None,
    };
    Some((ip, port))
}

/// A peer dictionary is well formed: its keys `id`, `ip`, `port` come in
/// increasing order.
proof fn lemma_dht_record_wf(peer_id: Seq<u8>, ip: Seq<char>, port: u16)
    ensures
        wf(dht_record_dict(peer_id, ip, port)),
{
    let v = dht_record_dict(peer_id, ip, port);
    let d = v->Dict_0;
    assert(id_key().subrange(1, 2) =~= seq![100u8]);
    assert(ip_key().subrange(1, 2) =~= seq![112u8]);
    assert(crate::bencode_parser::lex_lt(id_key().subrange(1, 2), ip_key().subrange(1, 2)));
    assert(crate::bencode_parser::lex_lt(id_key(), ip_key()));
    assert(crate::bencode_parser::lex_lt(ip_key(), port_key()));
    assert(crate::bencode_parser::lex_lt(id_key(), port_key()));
    assert(crate::bencode_parser::keys_increase(d));
    let d1 = d.subrange(1, 3);
    let d2 = d1.subrange(1, 2);
    assert(d2 =~= seq![(port_key(), Bencode::Int(port as i64))]);
    assert(d2.subrange(1, 1) =~= Seq::<(Seq<u8>, Bencode)>::empty());
    assert(crate::bencode_parser::wf_entries(d2.subrange(1, 1)));
    assert(wf(d2[0].1));
    assert(crate::bencode_parser::wf_entries(d2));
    assert(d1.len() == 2);
    assert(wf(d1[0].1));
    assert(d1.subrange(1, d1.len() as int) == d2);
    assert(wf(d[0].1));
    assert(d.subrange(1, d.len() as int) == d1);
    assert(crate::bencode_parser::wf_entries(d.subrange(1, 3)));
    assert(crate::bencode_parser::wf_entries(d));
    assert(wf(v));
}

/// A peer record's value reads back as the address and port it was made
/// from.
pub proof fn dht_record_roundtrip(peer_id: Seq<u8>, ip: Seq<char>, port: u16)
    requires
        encode(dht_record_dict(peer_id, ip, port)).len() <= usize::MAX,
    ensures
        parse_at(encode(dht_record_dict(peer_id, ip, port)), 0) != Parsed::Overflow,
        dht_record_of(encode(dht_record_dict(peer_id, ip, port))) == Some((ip, port)),
{
    let v = dht_record_dict(peer_id, ip, port);
    let d = v->Dict_0;
    lemma_dht_record_wf(peer_id, ip, port);
    let d1 = d.subrange(1, 3);
    let d2 = d1.subrange(1, 2);
    assert(d2 =~= seq![(port_key(), Bencode::Int(port as i64))]);
    roundtrip_parse_encode(v, Seq::empty());
    assert(encode(v) + Seq::<u8>::empty() =~= encode(v));
    assert(id_key()[1] != ip_key()[1]);
    assert(id_key() != ip_key());
    assert(ip_key().len() != port_key().len());
    assert(id_key().len() != port_key().len());
    assert(d.subrange(1, 3)[0].0 == ip_key());
    assert(d1[0] == (ip_key(), Bencode::Str(encode_utf8(ip))));
    assert(crate::bencode_parser::dict_get(d1, ip_key()) == Some(Bencode::Str(encode_utf8(ip))));
    assert(crate::bencode_parser::dict_get(d, ip_key()) == crate::bencode_parser::dict_get(d1, ip_key()));
    assert(crate::bencode_parser::dict_get(d, ip_key()) == Some(Bencode::Str(encode_utf8(ip))));
    assert(d2[0] == (port_key(), Bencode::Int(port as i64)));
    assert(crate::bencode_parser::dict_get(d2, port_key()) == Some(Bencode::Int(port as i64)));
    assert(crate::bencode_parser::dict_get(d1, port_key()) == crate::bencode_parser::dict_get(d2, port_key()));
    assert(d.subrange(1, 3).subrange(1, 2)[0].0 == port_key());
    assert(crate::bencode_parser::dict_get(d.subrange(1, 3), port_key()) == Some(Bencode::Int(port as i64)));
    assert(crate::bencode_parser::dict_get(d, port_key()) == Some(Bencode::Int(port as i64)));
    vstd::utf8::encode_utf8_valid_utf8(ip);
    vstd::utf8::encode_utf8_decode_utf8(ip);
}

/// The value of the record that announces us: `0.0.0.0:` and our port.
pub open spec fn announce_text(port: u16) -> Seq<char> {
    "0.0.0.0:"@ + digits(port as nat)
}

/// The value of the record that announces us.
pub fn announce_value(port: u16) -> (r: Vec<u8>)
    ensures
        r@ == encode_utf8(announce_text(port)),
{
    let mut out: Vec<char> = Vec::new();
    push_text(&mut out, "0.0.0.0:");
    push_number(&mut out, port as u64);
    let s = string_from_chars(out.as_slice());
    let b = s.as_str().as_bytes();
    let mut v: Vec<u8> = Vec::new();
    let mut i: usize = 0;
    while i < b.len()
        invariant
            0 <= i <= b@.len(),
            v@ == b@.subrange(0, i as int),
        decreases b@.len() - i,
    {
        v.push(b[i]);
        proof {
            assert(v@ =~= b@.subrange(0, i + 1));
        }
        i = i + 1;
    }
    proof {
        assert(b@.subrange(0, b@.len() as int) =~= b@);
    }
    v
}

/// The record that announces us for a torrent: filed under the info hash,
/// its value `0.0.0.0:` and our port.
pub fn announce_record(info_hash: [u8; 20], port: u16) -> (r: Record)
    ensures
        record_contents(r) == (info_hash@, encode_utf8(announce_text(port))),
{
    let key = info_hash_to_key(&info_hash);
    record_new(key, announce_value(port))
}

/// The key under which a torrent's peers are looked up: the info hash.
pub fn lookup_key(info_hash: [u8; 20]) -> (r: RecordKey)
    ensures
        record_key_bytes(r) == info_hash@,
{
    info_hash_to_key(&info_hash)
}

/// The address the DHT listens on: every IPv4 interface, TCP `port`
/// (zero for any).
pub open spec fn listen_text(port: u16) -> Seq<char> {
    "/ip4/0.0.0.0/tcp/"@ + digits(port as nat)
}

/// The address the DHT listens on.
pub fn listen_address(port: u16) -> (r: String)
    ensures
        r@ == listen_text(port),
{
    let mut out: Vec<char> = Vec::new();
    push_text(&mut out, "/ip4/0.0.0.0/tcp/");
    push_number(&mut out, port as u64);
    string_from_chars(out.as_slice())
}

/// The nodes the DHT first dials.
pub fn bootstrap_nodes() -> (r: Vec<String>)
    ensures
        r@.len() == 3,
        r@[0]@ == "/ip4/67.215.246.10/tcp/6881"@,
        r@[1]@ == "/ip4/87.98.162.88/tcp/6881"@,
        r@[2]@ == "/ip4/82.221.103.244/tcp/6881"@,
{
    let mut v: Vec<String> = Vec::new();
    v.push(String::from_str("/ip4/67.215.246.10/tcp/6881"));
    v.push(String::from_str("/ip4/87.98.162.88/tcp/6881"));
    v.push(String::from_str("/ip4/82.221.103.244/tcp/6881"));
    v
}

/// The peers that DHT lookups found, each once, in the order found.
pub struct DiscoveredPeers {
    peers: Vec<(String, u16)>,
}

/// Peers as plain values.
pub open spec fn peers_view(s: Seq<(String, u16)>) -> Seq<(Seq<char>, u16)> {
    Seq::new(s.len(), |i: int| (s[i].0@, s[i].1))
}

impl DiscoveredPeers {
    /// The peers found.
    pub closed spec fn view(&self) -> Seq<(Seq<char>, u16)> {
        peers_view(self.peers@)
    }

    /// None found yet.
    pub fn new() -> (r: DiscoveredPeers)
        ensures
            r.view() == Seq::<(Seq<char>, u16)>::empty(),
    {
        let r = DiscoveredPeers { peers: Vec::new() };
        proof {
            assert(r.view() =~= Seq::<(Seq<char>, u16)>::empty());
        }
        r
    }

    /// Whether the peer was found already.
    pub fn contains(&self, ip: &str, port: u16) -> (r: bool)
        ensures
            r == self.view().contains((ip@, port)),
    {
        let want = str_chars(ip);
        let mut i: usize = 0;
        while i < self.peers.len()
            invariant
                0 <= i <= self.peers@.len(),
                want@ == ip@,
                forall|j: int| 0 <= j < i ==> peers_view(self.peers@)[j] != (ip@, port),
            decreases self.peers@.len() - i,
        {
            if self.peers[i].1 == port {
                let have = str_chars(self.peers[i].0.as_str());
                if chars_same(&have, &want) {
                    proof {
                        assert(peers_view(self.peers@)[i as int] == (ip@, port));
                    }
                    return true;
                }
            }
            i = i + 1;
        }
        false
    }

    /// Takes in the value of a record that a lookup found: a new peer is
    /// kept and given back; a known peer or a value that names no peer
    /// gives nothing.
    pub fn record_found(&mut self, value: &[u8]) -> (r: Option<(String, u16)>)
        requires
            parse_at(value@, 0) != Parsed::Overflow,
        ensures
            match dht_record_of(value@) {
                Some(p) => if old(self).view().contains(p) {
                    r is None && final(self).view() == old(self).view()
                } else {
                    r matches Some((ip, port)) && ip@ == p.0 && port == p.1 && final(self).view() == old(self).view().push(p)
                },
                None => r is None && final(self).view() == old(self).view(),
            },
    {
        match parse_dht_record(value) {
            Some((ip, port)) => {
                if self.contains(ip.as_str(), port) {
                    return None;
                }
                let ghost before = self.peers@;
                self.peers.push((ip.clone(), port));
                proof {
                    assert(self.view() =~= peers_view(before).push((ip@, port)));
                }
                Some((ip, port))
            },
            None => None,
        }
    }

    /// Keeps a peer; says whether it is new.
    pub fn add(&mut self, ip: String, port: u16) -> (r: bool)
        ensures
            r == !old(self).view().contains((ip@, port)),
            r ==> final(self).view() == old(self).view().push((ip@, port)),
            !r ==> final(self).view() == old(self).view(),
    {
        if self.contains(ip.as_str(), port) {
            return false;
        }
        let ghost before = self.peers@;
        let ghost ipv = ip@;
        self.peers.push((ip, port));
        proof {
            assert(self.view() =~= peers_view(before).push((ipv, port)));
        }
        true
    }

    /// Forgets a peer, as when a local announcement expires.
    pub fn remove(&mut self, ip: &str, port: u16)
        ensures
            final(self).view() == old(self).view().filter(|p: (Seq<char>, u16)| p != (ip@, port)),
    {
        let want = str_chars(ip);
        let ghost all = self.peers@;
        let mut kept: Vec<(String, u16)> = Vec::new();
        let mut i: usize = 0;
        while i < self.peers.len()
            invariant
                0 <= i <= self.peers@.len(),
                all == self.peers@,
                want@ == ip@,
                peers_view(kept@) == peers_view(all.subrange(0, i as int)).filter(|p: (Seq<char>, u16)| p != (ip@, port)),
            decreases self.peers@.len() - i,
        {
            proof {
                reveal(Seq::filter);
                assert(peers_view(all.subrange(0, i + 1)).drop_last() =~= peers_view(all.subrange(0, i as int)));
                assert(peers_view(all.subrange(0, i + 1)).last() == (all[i as int].0@, all[i as int].1));
            }
            let same = self.peers[i].1 == port && chars_same(&str_chars(self.peers[i].0.as_str()), &want);
            if !same {
                let ghost before = kept@;
                let name = self.peers[i].0.clone();
                kept.push((name, self.peers[i].1));
                proof {
                    assert(peers_view(kept@) =~= peers_view(before).push((all[i as int].0@, all[i as int].1)));
                }
            }
            i = i + 1;
        }
        proof {
            assert(all.subrange(0, all.len() as int) =~= all);
        }
        self.peers = kept;
    }

    /// Forgets every peer.
    pub fn clear(&mut self)
        ensures
            final(self).view() == Seq::<(Seq<char>, u16)>::empty(),
    {
        self.peers = Vec::new();
        proof {
            assert(self.view() =~= Seq::<(Seq<char>, u16)>::empty());
        }
    }

    /// The peers found.
    pub fn peers(&self) -> (r: Vec<(String, u16)>)
        ensures
            peers_view(r@) == self.view(),
    {
        let mut out: Vec<(String, u16)> = Vec::new();
        let mut i: usize = 0;
        while i < self.peers.len()
            invariant
                0 <= i <= self.peers@.len(),
                out@.len() == i,
                peers_view(out@) == peers_view(self.peers@.subrange(0, i as int)),
            decreases self.peers@.len() - i,
        {
            let ghost before = out@;
            let ip = self.peers[i].0.clone();
            proof {
                assert(ip@ == self.peers@[i as int].0@);
            }
            out.push((ip, self.peers[i].1));
            proof {
                assert forall|j: int| 0 <= j < i + 1 implies peers_view(out@)[j] == peers_view(self.peers@.subrange(0, i + 1))[j] by {
                    if j < i {
                        assert(out@[j] == before[j]);
                        assert(peers_view(before)[j] == peers_view(self.peers@.subrange(0, i as int))[j]);
                        assert(self.peers@.subrange(0, i as int)[j] == self.peers@.subrange(0, i + 1)[j]);
                    }
                }
                assert(peers_view(out@) =~= peers_view(self.peers@.subrange(0, i + 1)));
            }
            i = i + 1;
        }
        proof {
            assert(self.peers@.subrange(0, self.peers@.len() as int) =~= self.peers@);
        }
        out
    }
}

/// Whether two character vectors hold the same characters.
fn chars_same(a: &Vec<char>, b: &Vec<char>) -> (r: bool)
    ensures
        r == (a@ == b@),
{
    if a.len() != b.len() {
        return false;
    }
    let mut i: usize = 0;
    while i < a.len()
        invariant
            0 <= i <= a@.len(),
            a@.len() == b@.len(),
            forall|j: int| 0 <= j < i ==> a@[j] == b@[j],
        decreases a@.len() - i,
    {
        if a[i] != b[i] {
            proof {
                assert(a@[i as int] != b@[i as int]);
            }
            return false;
        }
        i = i + 1;
    }
    proof {
        assert(a@ =~= b@);
    }
    true
}

} // verus!
