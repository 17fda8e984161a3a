//! Extensions of the peer wire protocol: ut_metadata (serving the info
//! dictionary in pieces), ut_pex (peer exchange in the compact format) and
//! the table of extension ids.

use crate::buffer::{bytes_contents, bytes_from_vec, bytes_len, bytes_slice};
use crate::decimal::chars_as_ascii;
use crate::error::Result;
use crate::ipv4::{ipv4_chars, ipv4_of_str, ipv4_string, is_ipv4_text, lemma_chars_of_text, parse_ipv4_str};
use bytes::Bytes;
use vstd::prelude::*;

verus! {

/// The size of a ut_metadata piece.
pub const METADATA_PIECE_LENGTH: usize = 16384;

/// An extension a peer announced: its id, name and, for ut_metadata, the
/// size of the metadata.
#[derive(Debug, Clone)]
pub struct ExtensionInfo {
    pub id: u8,
    pub name: String,
    pub metadata_size: Option<usize>,
}

/// The ut_metadata extension: the metadata (the bencoded info dictionary)
/// once known, served in pieces of `METADATA_PIECE_LENGTH` bytes.
pub struct UtMetadata {
    metadata: Option<Bytes>,
    metadata_size: Option<usize>,
}

impl UtMetadata {
    /// The metadata held, if any.
    pub closed spec fn metadata_view(&self) -> Option<Seq<u8>> {
        match self.metadata {
            Some(b) => Some(bytes_contents(b)),
            None => None,
        }
    }

    /// The recorded size, if any.
    pub closed spec fn size_view(&self) -> Option<usize> {
        self.metadata_size
    }

    /// No metadata yet.
    pub fn new() -> (r: UtMetadata)
        ensures
            r.metadata_view() is None,
            r.size_view() is None,
    {
        UtMetadata { metadata: None, metadata_size: None }
    }

    /// Holds `metadata` and records its size.
    pub fn set_metadata(&mut self, metadata: Bytes)
        ensures
            final(self).metadata_view() == Some(bytes_contents(metadata)),
            final(self).size_view() == Some(bytes_contents(metadata).len() as usize),
    {
        let len = bytes_len(&metadata);
        self.metadata = Some(metadata);
        self.metadata_size = Some(len);
    }

    /// The metadata held, if any.
    pub fn get_metadata(&self) -> (r: Option<&Bytes>)
        ensures
            match self.metadata_view() {
                Some(m) => r matches Some(b) && bytes_contents(*b) == m,
                None => r is None,
            },
    {
        match &self.metadata {
            Some(b) => Some(b),
            None => None,
        }
    }

    /// Asks a peer for the metadata; nothing to do here, so it succeeds.
    pub fn fetch(&self) -> (r: Result<()>)
        ensures
            r is Ok,
    {
        Ok(())
    }

    /// The bytes of metadata piece `piece`: `METADATA_PIECE_LENGTH` bytes
    /// from `piece * METADATA_PIECE_LENGTH`, fewer for the last piece; `None`
    /// when the piece starts past the end or there is no metadata.
    pub fn handle_request(&self, piece: usize) -> (r: Result<Option<Bytes>>)
        requires
            self.metadata_view() is Some ==> piece * 16384 + 16384 <= usize::MAX,
        ensures
            r matches Ok(o) && match self.metadata_view() {
                None => o is None,
                Some(m) => if piece * 16384 < m.len() {
                    o matches Some(b) && bytes_contents(b) == m.subrange(
                        piece * 16384,
                        if piece * 16384 + 16384 <= m.len() {
                            piece * 16384 + 16384
                        } else {
                            m.len() as int
                        },
                    )
                } else {
                    o is None
                },
            },
    {
        match &self.metadata {
            Some(metadata) => {
                let start = piece * METADATA_PIECE_LENGTH;
                let len = bytes_len(metadata);
                let end = if start + METADATA_PIECE_LENGTH <= len {
                    start + METADATA_PIECE_LENGTH
                } else {
                    len
                };
                if start < len {
                    return Ok(Some(bytes_slice(metadata, start, end)));
                }
                Ok(None)
            },
            None => Ok(None),
        }
    }
}

/// The big-endian 16-bit number in `b[i..i + 2]`.
pub open spec fn be16(b: Seq<u8>, i: int) -> nat {
    (b[i] as nat) * 256 + (b[i + 1] as nat)
}

/// The two big-endian bytes of `p`.
pub open spec fn be16_bytes(p: u16) -> Seq<u8> {
    seq![(p / 256) as u8, (p % 256) as u8]
}

/// The compact form of one peer: the four octets of its address and its
/// port; nothing for an address that is not IPv4 dotted-decimal text.
pub open spec fn compact_entry(ip: String, port: u16) -> Seq<u8> {
    match ipv4_of_str(ip@) {
        Some(o) => o + be16_bytes(port),
        None => Seq::empty(),
    }
}

/// The compact form of a list of peers.
pub open spec fn compact_peers(s: Seq<(String, u16)>) -> Seq<u8>
    decreases s.len(),
{
    if s.len() == 0 {
        Seq::empty()
    } else {
        compact_peers(s.drop_last()) + compact_entry(s.last().0, s.last().1)
    }
}

/// The peer in the `i`-th six-byte record of compact data.
pub open spec fn compact_peer_at(data: Seq<u8>, i: int) -> (Seq<char>, u16) {
    (ipv4_chars(data.subrange(6 * i, 6 * i + 4)), be16(data, 6 * i + 4) as u16)
}

/// The peers of compact data: one per whole six-byte record; a shorter
/// tail is ignored.
pub open spec fn peers_of_compact(data: Seq<u8>) -> Seq<(Seq<char>, u16)> {
    Seq::new(data.len() / 6, |i: int| compact_peer_at(data, i))
}

/// The peers of a list whose addresses are IPv4 text, in order.
pub open spec fn ipv4_peers(s: Seq<(String, u16)>) -> Seq<(Seq<char>, u16)>
    decreases s.len(),
{
    if s.len() == 0 {
        Seq::empty()
    } else if ipv4_of_str(s.last().0@) is Some {
        ipv4_peers(s.drop_last()).push((s.last().0@, s.last().1))
    } else {
        ipv4_peers(s.drop_last())
    }
}

/// The peers a vector of peers holds, as text and port.
pub open spec fn peer_views(v: Seq<(String, u16)>) -> Seq<(Seq<char>, u16)> {
    Seq::new(v.len(), |i: int| (v[i].0@, v[i].1))
}

/// The ut_pex extension: peers to announce as added and as dropped.
pub struct UtPex {
    added: Vec<(String, u16)>,
    dropped: Vec<(String, u16)>,
}

impl UtPex {
    /// The peers announced as added.
    pub closed spec fn added_view(&self) -> Seq<(String, u16)> {
        self.added@
    }

    /// The peers announced as dropped.
    pub closed spec fn dropped_view(&self) -> Seq<(String, u16)> {
        self.dropped@
    }

    /// No peers added or dropped.
    pub fn new() -> (r: UtPex)
        ensures
            r.added_view() == Seq::<(String, u16)>::empty(),
            r.dropped_view() == Seq::<(String, u16)>::empty(),
    {
        UtPex { added: Vec::new(), dropped: Vec::new() }
    }

    /// Announces `ip:port` as added.
    pub fn add_peer(&mut self, ip: String, port: u16)
        ensures
            final(self).added_view() == old(self).added_view().push((ip, port)),
            final(self).dropped_view() == old(self).dropped_view(),
    {
        self.added.push((ip, port));
    }

    /// Announces `ip:port` as dropped.
    pub fn drop_peer(&mut self, ip: String, port: u16)
        ensures
            final(self).dropped_view() == old(self).dropped_view().push((ip, port)),
            final(self).added_view() == old(self).added_view(),
    {
        self.dropped.push((ip, port));
    }

    /// The peers announced as added.
    pub fn get_added(&self) -> (r: &[(String, u16)])
        ensures
            r@ == self.added_view(),
    {
        self.added.as_slice()
    }

    /// The peers announced as dropped.
    pub fn get_dropped(&self) -> (r: &[(String, u16)])
        ensures
            r@ == self.dropped_view(),
    {
        self.dropped.as_slice()
    }

    /// Forgets all added and dropped peers.
    pub fn reset(&mut self)
        ensures
            final(self).added_view() == Seq::<(String, u16)>::empty(),
            final(self).dropped_view() == Seq::<(String, u16)>::empty(),
    {
        self.added.clear();
        self.dropped.clear();
    }

    /// Replaces both lists.
    pub(crate) fn replace_peers(&mut self, added: Vec<(String, u16)>, dropped: Vec<(String, u16)>)
        ensures
            final(self).added_view() == added@,
            final(self).dropped_view() == dropped@,
    {
        self.added = added;
        self.dropped = dropped;
    }

    /// A copy with the same lists.
    pub fn duplicate(&self) -> (r: UtPex)
        ensures
            r.added_view() == self.added_view(),
            r.dropped_view() == self.dropped_view(),
    {
        UtPex { added: copy_peers(&self.added), dropped: copy_peers(&self.dropped) }
    }

    /// The added peers in the compact format: six bytes per peer whose
    /// address is IPv4 text, the octets then the big-endian port; other
    /// peers are left out.
    pub fn encode(&self) -> (r: Bytes)
        ensures
            bytes_contents(r) == compact_peers(self.added_view()),
    {
        let mut buf: Vec<u8> = Vec::new();
        let mut i: usize = 0;
        while i < self.added.len()
            invariant
                0 <= i <= self.added@.len(),
                buf@ == compact_peers(self.added@.subrange(0, i as int)),
            decreases self.added@.len() - i,
        {
            let ghost prev = self.added@.subrange(0, i as int);
            let ip = &self.added[i].0;
            let port = self.added[i].1;
            proof {
                assert(self.added@.subrange(0, i + 1).drop_last() =~= prev);
            }
            match parse_ipv4_str(ip.as_str()) {
                Some(o) => {
                    buf.push(o[0]);
                    buf.push(o[1]);
                    buf.push(o[2]);
                    buf.push(o[3]);
                    buf.push((port / 256) as u8);
                    buf.push((port % 256) as u8);
                    proof {
                        assert(compact_entry(*ip, port) =~= o@ + be16_bytes(port));
                        assert(buf@ =~= compact_peers(prev) + compact_entry(*ip, port));
                    }
                },
                None => {
                    proof {
                        assert(compact_entry(*ip, port) =~= Seq::<u8>::empty());
                        assert(buf@ =~= compact_peers(prev) + compact_entry(*ip, port));
                    }
                },
            }
            i = i + 1;
        }
        proof {
            assert(self.added@.subrange(0, self.added@.len() as int) =~= self.added@);
        }
        bytes_from_vec(buf)
    }

    /// The peers of compact data: one per whole six-byte record, a shorter
    /// tail ignored.
    pub fn decode(data: &[u8]) -> (r: Result<Vec<(String, u16)>>)
        ensures
            r matches Ok(v) && peer_views(v@) == peers_of_compact(data@),
    {
        let len = data.len();
        let n = len / 6;
        let mut peers: Vec<(String, u16)> = Vec::new();
        let mut k: usize = 0;
        while k < n
            invariant
                0 <= k <= n,
                len == data@.len(),
                n == data@.len() / 6,
                peers@.len() == k,
                forall|j: int| 0 <= j < k ==> (#[trigger] peers@[j].0@, peers@[j].1) == compact_peer_at(data@, j),
            decreases n - k,
        {
            assert(6 * k + 6 <= data@.len()) by (nonlinear_arith)
                requires
                    k < n,
                    n == data@.len() / 6,
            ;
            assert(6 * k <= usize::MAX);
            let b: usize = 6 * k;
            let o: [u8; 4] = [data[b], data[b + 1], data[b + 2], data[b + 3]];
            proof {
                assert(o@ =~= data@.subrange(b as int, b + 4));
            }
            let ip = ipv4_string(&o);
            let port = (data[b + 4] as u16) * 256 + (data[b + 5] as u16);
            peers.push((ip, port));
            k = k + 1;
        }
        proof {
            assert(peer_views(peers@) =~= peers_of_compact(data@));
        }
        Ok(peers)
    }

    /// A ut_pex payload read back as the peers it adds and the peers it
    /// drops: the payload is the compact list of added peers, as `encode`
    /// writes it, and drops none.
    pub fn decode_full(data: &[u8]) -> (r: Result<(Vec<(String, u16)>, Vec<(String, u16)>)>)
        ensures
            r matches Ok((a, d)) && peer_views(a@) == peers_of_compact(data@) && d@.len() == 0,
    {
        let added = UtPex::decode(data)?;
        Ok((added, Vec::new()))
    }
}

/// A copy of a list of peers.
fn copy_peers(v: &Vec<(String, u16)>) -> (r: Vec<(String, u16)>)
    ensures
        r@ == v@,
{
    let mut out: Vec<(String, u16)> = Vec::new();
    let mut i: usize = 0;
    while i < v.len()
        invariant
            0 <= i <= v@.len(),
            out@ == v@.subrange(0, i as int),
        decreases v@.len() - i,
    {
        let s = v[i].0.clone();
        out.push((s, v[i].1));
        proof {
            assert(out@ =~= v@.subrange(0, i + 1));
        }
        i = i + 1;
    }
    proof {
        assert(v@.subrange(0, v@.len() as int) =~= v@);
    }
    out
}

/// The peer of an address that parses: its text is the text of its octets.
proof fn lemma_entry_text(ip: String, o: Seq<u8>)
    requires
        ipv4_of_str(ip@) == Some(o),
    ensures
        o.len() == 4,
        ip@ == ipv4_chars(o),
{
    let s = chars_as_ascii(ip@);
    assert(exists|x: Seq<u8>| is_ipv4_text(s, x));
    assert(is_ipv4_text(s, o));
    lemma_chars_of_text(ip@, o);
}

/// Reading back the compact form of a list of peers gives the peers whose
/// addresses are IPv4 text, in order, with their ports.
pub proof fn pex_roundtrip(s: Seq<(String, u16)>)
    ensures
        compact_peers(s).len() % 6 == 0,
        peers_of_compact(compact_peers(s)) == ipv4_peers(s),
    decreases s.len(),
{
    if s.len() == 0 {
        assert(peers_of_compact(compact_peers(s)) =~= ipv4_peers(s));
    } else {
        let p = s.drop_last();
        let x = s.last();
        pex_roundtrip(p);
        let d0 = compact_peers(p);
        let e = compact_entry(x.0, x.1);
        let d = compact_peers(s);
        assert(d == d0 + e);
        let n0: int = (d0.len() / 6) as int;
        assert(d0.len() == 6 * n0);
        match ipv4_of_str(x.0@) {
            Some(o) => {
                lemma_entry_text(x.0, o);
                assert(e.len() == 6);
                assert(d.len() == 6 * (n0 + 1));
                assert(d.len() / 6 == n0 + 1) by (nonlinear_arith)
                    requires
                        d.len() == 6 * (n0 + 1),
                ;
                assert(d0.len() / 6 == n0);
                assert(d.subrange(6 * n0, 6 * n0 + 4) =~= o);
                assert(d[6 * n0 + 4] == (x.1 / 256) as u8);
                assert(d[6 * n0 + 5] == (x.1 % 256) as u8);
                assert(be16(d, 6 * n0 + 4) == x.1);
                assert forall|i: int| 0 <= i < n0 implies #[trigger] compact_peer_at(d, i) == compact_peer_at(d0, i) by {
                    assert(6 * i + 6 <= 6 * n0) by (nonlinear_arith)
                        requires
                            i < n0,
                    ;
                    assert(d.subrange(6 * i, 6 * i + 4) =~= d0.subrange(6 * i, 6 * i + 4));
                }
                assert(peers_of_compact(d) =~= peers_of_compact(d0).push((x.0@, x.1)));
            },
            None => {
                assert(e =~= Seq::<u8>::empty());
                assert(d =~= d0);
            },
        }
    }
}

/// A list of peers whose addresses are all IPv4 text (the dotted-decimal
/// form `str::parse` accepts, which is the one form it accepts) comes back
/// from its compact form exactly: same texts, same ports, same order.
pub proof fn pex_canonical_roundtrip(s: Seq<(String, u16)>)
    requires
        forall|i: int| 0 <= i < s.len() ==> #[trigger] ipv4_of_str(s[i].0@) is Some,
    ensures
        peers_of_compact(compact_peers(s)) == peer_views(s),
    decreases s.len(),
{
    pex_roundtrip(s);
    lemma_ipv4_peers_all(s);
}

/// When every address is IPv4 text, the IPv4 peers are all the peers.
proof fn lemma_ipv4_peers_all(s: Seq<(String, u16)>)
    requires
        forall|i: int| 0 <= i < s.len() ==> #[trigger] ipv4_of_str(s[i].0@) is Some,
    ensures
        ipv4_peers(s) == peer_views(s),
    decreases s.len(),
{
    if s.len() > 0 {
        let p = s.drop_last();
        assert forall|i: int| 0 <= i < p.len() implies #[trigger] ipv4_of_str(p[i].0@) is Some by {
            assert(p[i] == s[i]);
        }
        lemma_ipv4_peers_all(p);
        assert(ipv4_of_str(s[s.len() - 1].0@) is Some);
        assert(peer_views(p).push((s.last().0@, s.last().1)) =~= peer_views(s));
    } else {
        assert(peer_views(s) =~= Seq::<(Seq<char>, u16)>::empty());
    }
}

/// The id-to-name table that a list of extensions describes; a later entry
/// for an id replaces an earlier one.
pub open spec fn extension_table(s: Seq<ExtensionInfo>) -> Map<u8, Seq<char>>
    decreases s.len(),
{
    if s.len() == 0 {
        Map::empty()
    } else {
        extension_table(s.drop_last()).insert(s.last().id, s.last().name@)
    }
}

/// No two entries share an id.
pub open spec fn ids_distinct(s: Seq<ExtensionInfo>) -> bool {
    forall|i: int, j: int| 0 <= i < j < s.len() ==> s[i].id != s[j].id
}

/// The ids of a list are the keys of its table, and with distinct ids each
/// entry's name is the name its id maps to.
proof fn lemma_table(s: Seq<ExtensionInfo>)
    ensures
        forall|k: u8| #[trigger] extension_table(s).contains_key(k) <==> exists|i: int| 0 <= i < s.len() && s[i].id == k,
        ids_distinct(s) ==> forall|i: int| 0 <= i < s.len() ==> #[trigger] extension_table(s)[s[i].id] == s[i].name@,
    decreases s.len(),
{
    if s.len() > 0 {
        let p = s.drop_last();
        let x = s.last();
        lemma_table(p);
        assert(extension_table(s) == extension_table(p).insert(x.id, x.name@));
        assert forall|k: u8| #[trigger] extension_table(s).contains_key(k) <==> exists|i: int| 0 <= i < s.len() && s[i].id == k by {
            if k == x.id {
                assert(s[s.len() - 1].id == k);
            }
            if extension_table(s).contains_key(k) && k != x.id {
                assert(extension_table(p).contains_key(k));
                let i = choose|i: int| 0 <= i < p.len() && p[i].id == k;
                assert(s[i].id == k);
            }
            if exists|i: int| 0 <= i < s.len() && s[i].id == k {
                let i = choose|i: int| 0 <= i < s.len() && s[i].id == k;
                if i < p.len() {
                    assert(p[i].id == k);
                }
            }
        }
        if ids_distinct(s) {
            assert(ids_distinct(p));
            assert forall|i: int| 0 <= i < s.len() implies #[trigger] extension_table(s)[s[i].id] == s[i].name@ by {
                if i < p.len() {
                    assert(p[i] == s[i]);
                    assert(s[i].id != s[s.len() - 1].id);
                    assert(extension_table(p)[p[i].id] == p[i].name@);
                }
            }
        }
    }
}

/// A name just registered is found again: looking it up in the table
/// gives an id that stands for it, and no other name takes its place.
pub proof fn registered_name_found(table: Map<u8, Seq<char>>, id: u8, name: Seq<char>)
    ensures
        exists|k: u8| #[trigger] table.insert(id, name).contains_key(k) && table.insert(id, name)[k] == name,
        table.insert(id, name)[id] == name,
{
    assert(table.insert(id, name).contains_key(id));
}

/// The table of extensions a peer announced.
pub struct ExtensionProtocol {
    extensions: Vec<ExtensionInfo>,
    #[allow(dead_code)]
    handshake: Option<Bytes>,
}

impl ExtensionProtocol {
    /// The ids registered and the names they stand for.
    pub closed spec fn table(&self) -> Map<u8, Seq<char>> {
        extension_table(self.extensions@)
    }

    /// The table keeps one entry per id.
    pub closed spec fn wf(&self) -> bool {
        ids_distinct(self.extensions@)
    }

    /// An empty table.
    pub fn new() -> (r: ExtensionProtocol)
        ensures
            r.wf(),
            r.table() == Map::<u8, Seq<char>>::empty(),
    {
        ExtensionProtocol { extensions: Vec::new(), handshake: None }
    }

    /// Registers `name` under `id`, replacing what `id` stood for.
    pub fn register_extension(&mut self, id: u8, name: String)
        requires
            old(self).wf(),
        ensures
            final(self).wf(),
            final(self).table() == old(self).table().insert(id, name@),
    {
        let ghost old_ext = self.extensions@;
        let mut kept: Vec<ExtensionInfo> = Vec::new();
        let mut i: usize = 0;
        while i < self.extensions.len()
            invariant
                0 <= i <= old_ext.len(),
                self.extensions@ == old_ext,
                ids_distinct(old_ext),
                ids_distinct(kept@),
                forall|j: int| 0 <= j < kept@.len() ==> #[trigger] kept@[j].id != id,
                forall|j: int| 0 <= j < kept@.len() ==> exists|m: int| 0 <= m < i && #[trigger] kept@[j] == old_ext[m],
                extension_table(kept@) == extension_table(old_ext.subrange(0, i as int)).remove(id),
            decreases old_ext.len() - i,
        {
            let e = &self.extensions[i];
            let ghost pre = old_ext.subrange(0, i as int);
            proof {
                assert(old_ext.subrange(0, i + 1).drop_last() =~= pre);
            }
            if e.id != id {
                let ghost kept_before = kept@;
                kept.push(ExtensionInfo { id: e.id, name: e.name.clone(), metadata_size: e.metadata_size });
                proof {
                    assert(kept@.drop_last() =~= kept_before);
                    assert forall|a: int, b: int| 0 <= a < b < kept@.len() implies kept@[a].id != kept@[b].id by {
                        if b == kept@.len() - 1 {
                            let m = choose|m: int| 0 <= m < i && #[trigger] kept_before[a] == old_ext[m];
                            assert(old_ext[m].id != old_ext[i as int].id);
                        }
                    }
                    assert forall|j: int| 0 <= j < kept@.len() implies exists|m: int| 0 <= m < i + 1 && #[trigger] kept@[j] == old_ext[m] by {
                        if j == kept@.len() - 1 {
                            assert(kept@[j] == old_ext[i as int]);
                        } else {
                            let m = choose|m: int| 0 <= m < i && #[trigger] kept_before[j] == old_ext[m];
                            assert(kept@[j] == old_ext[m]);
                        }
                    }
                    assert(extension_table(kept@) =~= extension_table(old_ext.subrange(0, i + 1)).remove(id));
                }
            } else {
                proof {
                    assert(extension_table(kept@) =~= extension_table(old_ext.subrange(0, i + 1)).remove(id));
                }
            }
            i = i + 1;
        }
        let ghost kept_before = kept@;
        kept.push(ExtensionInfo { id, name, metadata_size: None });
        proof {
            assert(old_ext.subrange(0, old_ext.len() as int) =~= old_ext);
            assert(kept@.drop_last() =~= kept_before);
            assert(extension_table(kept@) =~= extension_table(old_ext).insert(id, name@));
        }
        self.extensions = kept;
    }

    /// The id registered for `name`, if any.  Names may repeat in the
    /// table; the id given is one that stands for `name`.
    pub fn get_extension_id(&self, name: &str) -> (r: Option<u8>)
        requires
            self.wf(),
        ensures
            r is None <==> !exists|k: u8| #[trigger] self.table().contains_key(k) && self.table()[k] == name@,
            r matches Some(k) ==> self.table().contains_key(k) && self.table()[k] == name@,
    {
        let target = name.to_owned();
        proof {
            lemma_table(self.extensions@);
        }
        let mut i: usize = 0;
        while i < self.extensions.len()
            invariant
                0 <= i <= self.extensions@.len(),
                target@ == name@,
                self.wf(),
                forall|j: int| 0 <= j < i ==> #[trigger] self.extensions@[j].name@ != name@,
            decreases self.extensions@.len() - i,
        {
            if self.extensions[i].name == target {
                proof {
                    lemma_table(self.extensions@);
                    assert(self.extensions@[i as int].name@ == name@);
                    assert(extension_table(self.extensions@)[self.extensions@[i as int].id]
                        == self.extensions@[i as int].name@);
                    assert(extension_table(self.extensions@).contains_key(self.extensions@[i as int].id));
                    assert(self.table().contains_key(self.extensions@[i as int].id)
                        && self.table()[self.extensions@[i as int].id] == name@);
                }
                return Some(self.extensions[i].id);
            }
            i = i + 1;
        }
        proof {
            let t = self.table();
            assert forall|k: u8| #[trigger] t.contains_key(k) implies t[k] != name@ by {
                let j = choose|j: int| 0 <= j < self.extensions@.len() && self.extensions@[j].id == k;
                assert(t[self.extensions@[j].id] == self.extensions@[j].name@);
            }
        }
        None
    }
}

} // verus!
