//! The client's settings, how torrents are named when added, and the
//! client's peer id.

use crate::buffer::{bytes_contents, bytes_from_vec};
use crate::codecs::{hex_decode, hex_decoded, hex_encode, hex_text};
use crate::connection::same_bytes;
use crate::error::{Result, WebTorrentError};
use crate::bencode_parser::{parse_at, Parsed};
use crate::magnet::{has_prefix, MagnetUri};
use crate::torrent::{files_fit, metadata_matches, parse_torrent_file, torrent_valid, TorrentMetadata};
use crate::text::{str_chars, string_from_chars};
use crate::webrtc::push_text;
use bytes::Bytes;

use vstd::prelude::*;
use vstd::utf8::encode_utf8;

verus! {

broadcast use vstd::array::axiom_array_ext_equal;

/// Trackers to announce to besides a torrent's own.
pub struct TrackerConfig {
    pub announce: Vec<String>,
}

impl TrackerConfig {
    /// A copy with the same trackers.
    pub fn duplicate(&self) -> (r: TrackerConfig)
        ensures
            r.announce@ == self.announce@,
    {
        let mut announce: Vec<String> = Vec::new();
        let mut i: usize = 0;
        while i < self.announce.len()
            invariant
                0 <= i <= self.announce@.len(),
                announce@ == self.announce@.subrange(0, i as int),
            decreases self.announce@.len() - i,
        {
            announce.push(self.announce[i].clone());
            proof {
                assert(announce@ =~= self.announce@.subrange(0, i + 1));
            }
            i = i + 1;
        }
        proof {
            assert(self.announce@.subrange(0, self.announce@.len() as int) =~= self.announce@);
        }
        TrackerConfig { announce }
    }
}

/// The client's settings.
pub struct WebTorrentOptions {
    pub peer_id: Option<[u8; 20]>,
    pub node_id: Option<[u8; 20]>,
    pub torrent_port: u16,
    pub dht_port: u16,
    pub max_conns: usize,
    pub utp: bool,
    pub nat_upnp: bool,
    pub nat_pmp: bool,
    pub lsd: bool,
    pub ut_pex: bool,
    pub seed_outgoing_connections: bool,
    pub download_limit: Option<u64>,
    pub upload_limit: Option<u64>,
    pub blocklist: Option<String>,
    pub tracker: Option<TrackerConfig>,
    pub web_seeds: bool,
}

impl Default for WebTorrentOptions {
    /// Ports chosen by the system, 55 connections, every transport and
    /// discovery on, no rate limits, no blocklist, no extra trackers.
    fn default() -> (r: WebTorrentOptions)
        ensures
            r.peer_id is None,
            r.node_id is None,
            r.torrent_port == 0,
            r.dht_port == 0,
            r.max_conns == 55,
            r.utp && r.nat_upnp && r.nat_pmp && r.lsd && r.ut_pex && r.seed_outgoing_connections && r.web_seeds,
            r.download_limit is None,
            r.upload_limit is None,
            r.blocklist is None,
            r.tracker is None,
    {
        WebTorrentOptions {
            peer_id: None,
            node_id: None,
            torrent_port: 0,
            dht_port: 0,
            max_conns: 55,
            utp: true,
            nat_upnp: true,
            nat_pmp: true,
            lsd: true,
            ut_pex: true,
            seed_outgoing_connections: true,
            download_limit: None,
            upload_limit: None,
            blocklist: None,
            tracker: None,
            web_seeds: true,
        }
    }
}

/// How a torrent to add is named.
#[derive(Debug)]
pub enum TorrentId {
    InfoHash([u8; 20]),
    MagnetUri(String),
    TorrentFile(Bytes),
    Url(String),
}

/// The text `magnet:`.
pub open spec fn magnet_scheme() -> Seq<char> {
    seq!['m', 'a', 'g', 'n', 'e', 't', ':']
}

/// The text `http://`.
pub open spec fn http_scheme() -> Seq<char> {
    seq!['h', 't', 't', 'p', ':', '/', '/']
}

/// The text `https://`.
pub open spec fn https_scheme() -> Seq<char> {
    seq!['h', 't', 't', 'p', 's', ':', '/', '/']
}

/// The twenty-byte array holding `b`.
pub open spec fn hash_array(b: Seq<u8>) -> [u8; 20] {
    choose|a: [u8; 20]| a@ == b
}

/// The id a text names: a magnet link by its scheme, a URL by `http://` or
/// `https://`, an info hash when it is forty hexadecimal digits (twenty
/// bytes), and otherwise a magnet link.
pub open spec fn torrent_id_of(s: String) -> TorrentId {
    if has_prefix(s@, magnet_scheme()) {
        TorrentId::MagnetUri(s)
    } else if has_prefix(s@, http_scheme()) || has_prefix(s@, https_scheme()) {
        TorrentId::Url(s)
    } else {
        match hex_decoded(encode_utf8(s@)) {
            Some(b) => if b.len() == 20 {
                TorrentId::InfoHash(hash_array(b))
            } else {
                TorrentId::MagnetUri(s)
            },
            None => TorrentId::MagnetUri(s),
        }
    }
}

/// Whether the text of `s` starts with the characters `p`.
fn text_starts_with(s: &Vec<char>, p: &Vec<char>) -> (r: bool)
    ensures
        r == has_prefix(s@, p@),
{
    if p.len() > s.len() {
        return false;
    }
    let mut i: usize = 0;
    while i < p.len()
        invariant
            0 <= i <= p@.len(),
            p@.len() <= s@.len(),
            forall|j: int| 0 <= j < i ==> s@[j] == p@[j],
        decreases p@.len() - i,
    {
        if s[i] != p[i] {
            return false;
        }
        i = i + 1;
    }
    proof {
        assert(s@.subrange(0, p@.len() as int) =~= p@);
    }
    true
}

impl TorrentId {
    /// The id a text names.
    pub fn from_string(s: String) -> (r: TorrentId)
        ensures
            r == torrent_id_of(s),
    {
        let chars = str_chars(s.as_str());
        let magnet: Vec<char> = vec!['m', 'a', 'g', 'n', 'e', 't', ':'];
        let http: Vec<char> = vec!['h', 't', 't', 'p', ':', '/', '/'];
        let https: Vec<char> = vec!['h', 't', 't', 'p', 's', ':', '/', '/'];
        proof {
            assert(magnet@ =~= magnet_scheme());
            assert(http@ =~= http_scheme());
            assert(https@ =~= https_scheme());
        }
        if text_starts_with(&chars, &magnet) {
            return TorrentId::MagnetUri(s);
        }
        if text_starts_with(&chars, &http) || text_starts_with(&chars, &https) {
            return TorrentId::Url(s);
        }
        match hex_decode(s.as_str()) {
            Some(bytes) => {
                if bytes.len() == 20 {
                    let mut hash: [u8; 20] = [0u8; 20];
                    let mut j: usize = 0;
                    while j < 20
                        invariant
                            0 <= j <= 20,
                            bytes@.len() == 20,
                            forall|t: int| 0 <= t < j ==> hash@[t] == bytes@[t],
                        decreases 20 - j,
                    {
                        hash[j] = bytes[j];
                        j = j + 1;
                    }
                    proof {
                        assert(hash@ =~= bytes@);
                        let c = hash_array(bytes@);
                        assert(c@ == bytes@);
                        assert(c@ =~= hash@);
                        assert(c == hash);
                    }
                    return TorrentId::InfoHash(hash);
                }
                TorrentId::MagnetUri(s)
            },
            None => TorrentId::MagnetUri(s),
        }
    }

    /// A torrent named by its info hash.
    pub fn from_info_hash(hash: [u8; 20]) -> (r: TorrentId)
        ensures
            r == TorrentId::InfoHash(hash),
    {
        TorrentId::InfoHash(hash)
    }

    /// A torrent given by the bytes of its torrent file.
    pub fn from_bytes(bytes: Bytes) -> (r: TorrentId)
        ensures
            r matches TorrentId::TorrentFile(b) && bytes_contents(b) == bytes_contents(bytes),
    {
        TorrentId::TorrentFile(bytes)
    }

    /// A torrent given by the bytes of its torrent file, as a vector.
    pub fn from_vec(bytes: Vec<u8>) -> (r: TorrentId)
        ensures
            r matches TorrentId::TorrentFile(b) && bytes_contents(b) == bytes@,
    {
        TorrentId::TorrentFile(bytes_from_vec(bytes))
    }
}

impl From<String> for TorrentId {
    /// The id a text names, as `from_string` reads it.
    fn from(s: String) -> (r: TorrentId) {
        TorrentId::from_string(s)
    }
}

impl vstd::std_specs::convert::FromSpecImpl<String> for TorrentId {
    open spec fn obeys_from_spec() -> bool {
        true
    }

    open spec fn from_spec(s: String) -> TorrentId {
        torrent_id_of(s)
    }
}

impl From<[u8; 20]> for TorrentId {
    /// A torrent named by its info hash.
    fn from(hash: [u8; 20]) -> (r: TorrentId) {
        TorrentId::InfoHash(hash)
    }
}

impl vstd::std_specs::convert::FromSpecImpl<[u8; 20]> for TorrentId {
    open spec fn obeys_from_spec() -> bool {
        true
    }

    open spec fn from_spec(hash: [u8; 20]) -> TorrentId {
        TorrentId::InfoHash(hash)
    }
}

impl From<Bytes> for TorrentId {
    /// A torrent given by the bytes of its torrent file.
    fn from(bytes: Bytes) -> (r: TorrentId) {
        TorrentId::TorrentFile(bytes)
    }
}

impl vstd::std_specs::convert::FromSpecImpl<Bytes> for TorrentId {
    open spec fn obeys_from_spec() -> bool {
        true
    }

    open spec fn from_spec(bytes: Bytes) -> TorrentId {
        TorrentId::TorrentFile(bytes)
    }
}

/// Where a torrent's metadata comes from.
pub enum MetadataSource {
    /// Read from the torrent file given.
    Ready(TorrentMetadata),
    /// To be fetched from this URL, then read.
    Fetch(String),
}

/// The metadata a torrent id gives: a torrent file is read; a URL is to be
/// fetched; an info hash or a magnet link alone is refused as an invalid
/// torrent (their metadata would have to come from peers).
pub fn parse_torrent_id(torrent_id: TorrentId) -> (r: Result<MetadataSource>)
    requires
        torrent_id matches TorrentId::TorrentFile(b) ==> parse_at(bytes_contents(b), 0) != Parsed::Overflow
            && (parse_at(bytes_contents(b), 0) matches Parsed::Value(v, _) ==> files_fit(v)),
    ensures
        match torrent_id {
            TorrentId::InfoHash(_) => r matches Err(e) && e is InvalidTorrent,
            TorrentId::MagnetUri(_) => r matches Err(e) && e is InvalidTorrent,
            TorrentId::TorrentFile(b) => match parse_at(bytes_contents(b), 0) {
                Parsed::Value(v, _) => if torrent_valid(v) {
                    r matches Ok(MetadataSource::Ready(m)) && metadata_matches(v, bytes_contents(b), m)
                } else {
                    r matches Err(e) && e is InvalidTorrent
                },
                _ => r matches Err(e) && e is Bencode,
            },
            TorrentId::Url(u) => r matches Ok(MetadataSource::Fetch(v)) && v@ == u@,
        },
{
    match torrent_id {
        TorrentId::InfoHash(_) => Err(WebTorrentError::InvalidTorrent(String::from_str("Info hash only - metadata required"))),
        TorrentId::MagnetUri(uri) => {
            match MagnetUri::parse(uri.as_str()) {
                Ok(m) => {
                    let mut text: Vec<char> = Vec::new();
                    push_text(&mut text, "Magnet URI support: metadata must be fetched from peers for info hash ");
                    let h = hex_encode(&m.info_hash);
                    push_text(&mut text, h.as_str());
                    Err(WebTorrentError::InvalidTorrent(string_from_chars(text.as_slice())))
                },
                Err(e) => Err(e),
            }
        },
        TorrentId::TorrentFile(data) => match parse_torrent_file(data) {
            Ok(m) => Ok(MetadataSource::Ready(m)),
            Err(e) => Err(e),
        },
        TorrentId::Url(url) => Ok(MetadataSource::Fetch(url)),
    }
}

/// The start of our peer id: `-WW`, the version as four digits (major
/// times 100 plus minor: `0001` for version 0.1), and `-`.
pub open spec fn peer_id_prefix() -> Seq<u8> {
    seq![45u8, 87u8, 87u8, 48u8, 48u8, 48u8, 49u8, 45u8]
}

/// Our peer id from twelve random bytes: the prefix, then those bytes.
pub fn make_peer_id(random: [u8; 12]) -> (r: [u8; 20])
    ensures
        r@ == peer_id_prefix() + random@,
{
    let mut id: [u8; 20] = [0u8; 20];
    id[0] = 45u8;
    id[1] = 87u8;
    id[2] = 87u8;
    id[3] = 48u8;
    id[4] = 48u8;
    id[5] = 48u8;
    id[6] = 49u8;
    id[7] = 45u8;
    let mut j: usize = 0;
    while j < 12
        invariant
            0 <= j <= 12,
            id@.subrange(0, 8) == peer_id_prefix(),
            forall|t: int| 0 <= t < j ==> id@[8 + t] == random@[t],
        decreases 12 - j,
    {
        proof {
            assert(id@.subrange(0, 8) =~= peer_id_prefix());
        }
        let ghost before = id@;
        id[8 + j] = random[j];
        proof {
            assert(id@.subrange(0, 8) =~= before.subrange(0, 8));
        }
        j = j + 1;
    }
    proof {
        assert(id@ =~= peer_id_prefix() + random@);
    }
    id
}

/// The tracker a seeded torrent announces to when none is given.
pub open spec fn default_tracker() -> Seq<char> {
    "http://dig-relay-prod.eba-2cmanxbe.us-east-1.elasticbeanstalk.com:8000/announce"@
}

/// The trackers of a torrent to seed: those given, else the default one.
pub fn seed_announce(announce: Option<Vec<String>>) -> (r: Vec<String>)
    ensures
        match announce {
            Some(v) => r@ == v@,
            None => r@.len() == 1 && r@[0]@ == default_tracker(),
        },
{
    match announce {
        Some(v) => v,
        None => {
            let mut v: Vec<String> = Vec::new();
            v.push(String::from_str("http://dig-relay-prod.eba-2cmanxbe.us-east-1.elasticbeanstalk.com:8000/announce"));
            v
        },
    }
}

/// The info hashes of the torrents a client holds, each once.
pub struct TorrentRegistry {
    hashes: Vec<[u8; 20]>,
}

/// Info hashes as plain values.
pub open spec fn hashes_view(s: Seq<[u8; 20]>) -> Seq<Seq<u8>> {
    Seq::new(s.len(), |i: int| s[i]@)
}

impl TorrentRegistry {
    /// The info hashes, in the order the torrents were added.
    pub closed spec fn view(&self) -> Seq<Seq<u8>> {
        hashes_view(self.hashes@)
    }

    /// No info hash occurs twice.
    pub closed spec fn wf(&self) -> bool {
        forall|i: int, j: int| 0 <= i < j < self.hashes@.len() ==> self.hashes@[i]@ != self.hashes@[j]@
    }

    /// No torrents.
    pub fn new() -> (r: TorrentRegistry)
        ensures
            r.wf(),
            r.view() == Seq::<Seq<u8>>::empty(),
    {
        let r = TorrentRegistry { hashes: Vec::new() };
        proof {
            assert(r.view() =~= Seq::<Seq<u8>>::empty());
        }
        r
    }

    /// Where the torrent with `info_hash` is, if held.
    fn position(&self, info_hash: &[u8; 20]) -> (r: Option<usize>)
        ensures
            match r {
                Some(k) => k < self.view().len() && self.view()[k as int] == info_hash@,
                None => !self.view().contains(info_hash@),
            },
    {
        let mut i: usize = 0;
        while i < self.hashes.len()
            invariant
                0 <= i <= self.hashes@.len(),
                forall|j: int| 0 <= j < i ==> self.hashes@[j]@ != info_hash@,
            decreases self.hashes@.len() - i,
        {
            if same_bytes(&self.hashes[i], info_hash) {
                return Some(i);
            }
            i = i + 1;
        }
        proof {
            if self.view().contains(info_hash@) {
                let j = choose|j: int| 0 <= j < self.view().len() && self.view()[j] == info_hash@;
                assert(self.hashes@[j]@ == info_hash@);
            }
        }
        None
    }

    /// Whether a torrent with `info_hash` is held.
    pub fn contains(&self, info_hash: &[u8; 20]) -> (r: bool)
        ensures
            r == self.view().contains(info_hash@),
    {
        match self.position(info_hash) {
            Some(k) => {
                proof {
                    assert(self.view()[k as int] == info_hash@);
                }
                true
            },
            None => false,
        }
    }

    /// Adds a torrent; one with the same info hash is refused as a
    /// duplicate, named by its hexadecimal info hash.
    pub fn add(&mut self, info_hash: [u8; 20]) -> (r: Result<()>)
        requires
            old(self).wf(),
        ensures
            final(self).wf(),
            old(self).view().contains(info_hash@) ==> (r matches Err(WebTorrentError::DuplicateTorrent(h)) && h@ == hex_text(
                info_hash@,
            ) && final(self).view() == old(self).view()),
            !old(self).view().contains(info_hash@) ==> (r is Ok && final(self).view() == old(self).view().push(info_hash@)),
    {
        if self.contains(&info_hash) {
            return Err(WebTorrentError::DuplicateTorrent(hex_encode(&info_hash)));
        }
        let ghost before = self.hashes@;
        self.hashes.push(info_hash);
        proof {
            assert(self.view() =~= hashes_view(before).push(info_hash@));
            assert forall|i: int, j: int| 0 <= i < j < self.hashes@.len() implies self.hashes@[i]@ != self.hashes@[j]@ by {
                if j == self.hashes@.len() - 1 {
                    assert(hashes_view(before)[i] == before[i]@);
                }
            }
        }
        Ok(())
    }

    /// Takes the torrent with `info_hash` out; says whether it was held.
    pub fn remove(&mut self, info_hash: &[u8; 20]) -> (r: bool)
        requires
            old(self).wf(),
        ensures
            final(self).wf(),
            r == old(self).view().contains(info_hash@),
            r ==> final(self).view() == old(self).view().remove(old(self).view().index_of(info_hash@)),
            !r ==> final(self).view() == old(self).view(),
            !final(self).view().contains(info_hash@),
    {
        match self.position(info_hash) {
            Some(k) => {
                let ghost before = self.hashes@;
                proof {
                    assert(hashes_view(before)[k as int] == info_hash@);
                    assert(hashes_view(before).index_of(info_hash@) == k) by {
                        let a = hashes_view(before).index_of(info_hash@);
                        if a != k {
                            assert(before[a]@ == before[k as int]@);
                        }
                    }
                }
                self.hashes.remove(k);
                proof {
                    assert(self.view() =~= hashes_view(before).remove(k as int));
                    assert forall|i: int, j: int| 0 <= i < j < self.hashes@.len() implies self.hashes@[i]@ != self.hashes@[j]@ by {
                        let si = if i < k { i } else { i + 1 };
                        let sj = if j < k { j } else { j + 1 };
                        assert(self.hashes@[i] == before[si]);
                        assert(self.hashes@[j] == before[sj]);
                    }
                    if self.view().contains(info_hash@) {
                        let j = choose|j: int| 0 <= j < self.view().len() && self.view()[j] == info_hash@;
                        let sj = if j < k { j } else { j + 1 };
                        assert(before[sj]@ == before[k as int]@);
                    }
                }
                true
            },
            None => false,
        }
    }

    /// Number of torrents.
    pub fn len(&self) -> (r: usize)
        ensures
            r == self.view().len(),
    {
        self.hashes.len()
    }
}

/// The recent entries of a speed window: those later than the cutoff.
pub open spec fn recent(entries: Seq<(u64, u64)>, cutoff: u64) -> Seq<(u64, u64)> {
    entries.filter(|e: (u64, u64)| e.0 > cutoff)
}

/// The start of the window ending at `now`: `now - window`, or `now`
/// itself when the clock has not run that long.
pub open spec fn window_cutoff(now: u64, window: u64) -> u64 {
    if now >= window {
        (now - window) as u64
    } else {
        now
    }
}

/// The bytes of the entries.
pub open spec fn total_bytes(entries: Seq<(u64, u64)>) -> nat
    decreases entries.len(),
{
    if entries.len() == 0 {
        0
    } else {
        total_bytes(entries.drop_last()) + entries.last().1 as nat
    }
}

/// The earliest time among the entries.
pub open spec fn oldest(entries: Seq<(u64, u64)>) -> Option<u64>
    decreases entries.len(),
{
    if entries.len() == 0 {
        None
    } else {
        match oldest(entries.drop_last()) {
            Some(t) => Some(if entries.last().0 < t { entries.last().0 } else { t }),
            None => Some(entries.last().0),
        }
    }
}

/// One second in nanoseconds.
pub const NANOS_PER_SECOND: u64 = 1_000_000_000;

/// Bytes moved over a rolling window of time; times are monotonic
/// nanoseconds.
pub struct SpeedTracker {
    entries: Vec<(u64, u64)>,
    window: u64,
}

impl SpeedTracker {
    /// The (time, bytes) entries kept.
    pub closed spec fn entries_view(&self) -> Seq<(u64, u64)> {
        self.entries@
    }

    /// The window's length.
    pub closed spec fn window_view(&self) -> u64 {
        self.window
    }

    /// No entries yet.
    pub fn new(window: u64) -> (r: SpeedTracker)
        ensures
            r.entries_view() == Seq::<(u64, u64)>::empty(),
            r.window_view() == window,
    {
        SpeedTracker { entries: Vec::new(), window }
    }

    /// Records `amount` bytes at time `now`, and forgets the entries that
    /// fell out of the window.
    pub fn add_bytes(&mut self, now: u64, amount: u64)
        ensures
            final(self).window_view() == old(self).window_view(),
            final(self).entries_view() == recent(old(self).entries_view().push((now, amount)), window_cutoff(now, old(self).window_view())),
    {
        self.entries.push((now, amount));
        let cutoff: u64 = if now >= self.window { now - self.window } else { now };
        let ghost all = self.entries@;
        let mut kept: Vec<(u64, u64)> = Vec::new();
        let mut i: usize = 0;
        while i < self.entries.len()
            invariant
                0 <= i <= self.entries@.len(),
                all == self.entries@,
                kept@ == recent(all.subrange(0, i as int), cutoff),
            decreases self.entries@.len() - i,
        {
            proof {
                reveal(Seq::filter);
                assert(all.subrange(0, i + 1).drop_last() =~= all.subrange(0, i as int));
            }
            let e = self.entries[i];
            if e.0 > cutoff {
                kept.push(e);
            }
            i = i + 1;
        }
        proof {
            assert(all.subrange(0, all.len() as int) =~= all);
        }
        self.entries = kept;
    }

    /// What the speed at time `now` is made of: nothing before any entry;
    /// else the bytes within the window and the nanoseconds since the
    /// earliest of them (one second when none is within the window). The
    /// speed is the bytes over that time in seconds.
    pub fn speed_sample(&self, now: u64) -> (r: Option<(u64, u64)>)
        requires
            total_bytes(recent(self.entries_view(), window_cutoff(now, self.window_view()))) <= u64::MAX,
        ensures
            self.entries_view().len() == 0 ==> r is None,
            self.entries_view().len() > 0 ==> ({
                let w = recent(self.entries_view(), window_cutoff(now, self.window_view()));
                r matches Some((total, elapsed)) && total == total_bytes(w) && elapsed == (match oldest(w) {
                    Some(t) => if now >= t { (now - t) as u64 } else { 0 },
                    None => NANOS_PER_SECOND,
                })
            }),
    {
        if self.entries.len() == 0 {
            return None;
        }
        let cutoff: u64 = if now >= self.window { now - self.window } else { now };
        let ghost w = recent(self.entries@, cutoff);
        let mut total: u64 = 0;
        let mut first: Option<u64> = None;
        let mut i: usize = 0;
        while i < self.entries.len()
            invariant
                0 <= i <= self.entries@.len(),
                cutoff == window_cutoff(now, self.window),
                w == recent(self.entries@, cutoff),
                total_bytes(w) <= u64::MAX,
                total == total_bytes(recent(self.entries@.subrange(0, i as int), cutoff)),
                first == oldest(recent(self.entries@.subrange(0, i as int), cutoff)),
            decreases self.entries@.len() - i,
        {
            let ghost pre = self.entries@.subrange(0, i as int);
            proof {
                reveal(Seq::filter);
                assert(self.entries@.subrange(0, i + 1).drop_last() =~= pre);
                lemma_total_prefix(self.entries@, cutoff, i + 1);
            }
            let e = self.entries[i];
            if e.0 > cutoff {
                proof {
                    assert(recent(self.entries@.subrange(0, i + 1), cutoff) == recent(pre, cutoff).push(e));
                    assert(recent(self.entries@.subrange(0, i + 1), cutoff).drop_last() =~= recent(pre, cutoff));
                }
                total = total + e.1;
                first = match first {
                    Some(t) => Some(if e.0 < t { e.0 } else { t }),
                    None => Some(e.0),
                };
            }
            i = i + 1;
        }
        proof {
            assert(self.entries@.subrange(0, self.entries@.len() as int) =~= self.entries@);
        }
        let elapsed = match first {
            Some(t) => if now >= t { now - t } else { 0 },
            None => NANOS_PER_SECOND,
        };
        Some((total, elapsed))
    }
}

/// The bytes within the window of a prefix are no more than those of the
/// whole.
pub proof fn lemma_total_prefix(entries: Seq<(u64, u64)>, cutoff: u64, k: int)
    requires
        0 <= k <= entries.len(),
    ensures
        total_bytes(recent(entries.subrange(0, k), cutoff)) <= total_bytes(recent(entries, cutoff)),
    decreases entries.len(),
{
    reveal(Seq::filter);
    if k < entries.len() {
        assert(entries.drop_last().subrange(0, k) =~= entries.subrange(0, k));
        lemma_total_prefix(entries.drop_last(), cutoff, k);
        if entries.last().0 > cutoff {
            assert(recent(entries, cutoff).drop_last() =~= recent(entries.drop_last(), cutoff));
        }
    } else {
        assert(entries.subrange(0, k) =~= entries);
    }
}

} // verus!
