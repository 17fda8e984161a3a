//! WebRTC signalling: the session descriptions offered and answered, the
//! ids of connections, and the registry of connections being set up.

use crate::codecs::{hex_encode, hex_text};
use crate::digest::{sha1, sha1_digest};
use crate::error::{network_error, Result};
use crate::text::{str_chars, string_from_chars};
use vstd::prelude::*;
use vstd::string::StringSliceAdditionalSpecFns;

verus! {

/// `out` followed by the characters of `s`.
pub(crate) fn push_text(out: &mut Vec<char>, s: &str)
    ensures
        final(out)@ == old(out)@ + s@,
{
    let t = str_chars(s);
    let ghost start = out@;
    let mut i: usize = 0;
    while i < t.len()
        invariant
            0 <= i <= t@.len(),
            out@ == start + t@.subrange(0, i as int),
        decreases t@.len() - i,
    {
        out.push(t[i]);
        proof {
            assert(out@ =~= start + t@.subrange(0, i + 1));
        }
        i = i + 1;
    }
    proof {
        assert(t@.subrange(0, t@.len() as int) =~= t@);
    }
}

/// The session description for a data channel: `id` names the session
/// and its ICE credentials, `fingerprint` is the certificate fingerprint
/// text, and `setup` is the DTLS role (`actpass` for an offer, `active`
/// for an answer).
pub open spec fn sdp_text(id: Seq<char>, fingerprint: Seq<char>, setup: Seq<char>) -> Seq<char> {
    "v=0\r\no=- "@ + id + " 2 IN IP4 127.0.0.1\r\ns=-\r\nt=0 0\r\na=group:BUNDLE 0\r\na=msid-semantic: WMS\r\nm=application 9 UDP/DTLS/SCTP webrtc-datachannel\r\nc=IN IP4 0.0.0.0\r\na=ice-ufrag:"@
        + id + "\r\na=ice-pwd:"@ + id + "\r\na=fingerprint:sha-256 "@ + fingerprint + "\r\na=setup:"@ + setup
        + "\r\na=mid:0\r\na=sctp-port:5000\r\na=max-message-size:262144\r\n"@
}

/// The first `n` bytes of an id.
fn first_bytes(id: &[u8; 20], n: usize) -> (r: Vec<u8>)
    requires
        n <= 20,
    ensures
        r@ == id@.subrange(0, n as int),
{
    let mut v: Vec<u8> = Vec::new();
    let mut i: usize = 0;
    while i < n
        invariant
            0 <= i <= n <= 20,
            id@.len() == 20,
            v@ == id@.subrange(0, i as int),
        decreases n - i,
    {
        v.push(id[i]);
        proof {
            assert(v@ =~= id@.subrange(0, i + 1));
        }
        i = i + 1;
    }
    v
}

/// A session description with the given id, fingerprint and role.
fn sdp(connection_id: &str, info_hash: &[u8; 20], setup: &str) -> (r: String)
    ensures
        r@ == sdp_text(connection_id@, hex_text(info_hash@.subrange(0, 16)), setup@),
{
    let fingerprint = hex_encode(first_bytes(info_hash, 16).as_slice());
    let mut out: Vec<char> = Vec::new();
    push_text(&mut out, "v=0\r\no=- ");
    push_text(&mut out, connection_id);
    push_text(&mut out, " 2 IN IP4 127.0.0.1\r\ns=-\r\nt=0 0\r\na=group:BUNDLE 0\r\na=msid-semantic: WMS\r\nm=application 9 UDP/DTLS/SCTP webrtc-datachannel\r\nc=IN IP4 0.0.0.0\r\na=ice-ufrag:");
    push_text(&mut out, connection_id);
    push_text(&mut out, "\r\na=ice-pwd:");
    push_text(&mut out, connection_id);
    push_text(&mut out, "\r\na=fingerprint:sha-256 ");
    push_text(&mut out, fingerprint.as_str());
    push_text(&mut out, "\r\na=setup:");
    push_text(&mut out, setup);
    push_text(&mut out, "\r\na=mid:0\r\na=sctp-port:5000\r\na=max-message-size:262144\r\n");
    string_from_chars(out.as_slice())
}

/// The session description offered for a connection.
pub fn generate_sdp_offer(connection_id: &str, info_hash: [u8; 20]) -> (r: Result<String>)
    ensures
        r matches Ok(s) && s@ == sdp_text(connection_id@, hex_text(info_hash@.subrange(0, 16)), "actpass"@),
{
    Ok(sdp(connection_id, &info_hash, "actpass"))
}

/// The session description answered for a connection.
pub fn generate_sdp_answer(connection_id: &str, info_hash: [u8; 20]) -> (r: Result<String>)
    ensures
        r matches Ok(s) && s@ == sdp_text(connection_id@, hex_text(info_hash@.subrange(0, 16)), "active"@),
{
    Ok(sdp(connection_id, &info_hash, "active"))
}

/// The id of a connection: `webrtc_` and the hexadecimal text of eight
/// bytes.
pub open spec fn connection_id_text(bytes: Seq<u8>) -> Seq<char> {
    "webrtc_"@ + hex_text(bytes.subrange(0, 8))
}

/// The id of a connection that we offer for a torrent: from the first
/// eight bytes of its info hash.
pub fn offer_connection_id(info_hash: [u8; 20]) -> (r: String)
    ensures
        r@ == connection_id_text(info_hash@),
{
    let hex = hex_encode(first_bytes(&info_hash, 8).as_slice());
    let mut out: Vec<char> = Vec::new();
    push_text(&mut out, "webrtc_");
    push_text(&mut out, hex.as_str());
    string_from_chars(out.as_slice())
}

/// The id of a connection offered to us: from the first eight bytes of
/// the SHA-1 digest of the offer's text.
pub fn parse_connection_id_from_offer(offer: &str) -> (r: Result<String>)
    ensures
        r matches Ok(s) && s@ == connection_id_text(sha1_digest(offer.spec_bytes())),
{
    let digest = sha1(offer.as_bytes());
    let hex = hex_encode(first_bytes(&digest, 8).as_slice());
    let mut out: Vec<char> = Vec::new();
    push_text(&mut out, "webrtc_");
    push_text(&mut out, hex.as_str());
    Ok(string_from_chars(out.as_slice()))
}

/// A connection being set up.
pub struct WebRtcConnection {
    pub peer_id: String,
    pub connection_id: String,
    pub offer: Option<String>,
    pub answer: Option<String>,
    pub ice_candidates: Vec<String>,
    pub connected: bool,
    pub destroyed: bool,
}

impl WebRtcConnection {
    /// Whether the connection carries the protocol.
    pub fn is_connected(&self) -> (r: bool)
        ensures
            r == self.connected,
    {
        self.connected
    }

    /// The peer at the other end.
    pub fn peer_id(&self) -> (r: &str)
        ensures
            r@ == self.peer_id@,
    {
        self.peer_id.as_str()
    }

    /// The connection's id.
    pub fn connection_id(&self) -> (r: &str)
        ensures
            r@ == self.connection_id@,
    {
        self.connection_id.as_str()
    }
}

/// The connections being set up, by id.
pub struct WebRtcManager {
    connections: Vec<WebRtcConnection>,
    destroyed: bool,
}

/// The ids of the connections.
pub open spec fn ids_of(s: Seq<WebRtcConnection>) -> Seq<Seq<char>> {
    Seq::new(s.len(), |i: int| s[i].connection_id@)
}

/// Whether two strings hold the same characters.
fn same_text(a: &String, b: &str) -> (r: bool)
    ensures
        r == (a@ == b@),
{
    let x = str_chars(a.as_str());
    let y = str_chars(b);
    if x.len() != y.len() {
        return false;
    }
    let mut i: usize = 0;
    while i < x.len()
        invariant
            0 <= i <= x@.len(),
            x@.len() == y@.len(),
            x@ == a@,
            y@ == b@,
            forall|j: int| 0 <= j < i ==> x@[j] == y@[j],
        decreases x@.len() - i,
    {
        if x[i] != y[i] {
            proof {
                assert(x@[i as int] != y@[i as int]);
                assert(x@ != y@);
            }
            return false;
        }
        i = i + 1;
    }
    proof {
        assert(x@ =~= y@);
    }
    true
}

impl WebRtcManager {
    /// The ids of the connections being set up, each once.
    pub closed spec fn ids_view(&self) -> Set<Seq<char>> {
        ids_of(self.connections@).to_set()
    }

    /// The peer of each connection, by id.
    pub closed spec fn peers_view(&self) -> Map<Seq<char>, Seq<char>> {
        Map::new(
            |id: Seq<char>| ids_of(self.connections@).contains(id),
            |id: Seq<char>| self.connections@[ids_of(self.connections@).index_of(id)].peer_id@,
        )
    }

    /// Whether the manager was destroyed.
    pub closed spec fn destroyed_view(&self) -> bool {
        self.destroyed
    }

    /// No id occurs twice.
    pub closed spec fn wf(&self) -> bool {
        forall|i: int, j: int| 0 <= i < j < self.connections@.len() ==> self.connections@[i].connection_id@ != self.connections@[j].connection_id@
    }

    /// A manager with no connections.
    pub fn new() -> (r: WebRtcManager)
        ensures
            r.wf(),
            !r.destroyed_view(),
            r.ids_view() == Set::<Seq<char>>::empty(),
    {
        let r = WebRtcManager { connections: Vec::new(), destroyed: false };
        proof {
            assert(ids_of(r.connections@).to_set() =~= Set::<Seq<char>>::empty());
        }
        r
    }

    /// Where the connection with id `id` is, if any.
    fn find(&self, id: &str) -> (r: Option<usize>)
        ensures
            match r {
                Some(k) => k < self.connections@.len() && self.connections@[k as int].connection_id@ == id@,
                None => !ids_of(self.connections@).contains(id@),
            },
    {
        let mut i: usize = 0;
        while i < self.connections.len()
            invariant
                0 <= i <= self.connections@.len(),
                forall|j: int| 0 <= j < i ==> self.connections@[j].connection_id@ != id@,
            decreases self.connections@.len() - i,
        {
            if same_text(&self.connections[i].connection_id, id) {
                return Some(i);
            }
            i = i + 1;
        }
        proof {
            if ids_of(self.connections@).contains(id@) {
                let j = choose|j: int| 0 <= j < ids_of(self.connections@).len() && ids_of(self.connections@)[j] == id@;
                assert(self.connections@[j].connection_id@ == id@);
            }
        }
        None
    }

    /// Records a connection, replacing one with the same id.
    fn register(&mut self, c: WebRtcConnection)
        requires
            old(self).wf(),
        ensures
            final(self).wf(),
            final(self).destroyed_view() == old(self).destroyed_view(),
            final(self).ids_view() == old(self).ids_view().insert(c.connection_id@),
    {
        match self.find(c.connection_id.as_str()) {
            Some(k) => {
                let ghost before = self.connections@;
                self.connections.set(k, c);
                proof {
                    assert(ids_of(self.connections@) =~= ids_of(before));
                    assert(ids_of(before)[k as int] == c.connection_id@);
                    assert(ids_of(before).to_set().insert(c.connection_id@) =~= ids_of(before).to_set());
                }
            },
            None => {
                let ghost before = self.connections@;
                self.connections.push(c);
                proof {
                    assert(ids_of(self.connections@) =~= ids_of(before).push(c.connection_id@));
                    ids_of(before).lemma_push_to_set_commute(c.connection_id@);
                    assert forall|i: int, j: int| 0 <= i < j < self.connections@.len() implies self.connections@[i].connection_id@
                        != self.connections@[j].connection_id@ by {
                        if j == self.connections@.len() - 1 {
                            assert(ids_of(before)[i] == before[i].connection_id@);
                        }
                    }
                }
            },
        }
    }

    /// Offers a connection to `peer_id` for a torrent: records it under the
    /// id made from the info hash and returns the offer. Fails once
    /// destroyed.
    pub fn create_offer(&mut self, peer_id: &str, info_hash: [u8; 20]) -> (r: Result<String>)
        requires
            old(self).wf(),
        ensures
            final(self).wf(),
            final(self).destroyed_view() == old(self).destroyed_view(),
            old(self).destroyed_view() ==> (r matches Err(e) && e is Network && final(self).ids_view() == old(self).ids_view()),
            !old(self).destroyed_view() ==> ({
                let id = connection_id_text(info_hash@);
                &&& r matches Ok(s) && s@ == sdp_text(id, hex_text(info_hash@.subrange(0, 16)), "actpass"@)
                &&& final(self).ids_view() == old(self).ids_view().insert(id)
            }),
    {
        if self.destroyed {
            return Err(network_error("WebRTC manager destroyed"));
        }
        let connection_id = offer_connection_id(info_hash);
        let c = WebRtcConnection {
            peer_id: String::from_str(peer_id),
            connection_id: connection_id.clone(),
            offer: None,
            answer: None,
            ice_candidates: Vec::new(),
            connected: false,
            destroyed: false,
        };
        self.register(c);
        generate_sdp_offer(connection_id.as_str(), info_hash)
    }

    /// Answers an offer from `peer_id`: records the connection under the id
    /// made from the offer and returns the answer. Fails once destroyed.
    pub fn handle_offer(&mut self, offer: &str, peer_id: &str, info_hash: [u8; 20]) -> (r: Result<String>)
        requires
            old(self).wf(),
        ensures
            final(self).wf(),
            final(self).destroyed_view() == old(self).destroyed_view(),
            old(self).destroyed_view() ==> (r matches Err(e) && e is Network && final(self).ids_view() == old(self).ids_view()),
            !old(self).destroyed_view() ==> ({
                let id = connection_id_text(sha1_digest(offer.spec_bytes()));
                &&& r matches Ok(s) && s@ == sdp_text(id, hex_text(info_hash@.subrange(0, 16)), "active"@)
                &&& final(self).ids_view() == old(self).ids_view().insert(id)
            }),
    {
        if self.destroyed {
            return Err(network_error("WebRTC manager destroyed"));
        }
        let connection_id = match parse_connection_id_from_offer(offer) {
            Ok(id) => id,
            Err(e) => {
                return Err(e);
            },
        };
        let c = WebRtcConnection {
            peer_id: String::from_str(peer_id),
            connection_id: connection_id.clone(),
            offer: Some(String::from_str(offer)),
            answer: None,
            ice_candidates: Vec::new(),
            connected: false,
            destroyed: false,
        };
        self.register(c);
        generate_sdp_answer(connection_id.as_str(), info_hash)
    }

    /// Accepts the answer for a connection we offered. Fails once destroyed
    /// and for an unknown id.
    pub fn handle_answer(&self, answer: &str, connection_id: &str) -> (r: Result<()>)
        ensures
            self.destroyed_view() ==> (r matches Err(e) && e is Network),
            !self.destroyed_view() && self.ids_view().contains(connection_id@) ==> r is Ok,
            !self.destroyed_view() && !self.ids_view().contains(connection_id@) ==> (r matches Err(e) && e is Network),
    {
        self.known(connection_id)
    }

    /// Accepts an ICE candidate for a connection. Fails once destroyed and
    /// for an unknown id.
    pub fn add_ice_candidate(&self, candidate: &str, connection_id: &str) -> (r: Result<()>)
        ensures
            self.destroyed_view() ==> (r matches Err(e) && e is Network),
            !self.destroyed_view() && self.ids_view().contains(connection_id@) ==> r is Ok,
            !self.destroyed_view() && !self.ids_view().contains(connection_id@) ==> (r matches Err(e) && e is Network),
    {
        self.known(connection_id)
    }

    /// `Ok` for a known connection of a live manager.
    fn known(&self, connection_id: &str) -> (r: Result<()>)
        ensures
            self.destroyed_view() ==> (r matches Err(e) && e is Network),
            !self.destroyed_view() && self.ids_view().contains(connection_id@) ==> r is Ok,
            !self.destroyed_view() && !self.ids_view().contains(connection_id@) ==> (r matches Err(e) && e is Network),
    {
        if self.destroyed {
            return Err(network_error("WebRTC manager destroyed"));
        }
        match self.find(connection_id) {
            Some(k) => {
                proof {
                    assert(ids_of(self.connections@)[k as int] == connection_id@);
                    assert(ids_of(self.connections@).contains(connection_id@));
                }
                Ok(())
            },
            None => Err(network_error("Connection not found")),
        }
    }

    /// The peer of a connection about to carry the protocol, which is then
    /// marked connected. Fails once destroyed and for an unknown id.
    pub fn mark_connected(&mut self, connection_id: &str) -> (r: Result<String>)
        requires
            old(self).wf(),
        ensures
            final(self).wf(),
            final(self).ids_view() == old(self).ids_view(),
            final(self).destroyed_view() == old(self).destroyed_view(),
            old(self).destroyed_view() ==> (r matches Err(e) && e is Network),
            !old(self).destroyed_view() && !old(self).ids_view().contains(connection_id@) ==> (r matches Err(e) && e is Network),
            !old(self).destroyed_view() && old(self).ids_view().contains(connection_id@) ==> (r matches Ok(p)
                && p@ == old(self).peers_view()[connection_id@]),
    {
        if self.destroyed {
            return Err(network_error("WebRTC manager destroyed"));
        }
        match self.find(connection_id) {
            Some(k) => {
                let ghost before = self.connections@;
                let peer = self.connections[k].peer_id.clone();
                let mut c = self.connections.remove(k);
                c.connected = true;
                self.connections.insert(k, c);
                proof {
                    assert(ids_of(self.connections@) =~= ids_of(before));
                    assert(ids_of(before)[k as int] == connection_id@);
                    assert forall|j: int| 0 <= j < ids_of(before).len() && ids_of(before)[j] == connection_id@ implies j == k by {
                        if j != k {
                            assert(before[j].connection_id@ == before[k as int].connection_id@);
                        }
                    }
                    assert(ids_of(before).index_of(connection_id@) == k);
                }
                Ok(peer)
            },
            None => Err(network_error("Connection not found")),
        }
    }

    /// Marks the manager and every connection destroyed and disconnected;
    /// destroying twice is harmless.
    pub fn destroy(&mut self) -> (r: Result<()>)
        requires
            old(self).wf(),
        ensures
            r is Ok,
            final(self).wf(),
            final(self).destroyed_view(),
            final(self).ids_view() == old(self).ids_view(),
    {
        if self.destroyed {
            return Ok(());
        }
        self.destroyed = true;
        let mut i: usize = 0;
        while i < self.connections.len()
            invariant
                0 <= i <= self.connections@.len(),
                ids_of(self.connections@) == ids_of(old(self).connections@),
                self.destroyed,
            decreases self.connections@.len() - i,
        {
            let ghost before = self.connections@;
            let mut c = self.connections.remove(i);
            c.destroyed = true;
            c.connected = false;
            self.connections.insert(i, c);
            proof {
                assert(ids_of(self.connections@) =~= ids_of(before));
            }
            i = i + 1;
        }
        proof {
            assert forall|a: int, b: int| 0 <= a < b < self.connections@.len() implies self.connections@[a].connection_id@
                != self.connections@[b].connection_id@ by {
                assert(ids_of(self.connections@)[a] == ids_of(old(self).connections@)[a]);
                assert(ids_of(self.connections@)[b] == ids_of(old(self).connections@)[b]);
            }
        }
        Ok(())
    }
}

} // verus!
