//! The decisions around peer connections: whether to dial a peer and
//! where, whether to keep a connection once the handshakes are exchanged,
//! and the address a discovery service reports for a peer.

use crate::protocol::Handshake;
use vstd::prelude::*;

verus! {

/// A port that local test setups listen on; a peer announced on it is
/// tried on this machine first.
pub open spec fn is_local_test_port(port: u16) -> bool {
    port == 6881 || port == 6882
}

/// How to dial a peer announced at some address and `port`.
#[derive(Debug, Clone, Copy, PartialEq, Eq, Structural)]
pub enum DialPlan {
    /// The peer is our own listening port: no connection.
    Skip,
    /// Dial 127.0.0.1 on the port first, then the announced address.
    LocalhostFirst,
    /// Dial the announced address.
    Direct,
}

/// How to dial a peer announced on `port`, when we listen on `our_port`
/// (zero when not listening).
pub fn dial_plan(our_port: u16, port: u16) -> (r: DialPlan)
    ensures
        port == our_port ==> r == DialPlan::Skip,
        port != our_port && our_port > 0 && is_local_test_port(port) ==> r == DialPlan::LocalhostFirst,
        port != our_port && !(our_port > 0 && is_local_test_port(port)) ==> r == DialPlan::Direct,
{
    if port == our_port {
        DialPlan::Skip
    } else if our_port > 0 && (port == 6881 || port == 6882) {
        DialPlan::LocalhostFirst
    } else {
        DialPlan::Direct
    }
}

/// What becomes of a connection that we opened, once the peer's
/// handshake is read.
#[derive(Debug, Clone, Copy, PartialEq, Eq, Structural)]
pub enum OutgoingVerdict {
    /// The peer answered for another torrent: a protocol error.
    InfoHashMismatch,
    /// The peer is this very client: closed quietly.
    OwnClient,
    /// The peer is connected already: closed quietly.
    AlreadyConnected,
    /// The connection is kept.
    Accept,
}

/// What becomes of a connection that we opened for `info_hash`, given the
/// peer's handshake, our peer id and whether the peer is known already.
pub fn outgoing_verdict(info_hash: [u8; 20], our_peer_id: [u8; 20], peer: &Handshake, peer_known: bool) -> (r: OutgoingVerdict)
    ensures
        peer.info_hash@ != info_hash@ ==> r == OutgoingVerdict::InfoHashMismatch,
        peer.info_hash@ == info_hash@ && peer.peer_id@ == our_peer_id@ ==> r == OutgoingVerdict::OwnClient,
        peer.info_hash@ == info_hash@ && peer.peer_id@ != our_peer_id@ && peer_known ==> r == OutgoingVerdict::AlreadyConnected,
        peer.info_hash@ == info_hash@ && peer.peer_id@ != our_peer_id@ && !peer_known ==> r == OutgoingVerdict::Accept,
{
    if !same_bytes(&peer.info_hash, &info_hash) {
        return OutgoingVerdict::InfoHashMismatch;
    }
    if same_bytes(&peer.peer_id, &our_peer_id) {
        return OutgoingVerdict::OwnClient;
    }
    if peer_known {
        return OutgoingVerdict::AlreadyConnected;
    }
    OutgoingVerdict::Accept
}

/// What becomes of a connection that a peer opened, once its handshake is
/// read.
#[derive(Debug, Clone, Copy, PartialEq, Eq, Structural)]
pub enum IncomingVerdict {
    /// The peer's address is on the blocklist: closed quietly.
    Blocked,
    /// The peer is this very client: closed quietly.
    OwnClient,
    /// No torrent of ours has the handshake's info hash: closed.
    UnknownTorrent,
    /// The peer is connected already: closed.
    AlreadyConnected,
    /// We answer with our handshake and keep the connection.
    Accept,
}

/// What becomes of a connection that a peer opened: the blocklist is
/// asked first, then whether the peer is ourselves, then whether we have
/// the torrent, then whether the peer is connected already.
pub fn incoming_verdict(our_peer_id: [u8; 20], peer: &Handshake, blocked: bool, torrent_known: bool, peer_known: bool) -> (r: IncomingVerdict)
    ensures
        blocked ==> r == IncomingVerdict::Blocked,
        !blocked && peer.peer_id@ == our_peer_id@ ==> r == IncomingVerdict::OwnClient,
        !blocked && peer.peer_id@ != our_peer_id@ && !torrent_known ==> r == IncomingVerdict::UnknownTorrent,
        !blocked && peer.peer_id@ != our_peer_id@ && torrent_known && peer_known ==> r == IncomingVerdict::AlreadyConnected,
        !blocked && peer.peer_id@ != our_peer_id@ && torrent_known && !peer_known ==> r == IncomingVerdict::Accept,
{
    if blocked {
        return IncomingVerdict::Blocked;
    }
    if same_bytes(&peer.peer_id, &our_peer_id) {
        return IncomingVerdict::OwnClient;
    }
    if !torrent_known {
        return IncomingVerdict::UnknownTorrent;
    }
    if peer_known {
        return IncomingVerdict::AlreadyConnected;
    }
    IncomingVerdict::Accept
}

/// Whether two twenty-byte ids are equal.
pub fn same_bytes(a: &[u8; 20], b: &[u8; 20]) -> (r: bool)
    ensures
        r == (a@ == b@),
{
    let mut i: usize = 0;
    while i < 20
        invariant
            0 <= i <= 20,
            a@.len() == 20,
            b@.len() == 20,
            forall|j: int| 0 <= j < i ==> a@[j] == b@[j],
        decreases 20 - i,
    {
        if a[i] != b[i] {
            return false;
        }
        i = i + 1;
    }
    proof {
        assert(a@ =~= b@);
    }
    true
}

/// A part of a peer address reported by a discovery service: an IP
/// address (as text), a TCP port, or something else.
#[derive(Debug, Clone)]
pub enum AddrPart {
    Ip(String),
    Tcp(u16),
    Other,
}

/// The last IP address among the parts.
pub open spec fn last_ip(parts: Seq<AddrPart>) -> Option<Seq<char>>
    decreases parts.len(),
{
    if parts.len() == 0 {
        None
    } else {
        match parts.last() {
            AddrPart::Ip(s) => Some(s@),
            _ => last_ip(parts.drop_last()),
        }
    }
}

/// The last TCP port among the parts.
pub open spec fn last_port(parts: Seq<AddrPart>) -> Option<u16>
    decreases parts.len(),
{
    if parts.len() == 0 {
        None
    } else {
        match parts.last() {
            AddrPart::Tcp(p) => Some(p),
            _ => last_port(parts.drop_last()),
        }
    }
}

/// The peer address of an address made of `parts`: its last IP address
/// and its last TCP port, when it has both.
pub fn extract_addr(parts: &Vec<AddrPart>) -> (r: Option<(String, u16)>)
    ensures
        match (last_ip(parts@), last_port(parts@)) {
            (Some(ip), Some(port)) => r matches Some(a) && a.0@ == ip && a.1 == port,
            _ => r is None,
        },
{
    let mut ip: Option<String> = None;
    let mut port: Option<u16> = None;
    let mut i: usize = 0;
    while i < parts.len()
        invariant
            0 <= i <= parts@.len(),
            match last_ip(parts@.subrange(0, i as int)) {
                Some(t) => ip matches Some(s) && s@ == t,
                None => ip is None,
            },
            last_port(parts@.subrange(0, i as int)) == port,
        decreases parts@.len() - i,
    {
        proof {
            assert(parts@.subrange(0, i + 1).drop_last() =~= parts@.subrange(0, i as int));
        }
        match &parts[i] {
            AddrPart::Ip(s) => {
                ip = Some(s.clone());
            },
            AddrPart::Tcp(p) => {
                port = Some(*p);
            },
            AddrPart::Other => {},
        }
        i = i + 1;
    }
    proof {
        assert(parts@.subrange(0, parts@.len() as int) =~= parts@);
    }
    match (ip, port) {
        (Some(a), Some(p)) => Some((a, p)),
        _ => None,
    }
}

} // verus!
