//! Peers: who a connection is with, how it was made and where the peer
//! was found.

use crate::error::Result;
use crate::wire::Wire;
use vstd::prelude::*;

verus! {

/// How a connection with a peer is carried.
#[derive(Debug, Clone, Copy, PartialEq, Eq, Structural)]
pub enum PeerType {
    TcpIncoming,
    TcpOutgoing,
    UtpIncoming,
    UtpOutgoing,
    WebRtc,
    WebSeed,
}

/// Where a peer was found.
#[derive(Debug, Clone, Copy, PartialEq, Eq, Structural)]
pub enum PeerSource {
    Manual,
    Tracker,
    Dht,
    Lsd,
    UtPex,
}

/// A peer and the state of the connection with it.
pub struct Peer {
    id: String,
    peer_type: PeerType,
    #[allow(dead_code)]
    source: Option<PeerSource>,
    addr: Option<String>,
    wire: Option<Wire>,
    connected: bool,
    destroyed: bool,
}

impl Peer {
    /// The peer's id.
    pub closed spec fn id_view(&self) -> Seq<char> {
        self.id@
    }

    /// How the connection is carried.
    pub closed spec fn type_view(&self) -> PeerType {
        self.peer_type
    }

    /// The peer's address, if known.
    pub closed spec fn addr_view(&self) -> Option<Seq<char>> {
        match self.addr {
            Some(a) => Some(a@),
            None => None,
        }
    }

    /// Whether the peer is connected.
    pub closed spec fn connected_view(&self) -> bool {
        self.connected
    }

    /// Whether the peer was destroyed.
    pub closed spec fn destroyed_view(&self) -> bool {
        self.destroyed
    }

    /// Whether the peer's connection was destroyed, if it has one.
    pub closed spec fn wire_destroyed_view(&self) -> Option<bool> {
        match self.wire {
            Some(w) => Some(w.destroyed_view()),
            None => None,
        }
    }

    /// A peer with no connection yet.
    pub fn new(id: String, peer_type: PeerType) -> (r: Peer)
        ensures
            r.id_view() == id@,
            r.type_view() == peer_type,
            r.addr_view() is None,
            !r.connected_view(),
            !r.destroyed_view(),
            r.wire_destroyed_view() is None,
    {
        Peer { id, peer_type, source: None, addr: None, wire: None, connected: false, destroyed: false }
    }

    /// The same peer with its address.
    pub fn with_addr(self, addr: String) -> (r: Peer)
        ensures
            r.id_view() == self.id_view(),
            r.type_view() == self.type_view(),
            r.addr_view() == Some(addr@),
            r.connected_view() == self.connected_view(),
            r.destroyed_view() == self.destroyed_view(),
            r.wire_destroyed_view() == self.wire_destroyed_view(),
    {
        Peer { addr: Some(addr), ..self }
    }

    /// The peer's id.
    pub fn id(&self) -> (r: &str)
        ensures
            r@ == self.id_view(),
    {
        self.id.as_str()
    }

    /// How the connection is carried.
    pub fn peer_type(&self) -> (r: PeerType)
        ensures
            r == self.type_view(),
    {
        self.peer_type
    }

    /// The peer's address, if known.
    pub fn addr(&self) -> (r: Option<&str>)
        ensures
            match self.addr_view() {
                Some(a) => r matches Some(s) && s@ == a,
                None => r is None,
            },
    {
        match &self.addr {
            Some(a) => Some(a.as_str()),
            None => None,
        }
    }

    /// Whether the peer is connected.
    pub fn connected(&self) -> (r: bool)
        ensures
            r == self.connected_view(),
    {
        self.connected
    }

    /// Destroys the peer: marks it destroyed and disconnected and destroys
    /// its connection; destroying twice is harmless.
    pub fn destroy(&mut self) -> (r: Result<()>)
        ensures
            r is Ok,
            final(self).destroyed_view(),
            old(self).destroyed_view() ==> final(self).connected_view() == old(self).connected_view(),
            !old(self).destroyed_view() ==> !final(self).connected_view(),
            !old(self).destroyed_view() ==> match old(self).wire_destroyed_view() {
                Some(_) => final(self).wire_destroyed_view() == Some(true),
                None => final(self).wire_destroyed_view() is None,
            },
    {
        if self.destroyed {
            return Ok(());
        }
        self.destroyed = true;
        self.connected = false;
        match &mut self.wire {
            Some(w) => {
                let _ = w.destroy();
            },
            None => {},
        }
        Ok(())
    }
}

} // verus!
