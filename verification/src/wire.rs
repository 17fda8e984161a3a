//! The state of a connection with a peer: who chokes whom, who is
//! interested, the peer's pieces, our outstanding requests and peer
//! exchange.

use crate::bitfield::{bits_of, Bitfield};
use crate::buffer::bytes_contents;
use crate::error::Result;
use crate::extensions::{compact_peers, peers_of_compact, peer_views, UtPex};
use crate::protocol::{be32_bytes, bits_from_bytes, bitfield_from_bytes, decode_message, frame, message_of, PeerMessage, WireMessage};
use crate::bitfield::max_bits;
use bytes::Bytes;
use vstd::prelude::*;

verus! {

/// A block we asked a peer for.
#[derive(Debug, Clone, Copy)]
pub struct BlockRequest {
    pub piece: usize,
    pub offset: usize,
    pub length: usize,
}

/// The extended-message body of a ut_pex payload: message id 20, extension
/// id 1, then the payload.
pub open spec fn pex_body(payload: Seq<u8>) -> Seq<u8> {
    seq![20u8, 1u8] + payload
}

/// The framed extended message that carries a ut_pex payload: the body's
/// length as a 32-bit big-endian number, then the body.
pub fn pex_message(payload: &[u8]) -> (r: Vec<u8>)
    requires
        payload@.len() + 2 < 0x1_0000_0000,
    ensures
        r@ == be32_bytes((payload@.len() + 2) as nat) + pex_body(payload@),
{
    let mut body: Vec<u8> = Vec::new();
    body.push(20u8);
    body.push(1u8);
    crate::bencode_parser::append_bytes(&mut body, payload);
    proof {
        assert(body@ =~= pex_body(payload@));
    }
    frame(body.as_slice())
}

/// The state of a connection with a peer.
pub struct Wire {
    #[allow(dead_code)]
    wire_type: String,
    destroyed: bool,
    peer_pieces: Bitfield,
    peer_choking: bool,
    peer_interested: bool,
    am_choking: bool,
    am_interested: bool,
    requests: Vec<BlockRequest>,
    ut_pex: Option<UtPex>,
}

impl Wire {
    /// Whether the connection was destroyed.
    pub closed spec fn destroyed_view(&self) -> bool {
        self.destroyed
    }

    /// The pieces the peer has.
    pub closed spec fn peer_pieces_view(&self) -> Seq<bool> {
        bits_of(self.peer_pieces)
    }

    /// Whether the peer chokes us.
    pub closed spec fn peer_choking_view(&self) -> bool {
        self.peer_choking
    }

    /// Whether the peer is interested in our pieces.
    pub closed spec fn peer_interested_view(&self) -> bool {
        self.peer_interested
    }

    /// Whether we choke the peer.
    pub closed spec fn am_choking_view(&self) -> bool {
        self.am_choking
    }

    /// Whether we are interested in the peer's pieces.
    pub closed spec fn am_interested_view(&self) -> bool {
        self.am_interested
    }

    /// The blocks we asked for, oldest first.
    pub closed spec fn requests_view(&self) -> Seq<BlockRequest> {
        self.requests@
    }

    /// The peer-exchange state, once enabled: the added and dropped peers.
    pub closed spec fn pex_view(&self) -> Option<(Seq<(String, u16)>, Seq<(String, u16)>)> {
        match self.ut_pex {
            Some(p) => Some((p.added_view(), p.dropped_view())),
            None => None,
        }
    }

    /// A fresh connection: both sides choking and not interested, no
    /// pieces, no requests, no peer exchange.
    pub fn new(wire_type: String) -> (r: Wire)
        ensures
            !r.destroyed_view(),
            r.peer_pieces_view() == Seq::<bool>::empty(),
            r.peer_choking_view(),
            !r.peer_interested_view(),
            r.am_choking_view(),
            !r.am_interested_view(),
            r.requests_view() == Seq::<BlockRequest>::empty(),
            r.pex_view() is None,
    {
        Wire {
            wire_type,
            destroyed: false,
            peer_pieces: Bitfield::new(),
            peer_choking: true,
            peer_interested: false,
            am_choking: true,
            am_interested: false,
            requests: Vec::new(),
            ut_pex: None,
        }
    }

    /// Turns peer exchange on, with empty lists.
    pub fn enable_pex(&mut self)
        ensures
            final(self).pex_view() == Some((Seq::<(String, u16)>::empty(), Seq::<(String, u16)>::empty())),
            final(self).requests_view() == old(self).requests_view(),
            final(self).destroyed_view() == old(self).destroyed_view(),
    {
        self.ut_pex = Some(UtPex::new());
    }

    /// Reads a ut_pex payload: the peers it adds and the peers it drops.
    pub fn handle_pex_message(&self, data: &[u8]) -> (r: Result<(Vec<(String, u16)>, Vec<(String, u16)>)>)
        ensures
            r matches Ok((a, d)) && peer_views(a@) == peers_of_compact(data@) && d@.len() == 0,
    {
        UtPex::decode_full(data)
    }

    /// Records the peers to announce as added and dropped, turning peer
    /// exchange on if needed, and gives the ut_pex payload: the added peers
    /// in the compact format.
    pub fn send_pex_update(&mut self, added: Vec<(String, u16)>, dropped: Vec<(String, u16)>) -> (r: Result<Bytes>)
        ensures
            final(self).pex_view() == Some((added@, dropped@)),
            r matches Ok(b) && bytes_contents(b) == compact_peers(added@),
            final(self).requests_view() == old(self).requests_view(),
            final(self).destroyed_view() == old(self).destroyed_view(),
    {
        let mut pex = match self.ut_pex.take() {
            Some(p) => p,
            None => UtPex::new(),
        };
        pex.replace_peers(added, dropped);
        let encoded = pex.encode();
        self.ut_pex = Some(pex);
        Ok(encoded)
    }

    /// A copy of the peer-exchange state, if enabled.
    pub fn get_pex(&self) -> (r: Option<UtPex>)
        ensures
            match self.pex_view() {
                Some((a, d)) => r matches Some(p) && p.added_view() == a && p.dropped_view() == d,
                None => r is None,
            },
    {
        match &self.ut_pex {
            Some(p) => Some(p.duplicate()),
            None => None,
        }
    }

    /// Whether the connection was destroyed.
    pub fn destroyed(&self) -> (r: bool)
        ensures
            r == self.destroyed_view(),
    {
        self.destroyed
    }

    /// Marks the connection destroyed; destroying twice is harmless.
    pub fn destroy(&mut self) -> (r: Result<()>)
        ensures
            r is Ok,
            final(self).destroyed_view(),
            final(self).requests_view() == old(self).requests_view(),
    {
        if self.destroyed {
            return Ok(());
        }
        self.destroyed = true;
        Ok(())
    }

    /// The pieces the peer has.
    pub fn peer_pieces(&self) -> (r: Bitfield)
        ensures
            bits_of(r) == self.peer_pieces_view(),
    {
        self.peer_pieces.duplicate()
    }

    /// Records the pieces the peer has.
    pub fn set_peer_pieces(&mut self, bitfield: Bitfield)
        ensures
            final(self).peer_pieces_view() == bits_of(bitfield),
            final(self).destroyed_view() == old(self).destroyed_view(),
            final(self).peer_choking_view() == old(self).peer_choking_view(),
            final(self).peer_interested_view() == old(self).peer_interested_view(),
            final(self).am_choking_view() == old(self).am_choking_view(),
            final(self).am_interested_view() == old(self).am_interested_view(),
            final(self).requests_view() == old(self).requests_view(),
            final(self).pex_view() == old(self).pex_view(),
    {
        self.peer_pieces = bitfield;
    }

    /// Whether the peer chokes us.
    pub fn peer_choking(&self) -> (r: bool)
        ensures
            r == self.peer_choking_view(),
    {
        self.peer_choking
    }

    /// Records whether the peer chokes us.
    pub fn set_peer_choking(&mut self, choking: bool)
        ensures
            final(self).peer_choking_view() == choking,
            final(self).destroyed_view() == old(self).destroyed_view(),
            final(self).peer_pieces_view() == old(self).peer_pieces_view(),
            final(self).peer_interested_view() == old(self).peer_interested_view(),
            final(self).am_choking_view() == old(self).am_choking_view(),
            final(self).am_interested_view() == old(self).am_interested_view(),
            final(self).requests_view() == old(self).requests_view(),
            final(self).pex_view() == old(self).pex_view(),
    {
        self.peer_choking = choking;
    }

    /// Whether the peer is interested.
    pub fn peer_interested(&self) -> (r: bool)
        ensures
            r == self.peer_interested_view(),
    {
        self.peer_interested
    }

    /// Records whether the peer is interested.
    pub fn set_peer_interested(&mut self, interested: bool)
        ensures
            final(self).peer_interested_view() == interested,
            final(self).destroyed_view() == old(self).destroyed_view(),
            final(self).peer_pieces_view() == old(self).peer_pieces_view(),
            final(self).peer_choking_view() == old(self).peer_choking_view(),
            final(self).am_choking_view() == old(self).am_choking_view(),
            final(self).am_interested_view() == old(self).am_interested_view(),
            final(self).requests_view() == old(self).requests_view(),
            final(self).pex_view() == old(self).pex_view(),
    {
        self.peer_interested = interested;
    }

    /// Whether we choke the peer.
    pub fn am_choking(&self) -> (r: bool)
        ensures
            r == self.am_choking_view(),
    {
        self.am_choking
    }

    /// We choke the peer.
    pub fn choke(&mut self)
        ensures
            final(self).am_choking_view(),
            final(self).destroyed_view() == old(self).destroyed_view(),
            final(self).peer_pieces_view() == old(self).peer_pieces_view(),
            final(self).peer_choking_view() == old(self).peer_choking_view(),
            final(self).peer_interested_view() == old(self).peer_interested_view(),
            final(self).am_interested_view() == old(self).am_interested_view(),
            final(self).requests_view() == old(self).requests_view(),
            final(self).pex_view() == old(self).pex_view(),
    {
        self.am_choking = true;
    }

    /// We stop choking the peer.
    pub fn unchoke(&mut self)
        ensures
            !final(self).am_choking_view(),
            final(self).destroyed_view() == old(self).destroyed_view(),
            final(self).peer_pieces_view() == old(self).peer_pieces_view(),
            final(self).peer_choking_view() == old(self).peer_choking_view(),
            final(self).peer_interested_view() == old(self).peer_interested_view(),
            final(self).am_interested_view() == old(self).am_interested_view(),
            final(self).requests_view() == old(self).requests_view(),
            final(self).pex_view() == old(self).pex_view(),
    {
        self.am_choking = false;
    }

    /// We are interested in the peer's pieces.
    pub fn interested(&mut self)
        ensures
            final(self).am_interested_view(),
            final(self).destroyed_view() == old(self).destroyed_view(),
            final(self).peer_pieces_view() == old(self).peer_pieces_view(),
            final(self).peer_choking_view() == old(self).peer_choking_view(),
            final(self).peer_interested_view() == old(self).peer_interested_view(),
            final(self).am_choking_view() == old(self).am_choking_view(),
            final(self).requests_view() == old(self).requests_view(),
            final(self).pex_view() == old(self).pex_view(),
    {
        self.am_interested = true;
    }

    /// We are no longer interested in the peer's pieces.
    pub fn uninterested(&mut self)
        ensures
            !final(self).am_interested_view(),
            final(self).destroyed_view() == old(self).destroyed_view(),
            final(self).peer_pieces_view() == old(self).peer_pieces_view(),
            final(self).peer_choking_view() == old(self).peer_choking_view(),
            final(self).peer_interested_view() == old(self).peer_interested_view(),
            final(self).am_choking_view() == old(self).am_choking_view(),
            final(self).requests_view() == old(self).requests_view(),
            final(self).pex_view() == old(self).pex_view(),
    {
        self.am_interested = false;
    }

    /// Records a request for `length` bytes at `offset` of piece `piece`.
    pub fn request(&mut self, piece: usize, offset: usize, length: usize)
        ensures
            final(self).requests_view() == old(self).requests_view().push(BlockRequest { piece, offset, length }),
            final(self).destroyed_view() == old(self).destroyed_view(),
    {
        self.requests.push(BlockRequest { piece, offset, length });
    }

    /// The requests made, oldest first.
    pub fn requests(&self) -> (r: Vec<BlockRequest>)
        ensures
            r@ == self.requests_view(),
    {
        let mut out: Vec<BlockRequest> = Vec::new();
        let mut i: usize = 0;
        while i < self.requests.len()
            invariant
                0 <= i <= self.requests@.len(),
                out@ == self.requests@.subrange(0, i as int),
            decreases self.requests@.len() - i,
        {
            out.push(self.requests[i]);
            proof {
                assert(out@ =~= self.requests@.subrange(0, i + 1));
            }
            i = i + 1;
        }
        proof {
            assert(self.requests@.subrange(0, self.requests@.len() as int) =~= self.requests@);
        }
        out
    }
}

/// What handling a peer message leaves for the connection's owner to do.
pub enum MessageOutcome {
    /// Nothing more.
    Handled,
    /// A block of this many bytes arrived: count it as downloaded.
    Downloaded(u64),
    /// A peer-exchange message: the peers it adds and drops.
    Pex(Vec<(String, u16)>, Vec<(String, u16)>),
    /// A message of a kind the connection does not handle.
    Unknown,
}

impl Wire {
    /// Handles a message body (id, then payload) from the peer: choke and
    /// interest messages set the peer's flags, `have` marks a piece the
    /// field already covers, `bitfield` replaces the peer's pieces,
    /// `request` is recorded, `piece` is counted, `cancel` changes nothing,
    /// and an extended message with extension id 1 is read as peer exchange.
    pub fn handle_message(&mut self, message_data: &[u8]) -> (r: MessageOutcome)
        requires
            8 * message_data@.len() <= max_bits(),
        ensures
            final(self).destroyed_view() == old(self).destroyed_view(),
            final(self).am_choking_view() == old(self).am_choking_view(),
            final(self).am_interested_view() == old(self).am_interested_view(),
            final(self).pex_view() == old(self).pex_view(),
            message_data@.len() == 0 ==> r is Handled && final(self).peer_pieces_view() == old(self).peer_pieces_view()
                && final(self).requests_view() == old(self).requests_view(),
            message_data@.len() > 0 ==> match message_of(message_data@) {
                WireMessage::Choke => r is Handled && final(self).peer_choking_view(),
                WireMessage::Unchoke => r is Handled && !final(self).peer_choking_view(),
                WireMessage::Interested => r is Handled && final(self).peer_interested_view(),
                WireMessage::NotInterested => r is Handled && !final(self).peer_interested_view(),
                WireMessage::Have { piece } => r is Handled && final(self).peer_pieces_view() == (if piece
                    < old(self).peer_pieces_view().len() {
                    old(self).peer_pieces_view().update(piece as int, true)
                } else {
                    old(self).peer_pieces_view()
                }),
                WireMessage::Bitfield { bits } => r is Handled && final(self).peer_pieces_view() == bits_from_bytes(bits),
                WireMessage::Request { piece, offset, length } => r is Handled && final(self).requests_view()
                    == old(self).requests_view().push(
                    BlockRequest { piece: piece as usize, offset: offset as usize, length: length as usize },
                ),
                WireMessage::Piece { piece, offset, block } => r matches MessageOutcome::Downloaded(n) && n == block.len(),
                WireMessage::Cancel { .. } => r is Handled,
                WireMessage::Extended { id, payload } => if id == 1 {
                    r matches MessageOutcome::Pex(a, d) && peer_views(a@) == peers_of_compact(payload) && d@.len() == 0
                } else {
                    r is Handled
                },
                WireMessage::Other => r is Unknown,
            },
            message_data@.len() > 0 && !(message_of(message_data@) is Choke || message_of(message_data@) is Unchoke)
                ==> final(self).peer_choking_view() == old(self).peer_choking_view(),
            message_data@.len() > 0 && !(message_of(message_data@) is Interested || message_of(message_data@) is NotInterested)
                ==> final(self).peer_interested_view() == old(self).peer_interested_view(),
            message_data@.len() > 0 && !(message_of(message_data@) is Have || message_of(message_data@) is Bitfield)
                ==> final(self).peer_pieces_view() == old(self).peer_pieces_view(),
            message_data@.len() > 0 && !(message_of(message_data@) is Request) ==> final(self).requests_view()
                == old(self).requests_view(),
    {
        if message_data.len() == 0 {
            return MessageOutcome::Handled;
        }
        let m = decode_message(message_data);
        match m {
            PeerMessage::Choke => {
                self.peer_choking = true;
                MessageOutcome::Handled
            },
            PeerMessage::Unchoke => {
                self.peer_choking = false;
                MessageOutcome::Handled
            },
            PeerMessage::Interested => {
                self.peer_interested = true;
                MessageOutcome::Handled
            },
            PeerMessage::NotInterested => {
                self.peer_interested = false;
                MessageOutcome::Handled
            },
            PeerMessage::Have { piece } => {
                if piece < self.peer_pieces.len() {
                    self.peer_pieces.set(piece, true);
                }
                MessageOutcome::Handled
            },
            PeerMessage::Bitfield { bits } => {
                proof {
                    assert(bits@.len() <= message_data@.len());
                }
                self.peer_pieces = bitfield_from_bytes(bits);
                MessageOutcome::Handled
            },
            PeerMessage::Request { piece, offset, length } => {
                self.requests.push(BlockRequest { piece, offset, length });
                MessageOutcome::Handled
            },
            PeerMessage::Piece { piece, offset, block } => MessageOutcome::Downloaded(block.len() as u64),
            PeerMessage::Cancel { .. } => MessageOutcome::Handled,
            PeerMessage::Extended { id, payload } => {
                if id == 1 {
                    match UtPex::decode_full(payload.as_slice()) {
                        Ok((a, d)) => MessageOutcome::Pex(a, d),
                        Err(_) => MessageOutcome::Handled,
                    }
                } else {
                    MessageOutcome::Handled
                }
            },
            PeerMessage::Other => MessageOutcome::Unknown,
        }
    }
}

} // verus!
