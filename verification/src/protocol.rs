//! The peer wire protocol: handshakes, message types and message framing.

use crate::bitfield::{bits_of, max_bits, Bitfield};
use crate::buffer::{bytes_contents, bytes_from_vec};
use crate::error::{protocol_error, Result};
use crate::text::{string_from_utf8_lossy, utf8_lossy};
use bytes::Bytes;
use vstd::prelude::*;
use vstd::utf8::{decode_utf8, encode_utf8, valid_utf8};

verus! {

/// Peer wire message types.
#[derive(Debug, Clone, Copy, PartialEq, Eq, Structural)]
pub enum MessageType {
    Choke,
    Unchoke,
    Interested,
    NotInterested,
    Have,
    Bitfield,
    Request,
    Piece,
    Cancel,
    Port,
    Extended,
}

impl MessageType {
    /// The message id on the wire.
    pub open spec fn wire_id(self) -> u8 {
        match self {
            MessageType::Choke => 0,
            MessageType::Unchoke => 1,
            MessageType::Interested => 2,
            MessageType::NotInterested => 3,
            MessageType::Have => 4,
            MessageType::Bitfield => 5,
            MessageType::Request => 6,
            MessageType::Piece => 7,
            MessageType::Cancel => 8,
            MessageType::Port => 9,
            MessageType::Extended => 20,
        }
    }

    /// The message id on the wire.
    pub fn id(&self) -> (r: u8)
        ensures
            r == self.wire_id(),
    {
        match self {
            MessageType::Choke => 0,
            MessageType::Unchoke => 1,
            MessageType::Interested => 2,
            MessageType::NotInterested => 3,
            MessageType::Have => 4,
            MessageType::Bitfield => 5,
            MessageType::Request => 6,
            MessageType::Piece => 7,
            MessageType::Cancel => 8,
            MessageType::Port => 9,
            MessageType::Extended => 20,
        }
    }

    /// The message type with wire id `id`, if there is one.
    pub fn from_id(id: u8) -> (r: Option<MessageType>)
        ensures
            r is Some <==> (id <= 9 || id == 20),
            r matches Some(m) ==> m.wire_id() == id,
    {
        if id == 0 {
            Some(MessageType::Choke)
        } else if id == 1 {
            Some(MessageType::Unchoke)
        } else if id == 2 {
            Some(MessageType::Interested)
        } else if id == 3 {
            Some(MessageType::NotInterested)
        } else if id == 4 {
            Some(MessageType::Have)
        } else if id == 5 {
            Some(MessageType::Bitfield)
        } else if id == 6 {
            Some(MessageType::Request)
        } else if id == 7 {
            Some(MessageType::Piece)
        } else if id == 8 {
            Some(MessageType::Cancel)
        } else if id == 9 {
            Some(MessageType::Port)
        } else if id == 20 {
            Some(MessageType::Extended)
        } else {
            None
        }
    }
}

/// Every message type comes back from its wire id.
pub proof fn message_type_id_roundtrip(m: MessageType)
    ensures
        m.wire_id() <= 9 || m.wire_id() == 20,
        forall|n: MessageType| n.wire_id() == m.wire_id() ==> n == m,
{
}

/// A peer handshake.
pub struct Handshake {
    pub protocol: String,
    pub reserved: [u8; 8],
    pub info_hash: [u8; 20],
    pub peer_id: [u8; 20],
}

/// The protocol name every handshake of this library announces.
pub open spec fn bittorrent_protocol() -> Seq<char> {
    seq!['B', 'i', 't', 'T', 'o', 'r', 'r', 'e', 'n', 't', ' ', 'p', 'r', 'o', 't', 'o', 'c', 'o', 'l']
}

impl Handshake {
    /// The wire form: the protocol's byte length (modulo 256), its UTF-8
    /// bytes, the reserved bytes, the info hash and the peer id.
    pub open spec fn wire_bytes(self) -> Seq<u8> {
        let p = encode_utf8(self.protocol@);
        seq![(p.len() % 256) as u8] + p + self.reserved@ + self.info_hash@ + self.peer_id@
    }

    /// A handshake for `info_hash` from `peer_id`, with no reserved bits.
    pub fn new(info_hash: [u8; 20], peer_id: [u8; 20]) -> (r: Handshake)
        ensures
            r.protocol@ == bittorrent_protocol(),
            r.reserved@ == Seq::new(8, |i: int| 0u8),
            r.info_hash == info_hash,
            r.peer_id == peer_id,
    {
        let protocol = "BitTorrent protocol".to_string();
        proof {
            reveal_strlit("BitTorrent protocol");
            assert(protocol@ =~= bittorrent_protocol());
        }
        let reserved = [0u8; 8];
        proof {
            assert(reserved@ =~= Seq::new(8, |i: int| 0u8));
        }
        Handshake { protocol, reserved, info_hash, peer_id }
    }

    /// The wire form of the handshake.
    pub fn encode(&self) -> (r: Bytes)
        ensures
            bytes_contents(r) == self.wire_bytes(),
    {
        let p = self.protocol.as_str().as_bytes();
        let mut buf: Vec<u8> = Vec::new();
        buf.push((p.len() % 256) as u8);
        append_slice(&mut buf, p);
        append_slice(&mut buf, self.reserved.as_slice());
        append_slice(&mut buf, self.info_hash.as_slice());
        append_slice(&mut buf, self.peer_id.as_slice());
        proof {
            assert(buf@ =~= self.wire_bytes());
        }
        bytes_from_vec(buf)
    }

    /// Reads a handshake from the first bytes of `data`: a protocol length
    /// byte from 1 to 20, the protocol name, 8 reserved bytes, the info hash
    /// and the peer id.  Shorter input (under 68 bytes) and other lengths are
    /// protocol errors.  (With a 20-byte name the handshake takes 69 bytes,
    /// and 68 bytes of input are not enough to read it.)
    pub fn decode(data: &[u8]) -> (r: Result<Handshake>)
        requires
            handshake_fits(data@),
        ensures
            !handshake_decodes(data@) ==> (r matches Err(e) && e is Protocol),
            handshake_decodes(data@) ==> (r matches Ok(h) && {
                let n = data@[0] as int;
                &&& h.protocol@ == utf8_lossy(data@.subrange(1, n + 1))
                &&& valid_utf8(data@.subrange(1, n + 1)) ==> h.protocol@ == decode_utf8(
                    data@.subrange(1, n + 1),
                )
                &&& h.reserved@ == data@.subrange(n + 1, n + 9)
                &&& h.info_hash@ == data@.subrange(n + 9, n + 29)
                &&& h.peer_id@ == data@.subrange(n + 29, n + 49)
            }),
    {
        if data.len() < 68 {
            return Err(protocol_error("Handshake too short"));
        }
        let n = data[0] as usize;
        if n == 0 || n > 20 {
            return Err(protocol_error("Invalid protocol length"));
        }
        let protocol = string_from_utf8_lossy(vstd::slice::slice_subrange(data, 1, n + 1));
        let mut reserved = [0u8; 8];
        let mut i: usize = 0;
        while i < 8
            invariant
                0 <= i <= 8,
                1 <= n <= 20,
                n + 49 <= data@.len(),
                forall|j: int| 0 <= j < i ==> reserved@[j] == data@[n + 1 + j],
            decreases 8 - i,
        {
            reserved[i] = data[n + 1 + i];
            i = i + 1;
        }
        let info_hash = copy_array20(data, n + 9);
        let peer_id = copy_array20(data, n + 29);
        proof {
            assert(reserved@ =~= data@.subrange(n + 1, n + 9));
        }
        Ok(Handshake { protocol, reserved, info_hash, peer_id })
    }
}

/// At least 68 bytes, with a protocol length from 1 to 20.
pub open spec fn handshake_decodes(data: Seq<u8>) -> bool {
    data.len() >= 68 && 1 <= data[0] <= 20
}

/// Input that `Handshake::decode` can read without running past its end:
/// whenever it decodes, it holds the whole handshake.
pub open spec fn handshake_fits(data: Seq<u8>) -> bool {
    handshake_decodes(data) ==> data.len() >= data[0] + 49
}

/// Decoding the wire form of a handshake whose protocol name takes 19 or 20
/// bytes gives back its protocol name, reserved bytes, info hash and peer id.
pub proof fn handshake_roundtrip(h: Handshake)
    requires
        19 <= encode_utf8(h.protocol@).len() <= 20,
    ensures
        handshake_fits(h.wire_bytes()),
        handshake_decodes(h.wire_bytes()),
        ({
            let d = h.wire_bytes();
            let n = d[0] as int;
            &&& valid_utf8(d.subrange(1, n + 1))
            &&& decode_utf8(d.subrange(1, n + 1)) == h.protocol@
            &&& d.subrange(n + 1, n + 9) == h.reserved@
            &&& d.subrange(n + 9, n + 29) == h.info_hash@
            &&& d.subrange(n + 29, n + 49) == h.peer_id@
        }),
{
    let p = encode_utf8(h.protocol@);
    let d = h.wire_bytes();
    let n = p.len() as int;
    assert(d[0] == (p.len() % 256) as u8);
    assert(d.subrange(1, n + 1) =~= p);
    vstd::utf8::encode_utf8_valid_utf8(h.protocol@);
    vstd::utf8::encode_utf8_decode_utf8(h.protocol@);
    assert(d.subrange(n + 1, n + 9) =~= h.reserved@);
    assert(d.subrange(n + 9, n + 29) =~= h.info_hash@);
    assert(d.subrange(n + 29, n + 49) =~= h.peer_id@);
}

/// Copies `data[from..from + 20]` into an array.
fn copy_array20(data: &[u8], from: usize) -> (r: [u8; 20])
    requires
        from + 20 <= data@.len(),
    ensures
        r@ == data@.subrange(from as int, from + 20),
{
    let mut a = [0u8; 20];
    let len = data.len();
    let mut i: usize = 0;
    while i < 20
        invariant
            0 <= i <= 20,
            len == data@.len(),
            from + 20 <= data@.len(),
            forall|j: int| 0 <= j < i ==> a@[j] == data@[from + j],
        decreases 20 - i,
    {
        a[i] = data[from + i];
        i = i + 1;
    }
    proof {
        assert(a@ =~= data@.subrange(from as int, from + 20));
    }
    a
}

/// Appends the bytes of `s` to `buf`.
pub fn append_slice(buf: &mut Vec<u8>, s: &[u8])
    ensures
        final(buf)@ == old(buf)@ + s@,
{
    let mut i: usize = 0;
    while i < s.len()
        invariant
            0 <= i <= s.len(),
            buf@ =~= old(buf)@ + s@.subrange(0, i as int),
        decreases s.len() - i,
    {
        buf.push(s[i]);
        i = i + 1;
    }
    proof {
        assert(s@.subrange(0, s@.len() as int) =~= s@);
    }
}

/// The big-endian number in `b[i..i + 4]`.
pub open spec fn be32(b: Seq<u8>, i: int) -> nat {
    (b[i] as nat) * 16777216 + (b[i + 1] as nat) * 65536 + (b[i + 2] as nat) * 256 + (b[i + 3] as nat)
}

/// The four big-endian bytes of `n`.
pub open spec fn be32_bytes(n: nat) -> Seq<u8> {
    seq![
        ((n / 16777216) % 256) as u8,
        ((n / 65536) % 256) as u8,
        ((n / 256) % 256) as u8,
        (n % 256) as u8,
    ]
}

/// Reads the big-endian number in `b[i..i + 4]`.
pub fn read_be32(b: &[u8], i: usize) -> (r: u32)
    requires
        i + 4 <= b@.len(),
    ensures
        r == be32(b@, i as int),
{
    (b[i] as u32) * 16777216 + (b[i + 1] as u32) * 65536 + (b[i + 2] as u32) * 256 + (b[i + 3] as u32)
}

/// The big-endian bytes of `n`.
pub fn write_be32(n: u32) -> (r: Vec<u8>)
    ensures
        r@ == be32_bytes(n as nat),
{
    let mut v: Vec<u8> = Vec::new();
    v.push(((n / 16777216) % 256) as u8);
    v.push(((n / 65536) % 256) as u8);
    v.push(((n / 256) % 256) as u8);
    v.push((n % 256) as u8);
    proof {
        assert(v@ =~= be32_bytes(n as nat));
    }
    v
}

/// Big-endian bytes read back as the number they were written from.
pub proof fn lemma_be32_roundtrip(n: nat)
    requires
        n < 0x1_0000_0000,
    ensures
        be32(be32_bytes(n), 0) == n,
{
    let b = be32_bytes(n);
    assert(n == (n / 16777216) * 16777216 + (n / 65536) % 256 * 65536 + (n / 256) % 256 * 256 + n % 256)
        by (nonlinear_arith)
        requires
            n < 0x1_0000_0000,
    ;
}

/// A peer message as the connection handler reads it.
pub enum WireMessage {
    Choke,
    Unchoke,
    Interested,
    NotInterested,
    Have { piece: nat },
    Bitfield { bits: Seq<u8> },
    Request { piece: nat, offset: nat, length: nat },
    Piece { piece: nat, offset: nat, block: Seq<u8> },
    Cancel { piece: nat, offset: nat, length: nat },
    Extended { id: u8, payload: Seq<u8> },
    Other,
}

/// What a message body (its id and payload) says.  A `have` needs exactly 4
/// payload bytes, `request` and `cancel` exactly 12, `piece` at least 8,
/// `bitfield` at least 1 and `extended` at least 2; anything else, and every
/// other id, is `Other`.
pub open spec fn message_of(data: Seq<u8>) -> WireMessage {
    if data.len() == 0 {
        WireMessage::Other
    } else {
        let id = data[0];
        let p = data.subrange(1, data.len() as int);
        if id == 0 {
            WireMessage::Choke
        } else if id == 1 {
            WireMessage::Unchoke
        } else if id == 2 {
            WireMessage::Interested
        } else if id == 3 {
            WireMessage::NotInterested
        } else if id == 4 {
            if p.len() == 4 {
                WireMessage::Have { piece: be32(p, 0) }
            } else {
                WireMessage::Other
            }
        } else if id == 5 {
            if p.len() >= 1 {
                WireMessage::Bitfield { bits: p }
            } else {
                WireMessage::Other
            }
        } else if id == 6 {
            if p.len() == 12 {
                WireMessage::Request { piece: be32(p, 0), offset: be32(p, 4), length: be32(p, 8) }
            } else {
                WireMessage::Other
            }
        } else if id == 7 {
            if p.len() >= 8 {
                WireMessage::Piece {
                    piece: be32(p, 0),
                    offset: be32(p, 4),
                    block: p.subrange(8, p.len() as int),
                }
            } else {
                WireMessage::Other
            }
        } else if id == 8 {
            if p.len() == 12 {
                WireMessage::Cancel { piece: be32(p, 0), offset: be32(p, 4), length: be32(p, 8) }
            } else {
                WireMessage::Other
            }
        } else if id == 20 {
            if p.len() >= 2 {
                WireMessage::Extended { id: p[0], payload: p.subrange(1, p.len() as int) }
            } else {
                WireMessage::Other
            }
        } else {
            WireMessage::Other
        }
    }
}

/// A peer message.
pub enum PeerMessage {
    Choke,
    Unchoke,
    Interested,
    NotInterested,
    Have { piece: usize },
    Bitfield { bits: Vec<u8> },
    Request { piece: usize, offset: usize, length: usize },
    Piece { piece: usize, offset: usize, block: Vec<u8> },
    Cancel { piece: usize, offset: usize, length: usize },
    Extended { id: u8, payload: Vec<u8> },
    Other,
}

impl View for PeerMessage {
    type V = WireMessage;

    open spec fn view(&self) -> WireMessage {
        match *self {
            PeerMessage::Choke => WireMessage::Choke,
            PeerMessage::Unchoke => WireMessage::Unchoke,
            PeerMessage::Interested => WireMessage::Interested,
            PeerMessage::NotInterested => WireMessage::NotInterested,
            PeerMessage::Have { piece } => WireMessage::Have { piece: piece as nat },
            PeerMessage::Bitfield { bits } => WireMessage::Bitfield { bits: bits@ },
            PeerMessage::Request { piece, offset, length } => WireMessage::Request {
                piece: piece as nat,
                offset: offset as nat,
                length: length as nat,
            },
            PeerMessage::Piece { piece, offset, block } => WireMessage::Piece {
                piece: piece as nat,
                offset: offset as nat,
                block: block@,
            },
            PeerMessage::Cancel { piece, offset, length } => WireMessage::Cancel {
                piece: piece as nat,
                offset: offset as nat,
                length: length as nat,
            },
            PeerMessage::Extended { id, payload } => WireMessage::Extended { id, payload: payload@ },
            PeerMessage::Other => WireMessage::Other,
        }
    }
}

/// The body (id and payload) that a message is sent as.
pub open spec fn message_body(m: WireMessage) -> Seq<u8> {
    match m {
        WireMessage::Choke => seq![0u8],
        WireMessage::Unchoke => seq![1u8],
        WireMessage::Interested => seq![2u8],
        WireMessage::NotInterested => seq![3u8],
        WireMessage::Have { piece } => seq![4u8] + be32_bytes(piece),
        WireMessage::Bitfield { bits } => seq![5u8] + bits,
        WireMessage::Request { piece, offset, length } => seq![6u8] + be32_bytes(piece) + be32_bytes(
            offset,
        ) + be32_bytes(length),
        WireMessage::Piece { piece, offset, block } => seq![7u8] + be32_bytes(piece) + be32_bytes(
            offset,
        ) + block,
        WireMessage::Cancel { piece, offset, length } => seq![8u8] + be32_bytes(piece) + be32_bytes(
            offset,
        ) + be32_bytes(length),
        WireMessage::Extended { id, payload } => seq![20u8, id] + payload,
        WireMessage::Other => Seq::empty(),
    }
}

/// A message whose numbers fit in 32 bits and whose variable parts are not
/// empty, so that its body reads back as itself.
pub open spec fn sendable(m: WireMessage) -> bool {
    match m {
        WireMessage::Have { piece } => piece < 0x1_0000_0000,
        WireMessage::Bitfield { bits } => bits.len() >= 1,
        WireMessage::Request { piece, offset, length } => piece < 0x1_0000_0000 && offset
            < 0x1_0000_0000 && length < 0x1_0000_0000,
        WireMessage::Piece { piece, offset, block } => piece < 0x1_0000_0000 && offset
            < 0x1_0000_0000,
        WireMessage::Cancel { piece, offset, length } => piece < 0x1_0000_0000 && offset
            < 0x1_0000_0000 && length < 0x1_0000_0000,
        WireMessage::Extended { id, payload } => payload.len() >= 1,
        WireMessage::Other => false,
        _ => true,
    }
}

/// Reads a message body (its id and payload).
pub fn decode_message(data: &[u8]) -> (r: PeerMessage)
    ensures
        r@ == message_of(data@),
{
    let n = data.len();
    if n == 0 {
        return PeerMessage::Other;
    }
    let ghost p = data@.subrange(1, n as int);
    let id = data[0];
    let plen = n - 1;
    if id == 0 {
        PeerMessage::Choke
    } else if id == 1 {
        PeerMessage::Unchoke
    } else if id == 2 {
        PeerMessage::Interested
    } else if id == 3 {
        PeerMessage::NotInterested
    } else if id == 4 {
        if plen == 4 {
            let piece = read_be32(data, 1) as usize;
            proof {
                assert(be32(p, 0) == be32(data@, 1));
            }
            PeerMessage::Have { piece }
        } else {
            PeerMessage::Other
        }
    } else if id == 5 {
        if plen >= 1 {
            PeerMessage::Bitfield { bits: vstd::slice::slice_to_vec(vstd::slice::slice_subrange(data, 1, n)) }
        } else {
            PeerMessage::Other
        }
    } else if id == 6 || id == 8 {
        if plen == 12 {
            let piece = read_be32(data, 1) as usize;
            let offset = read_be32(data, 5) as usize;
            let length = read_be32(data, 9) as usize;
            proof {
                assert(be32(p, 0) == be32(data@, 1));
                assert(be32(p, 4) == be32(data@, 5));
                assert(be32(p, 8) == be32(data@, 9));
            }
            if id == 6 {
                PeerMessage::Request { piece, offset, length }
            } else {
                PeerMessage::Cancel { piece, offset, length }
            }
        } else {
            PeerMessage::Other
        }
    } else if id == 7 {
        if plen >= 8 {
            let piece = read_be32(data, 1) as usize;
            let offset = read_be32(data, 5) as usize;
            let block = vstd::slice::slice_to_vec(vstd::slice::slice_subrange(data, 9, n));
            proof {
                assert(be32(p, 0) == be32(data@, 1));
                assert(be32(p, 4) == be32(data@, 5));
                assert(block@ =~= p.subrange(8, p.len() as int));
            }
            PeerMessage::Piece { piece, offset, block }
        } else {
            PeerMessage::Other
        }
    } else if id == 20 {
        if plen >= 2 {
            let payload = vstd::slice::slice_to_vec(vstd::slice::slice_subrange(data, 2, n));
            proof {
                assert(payload@ =~= p.subrange(1, p.len() as int));
            }
            PeerMessage::Extended { id: data[1], payload }
        } else {
            PeerMessage::Other
        }
    } else {
        PeerMessage::Other
    }
}

impl PeerMessage {
    /// The body (id and payload) this message is sent as; numbers are written
    /// as 32-bit big-endian values.
    pub fn to_bytes(&self) -> (r: Vec<u8>)
        requires
            sendable(self@),
        ensures
            r@ == message_body(self@),
    {
        let mut v: Vec<u8> = Vec::new();
        match self {
            PeerMessage::Choke => v.push(0u8),
            PeerMessage::Unchoke => v.push(1u8),
            PeerMessage::Interested => v.push(2u8),
            PeerMessage::NotInterested => v.push(3u8),
            PeerMessage::Have { piece } => {
                v.push(4u8);
                append_slice(&mut v, write_be32(*piece as u32).as_slice());
            },
            PeerMessage::Bitfield { bits } => {
                v.push(5u8);
                append_slice(&mut v, bits.as_slice());
            },
            PeerMessage::Request { piece, offset, length } => {
                v.push(6u8);
                append_slice(&mut v, write_be32(*piece as u32).as_slice());
                append_slice(&mut v, write_be32(*offset as u32).as_slice());
                append_slice(&mut v, write_be32(*length as u32).as_slice());
            },
            PeerMessage::Piece { piece, offset, block } => {
                v.push(7u8);
                append_slice(&mut v, write_be32(*piece as u32).as_slice());
                append_slice(&mut v, write_be32(*offset as u32).as_slice());
                append_slice(&mut v, block.as_slice());
            },
            PeerMessage::Cancel { piece, offset, length } => {
                v.push(8u8);
                append_slice(&mut v, write_be32(*piece as u32).as_slice());
                append_slice(&mut v, write_be32(*offset as u32).as_slice());
                append_slice(&mut v, write_be32(*length as u32).as_slice());
            },
            PeerMessage::Extended { id, payload } => {
                v.push(20u8);
                v.push(*id);
                append_slice(&mut v, payload.as_slice());
            },
            PeerMessage::Other => {},
        }
        proof {
            assert(v@ =~= message_body(self@));
        }
        v
    }
}

/// Every sendable message reads back from its body.
pub proof fn message_roundtrip(m: WireMessage)
    requires
        sendable(m),
    ensures
        message_of(message_body(m)) == m,
{
    let d = message_body(m);
    let p = d.subrange(1, d.len() as int);
    match m {
        WireMessage::Have { piece } => {
            assert(p =~= be32_bytes(piece));
            lemma_be32_roundtrip(piece);
        },
        WireMessage::Bitfield { bits } => {
            assert(p =~= bits);
        },
        WireMessage::Request { piece, offset, length } => {
            lemma_be32_roundtrip(piece);
            lemma_be32_roundtrip(offset);
            lemma_be32_roundtrip(length);
            assert(be32(p, 0) == be32(be32_bytes(piece), 0));
            assert(be32(p, 4) == be32(be32_bytes(offset), 0));
            assert(be32(p, 8) == be32(be32_bytes(length), 0));
        },
        WireMessage::Piece { piece, offset, block } => {
            lemma_be32_roundtrip(piece);
            lemma_be32_roundtrip(offset);
            assert(be32(p, 0) == be32(be32_bytes(piece), 0));
            assert(be32(p, 4) == be32(be32_bytes(offset), 0));
            assert(p.subrange(8, p.len() as int) =~= block);
        },
        WireMessage::Cancel { piece, offset, length } => {
            lemma_be32_roundtrip(piece);
            lemma_be32_roundtrip(offset);
            lemma_be32_roundtrip(length);
            assert(be32(p, 0) == be32(be32_bytes(piece), 0));
            assert(be32(p, 4) == be32(be32_bytes(offset), 0));
            assert(be32(p, 8) == be32(be32_bytes(length), 0));
        },
        WireMessage::Extended { id, payload } => {
            assert(p.subrange(1, p.len() as int) =~= payload);
        },
        _ => {},
    }
}

/// What the 4-byte length prefix of a framed message says.
pub enum FrameLength {
    /// A zero length: a keep-alive with no body.
    KeepAlive,
    /// A body longer than 1 MiB, which the connection refuses.
    TooLarge(usize),
    /// The length of the body that follows.
    Body(usize),
}

/// Reads the length prefix of a framed message.
pub fn frame_length(prefix: &[u8; 4]) -> (r: FrameLength)
    ensures
        ({
            let n = be32(prefix@, 0);
            &&& n == 0 <==> r is KeepAlive
            &&& r matches FrameLength::TooLarge(k) ==> k == n && n > 1048576
            &&& r matches FrameLength::Body(k) ==> k == n && 0 < n <= 1048576
            &&& n > 1048576 ==> r is TooLarge
        }),
{
    let n = read_be32(prefix.as_slice(), 0) as usize;
    if n == 0 {
        FrameLength::KeepAlive
    } else if n > 1048576 {
        FrameLength::TooLarge(n)
    } else {
        FrameLength::Body(n)
    }
}

/// A framed message: the body's length as a 32-bit big-endian number (taken
/// modulo 2^32), then the body.
pub fn frame(body: &[u8]) -> (r: Vec<u8>)
    ensures
        r@ == be32_bytes((body@.len() % 0x1_0000_0000) as nat) + body@,
{
    let n = (body.len() as u64 % 0x1_0000_0000u64) as u32;
    let mut v = write_be32(n);
    append_slice(&mut v, body);
    v
}

/// The bit at position `j` (0 = most significant) of a byte.
pub open spec fn bit_at(b: u8, j: int) -> bool {
    ((b >> ((7 - j) as u8)) & 1u8) == 1u8
}

/// The bits of bytes, most significant bit of each byte first.
pub open spec fn bits_from_bytes(bytes: Seq<u8>) -> Seq<bool> {
    Seq::new(8 * bytes.len(), |i: int| bit_at(bytes[i / 8], i % 8))
}

/// Bit `i` of a field, with `false` past its end.
pub open spec fn bit_or_false(bits: Seq<bool>, i: int) -> bool {
    0 <= i < bits.len() && bits[i]
}

/// The byte whose bits, most significant first, are the flags.
pub open spec fn byte_of_flags(
    f0: bool,
    f1: bool,
    f2: bool,
    f3: bool,
    f4: bool,
    f5: bool,
    f6: bool,
    f7: bool,
) -> u8 {
    (if f0 { 128u8 } else { 0u8 }) | (if f1 { 64u8 } else { 0u8 }) | (if f2 { 32u8 } else { 0u8 }) | (
    if f3 { 16u8 } else { 0u8 }) | (if f4 { 8u8 } else { 0u8 }) | (if f5 { 4u8 } else { 0u8 }) | (if f6 {
        2u8
    } else {
        0u8
    }) | (if f7 { 1u8 } else { 0u8 })
}

/// Byte `k` of the packed form of a bit field.
pub open spec fn packed_byte(bits: Seq<bool>, k: int) -> u8 {
    byte_of_flags(
        bit_or_false(bits, 8 * k),
        bit_or_false(bits, 8 * k + 1),
        bit_or_false(bits, 8 * k + 2),
        bit_or_false(bits, 8 * k + 3),
        bit_or_false(bits, 8 * k + 4),
        bit_or_false(bits, 8 * k + 5),
        bit_or_false(bits, 8 * k + 6),
        bit_or_false(bits, 8 * k + 7),
    )
}

/// The packed form of a bit field: eight bits to a byte, most significant
/// bit first, the last byte padded with zero bits.
pub open spec fn bits_to_bytes(bits: Seq<bool>) -> Seq<u8> {
    Seq::new(((bits.len() + 7) / 8) as nat, |k: int| packed_byte(bits, k))
}

/// A bit field read from packed bytes (a `bitfield` message payload).
pub fn bitfield_from_bytes(bytes: Vec<u8>) -> (r: Bitfield)
    requires
        8 * bytes@.len() <= max_bits(),
    ensures
        bits_of(r) == bits_from_bytes(bytes@),
{
    let mut b = Bitfield::new();
    let mut k: usize = 0;
    while k < bytes.len()
        invariant
            0 <= k <= bytes@.len(),
            8 * bytes@.len() <= max_bits(),
            bits_of(b) =~= bits_from_bytes(bytes@).subrange(0, (8 * k) as int),
        decreases bytes.len() - k,
    {
        let byte = bytes[k];
        let mut i: u8 = 0;
        while i < 8
            invariant
                0 <= i <= 8,
                k < bytes@.len(),
                byte == bytes@[k as int],
                8 * bytes@.len() <= max_bits(),
                bits_of(b) =~= bits_from_bytes(bytes@).subrange(0, (8 * k + i) as int),
            decreases 8 - i,
        {
            let sh: u8 = 7 - i;
            let bit = (byte & (1u8 << sh)) != 0;
            proof {
                assert(((byte & (1u8 << sh)) != 0) == (((byte >> sh) & 1u8) == 1u8)) by (bit_vector)
                    requires
                        sh < 8,
                ;
                let q = 8 * k + i;
                assert(q / 8 == k as int) by (nonlinear_arith)
                    requires
                        q == 8 * k + i,
                        0 <= i < 8,
                ;
                assert(q % 8 == i as int) by (nonlinear_arith)
                    requires
                        q == 8 * k + i,
                        0 <= i < 8,
                ;
            }
            b.push(bit);
            i = i + 1;
        }
        k = k + 1;
    }
    proof {
        assert(bits_from_bytes(bytes@).subrange(0, (8 * bytes@.len()) as int) =~= bits_from_bytes(bytes@));
    }
    b
}

/// The packed bytes of a bit field (a `bitfield` message payload).
pub fn bitfield_to_bytes(bits: &Bitfield) -> (r: Vec<u8>)
    ensures
        r@ == bits_to_bytes(bits_of(*bits)),
{
    let n = bits.len();
    proof {
        assert(n <= max_bits());
    }
    let num_bytes = (n + 7) / 8;
    let mut out: Vec<u8> = Vec::new();
    let mut k: usize = 0;
    while k < num_bytes
        invariant
            n == bits_of(*bits).len(),
            n <= usize::MAX,
            num_bytes == (n + 7) / 8,
            0 <= k <= num_bytes,
            out@ =~= bits_to_bytes(bits_of(*bits)).subrange(0, k as int),
        decreases num_bytes - k,
    {
        let f0 = flag(bits, 8 * k);
        let f1 = flag(bits, 8 * k + 1);
        let f2 = flag(bits, 8 * k + 2);
        let f3 = flag(bits, 8 * k + 3);
        let f4 = flag(bits, 8 * k + 4);
        let f5 = flag(bits, 8 * k + 5);
        let f6 = flag(bits, 8 * k + 6);
        let f7 = flag(bits, 8 * k + 7);
        let byte = (if f0 { 128u8 } else { 0u8 }) | (if f1 { 64u8 } else { 0u8 }) | (if f2 {
            32u8
        } else {
            0u8
        }) | (if f3 { 16u8 } else { 0u8 }) | (if f4 { 8u8 } else { 0u8 }) | (if f5 {
            4u8
        } else {
            0u8
        }) | (if f6 { 2u8 } else { 0u8 }) | (if f7 { 1u8 } else { 0u8 });
        out.push(byte);
        k = k + 1;
    }
    out
}

/// Bit `i` of a field, `false` past its end.
fn flag(bits: &Bitfield, i: usize) -> (r: bool)
    ensures
        r == bit_or_false(bits_of(*bits), i as int),
{
    if i < bits.len() {
        bits.get(i)
    } else {
        false
    }
}

/// The bits of a byte packed back make the byte.
pub proof fn lemma_byte_bits(b: u8)
    ensures
        byte_of_flags(
            bit_at(b, 0),
            bit_at(b, 1),
            bit_at(b, 2),
            bit_at(b, 3),
            bit_at(b, 4),
            bit_at(b, 5),
            bit_at(b, 6),
            bit_at(b, 7),
        ) == b,
{
    assert(((if ((b >> 7u8) & 1u8) == 1u8 { 128u8 } else { 0u8 }) | (if ((b >> 6u8) & 1u8) == 1u8 {
        64u8
    } else {
        0u8
    }) | (if ((b >> 5u8) & 1u8) == 1u8 { 32u8 } else { 0u8 }) | (if ((b >> 4u8) & 1u8) == 1u8 {
        16u8
    } else {
        0u8
    }) | (if ((b >> 3u8) & 1u8) == 1u8 { 8u8 } else { 0u8 }) | (if ((b >> 2u8) & 1u8) == 1u8 {
        4u8
    } else {
        0u8
    }) | (if ((b >> 1u8) & 1u8) == 1u8 { 2u8 } else { 0u8 }) | (if ((b >> 0u8) & 1u8) == 1u8 {
        1u8
    } else {
        0u8
    })) == b) by (bit_vector);
}

/// Packing flags and reading their bits back gives the flags.
pub proof fn lemma_flags_bits(
    f0: bool,
    f1: bool,
    f2: bool,
    f3: bool,
    f4: bool,
    f5: bool,
    f6: bool,
    f7: bool,
)
    ensures
        ({
            let b = byte_of_flags(f0, f1, f2, f3, f4, f5, f6, f7);
            &&& bit_at(b, 0) == f0
            &&& bit_at(b, 1) == f1
            &&& bit_at(b, 2) == f2
            &&& bit_at(b, 3) == f3
            &&& bit_at(b, 4) == f4
            &&& bit_at(b, 5) == f5
            &&& bit_at(b, 6) == f6
            &&& bit_at(b, 7) == f7
        }),
{
    let b = byte_of_flags(f0, f1, f2, f3, f4, f5, f6, f7);
    assert(b == (if f0 { 128u8 } else { 0u8 }) | (if f1 { 64u8 } else { 0u8 }) | (if f2 {
        32u8
    } else {
        0u8
    }) | (if f3 { 16u8 } else { 0u8 }) | (if f4 { 8u8 } else { 0u8 }) | (if f5 { 4u8 } else { 0u8 })
        | (if f6 { 2u8 } else { 0u8 }) | (if f7 { 1u8 } else { 0u8 }));
    assert(((b >> 7u8) & 1u8 == 1u8) == f0 && ((b >> 6u8) & 1u8 == 1u8) == f1 && ((b >> 5u8) & 1u8
        == 1u8) == f2 && ((b >> 4u8) & 1u8 == 1u8) == f3 && ((b >> 3u8) & 1u8 == 1u8) == f4 && ((b
        >> 2u8) & 1u8 == 1u8) == f5 && ((b >> 1u8) & 1u8 == 1u8) == f6 && ((b >> 0u8) & 1u8 == 1u8)
        == f7) by (bit_vector)
        requires
            b == (if f0 { 128u8 } else { 0u8 }) | (if f1 { 64u8 } else { 0u8 }) | (if f2 {
                32u8
            } else {
                0u8
            }) | (if f3 { 16u8 } else { 0u8 }) | (if f4 { 8u8 } else { 0u8 }) | (if f5 {
                4u8
            } else {
                0u8
            }) | (if f6 { 2u8 } else { 0u8 }) | (if f7 { 1u8 } else { 0u8 }),
    ;
}

/// Packing the bits of bytes gives the bytes back.
pub proof fn bitfield_bytes_roundtrip(bytes: Seq<u8>)
    ensures
        bits_to_bytes(bits_from_bytes(bytes)) == bytes,
{
    let bits = bits_from_bytes(bytes);
    let packed = bits_to_bytes(bits);
    assert((8 * bytes.len() + 7) / 8 == bytes.len()) by (nonlinear_arith);
    assert forall|k: int| 0 <= k < bytes.len() implies #[trigger] packed[k] == bytes[k] by {
        assert forall|j: int| 0 <= j < 8 implies bit_or_false(bits, 8 * k + j) == bit_at(bytes[k], j) by {
            assert(8 * k + j < 8 * bytes.len()) by (nonlinear_arith)
                requires
                    0 <= k < bytes.len(),
                    0 <= j < 8,
            ;
            assert((8 * k + j) / 8 == k) by (nonlinear_arith)
                requires
                    0 <= j < 8,
            ;
            assert((8 * k + j) % 8 == j) by (nonlinear_arith)
                requires
                    0 <= j < 8,
            ;
        }
        assert(bit_or_false(bits, 8 * k) == bit_at(bytes[k], 0));
        assert(bit_or_false(bits, 8 * k + 1) == bit_at(bytes[k], 1));
        assert(bit_or_false(bits, 8 * k + 2) == bit_at(bytes[k], 2));
        assert(bit_or_false(bits, 8 * k + 3) == bit_at(bytes[k], 3));
        assert(bit_or_false(bits, 8 * k + 4) == bit_at(bytes[k], 4));
        assert(bit_or_false(bits, 8 * k + 5) == bit_at(bytes[k], 5));
        assert(bit_or_false(bits, 8 * k + 6) == bit_at(bytes[k], 6));
        assert(bit_or_false(bits, 8 * k + 7) == bit_at(bytes[k], 7));
        lemma_byte_bits(bytes[k]);
    }
    assert(packed =~= bytes);
}

/// Reading the bits of the packed form of a bit field gives the field back,
/// followed by zero bits up to a whole byte.
pub proof fn bitfield_bits_roundtrip(bits: Seq<bool>)
    ensures
        ({
            let back = bits_from_bytes(bits_to_bytes(bits));
            &&& back.len() == 8 * ((bits.len() + 7) / 8)
            &&& forall|i: int| 0 <= i < back.len() ==> #[trigger] back[i] == bit_or_false(bits, i)
        }),
{
    let packed = bits_to_bytes(bits);
    let back = bits_from_bytes(packed);
    assert forall|i: int| 0 <= i < back.len() implies #[trigger] back[i] == bit_or_false(bits, i) by {
        let k = i / 8;
        let j = i % 8;
        assert(0 <= k < packed.len()) by (nonlinear_arith)
            requires
                0 <= i < 8 * packed.len(),
                k == i / 8,
        ;
        assert(i == 8 * k + j) by (nonlinear_arith)
            requires
                k == i / 8,
                j == i % 8,
        ;
        lemma_flags_bits(
            bit_or_false(bits, 8 * k),
            bit_or_false(bits, 8 * k + 1),
            bit_or_false(bits, 8 * k + 2),
            bit_or_false(bits, 8 * k + 3),
            bit_or_false(bits, 8 * k + 4),
            bit_or_false(bits, 8 * k + 5),
            bit_or_false(bits, 8 * k + 6),
            bit_or_false(bits, 8 * k + 7),
        );
    }
}

} // verus!
