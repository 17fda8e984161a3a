//! uTP, the UDP transport of peer connections: the packet header and what
//! the listening side does with each packet it receives.

use crate::bitfield::{bits_of, Bitfield};
use crate::error::{protocol_error, Result};
use crate::protocol::{bitfield_to_bytes, bits_to_bytes, MessageType};
use crate::table::{keys_distinct, lemma_table_map, lemma_table_push, lemma_table_remove, lemma_table_update, table_map};
use vstd::prelude::*;

verus! {

/// `ST_DATA`: a packet of payload.
pub const ST_DATA: u8 = 0;

/// `ST_SYN`: a connection request.
pub const ST_SYN: u8 = 1;

/// `ST_STATE`: an acknowledgement, here of a connection request.
pub const ST_STATE: u8 = 2;

/// `ST_RESET`: the end of a connection.
pub const ST_RESET: u8 = 3;

/// The window size a new connection starts with.
pub const DEFAULT_WINDOW: u32 = 65536;

/// Where a uTP connection stands.
#[derive(Debug, Clone, Copy, PartialEq, Eq, Structural)]
pub enum UtpConnectionState {
    SynSent,
    SynReceived,
    Established,
    FinSent,
    FinReceived,
    Closed,
}

/// A uTP connection, as the listening side tracks it.
#[derive(Debug, Clone, Copy, PartialEq, Eq, Structural)]
pub struct UtpConnection {
    pub connection_id: u16,
    pub state: UtpConnectionState,
    pub seq_nr: u16,
    pub ack_nr: u16,
    pub window_size: u32,
    pub last_timestamp: u32,
}

/// The fields of a uTP packet header.
#[derive(Debug, Clone, Copy, PartialEq, Eq, Structural)]
pub struct UtpHeader {
    pub packet_type: u8,
    pub version: u8,
    pub connection_id: u16,
    pub timestamp: u32,
    pub timestamp_difference: u32,
    pub window_size: u32,
    pub seq_nr: u16,
    pub ack_nr: u16,
}

/// The two big-endian bytes of a 16-bit number.
pub open spec fn be16_of(n: u16) -> Seq<u8> {
    seq![(n / 256) as u8, (n % 256) as u8]
}

/// The four big-endian bytes of a 32-bit number.
pub open spec fn be32_of(n: u32) -> Seq<u8> {
    seq![(n / 16777216) as u8, ((n / 65536) % 256) as u8, ((n / 256) % 256) as u8, (n % 256) as u8]
}

/// The first byte of a header: the type in the high four bits (cut to
/// eight bits) and the low four bits of the version.
pub open spec fn type_version_byte(packet_type: u8, version: u8) -> u8 {
    (((packet_type as int * 16) % 256) + (version % 16)) as u8
}

/// The twenty bytes of a uTP header: type and version, then the connection
/// id, timestamp, timestamp difference, window size, sequence and
/// acknowledgement numbers, big-endian, and a zero byte.
pub open spec fn header_bytes(h: UtpHeader) -> Seq<u8> {
    seq![type_version_byte(h.packet_type, h.version)] + be16_of(h.connection_id) + be32_of(h.timestamp) + be32_of(
        h.timestamp_difference,
    ) + be32_of(h.window_size) + be16_of(h.seq_nr) + be16_of(h.ack_nr) + seq![0u8]
}

/// The big-endian number in `b[i..i + 2]`.
pub open spec fn read16(b: Seq<u8>, i: int) -> nat {
    (b[i] as nat) * 256 + (b[i + 1] as nat)
}

/// The big-endian number in `b[i..i + 4]`.
pub open spec fn read32(b: Seq<u8>, i: int) -> nat {
    (b[i] as nat) * 16777216 + (b[i + 1] as nat) * 65536 + (b[i + 2] as nat) * 256 + (b[i + 3] as nat)
}

/// The header at the front of a packet of at least twenty bytes.
pub open spec fn header_of(p: Seq<u8>) -> UtpHeader {
    UtpHeader {
        packet_type: p[0] / 16,
        version: p[0] % 16,
        connection_id: read16(p, 1) as u16,
        timestamp: read32(p, 3) as u32,
        timestamp_difference: read32(p, 7) as u32,
        window_size: read32(p, 11) as u32,
        seq_nr: read16(p, 15) as u16,
        ack_nr: read16(p, 17) as u16,
    }
}

/// Builds a header.
pub fn build_utp_header(
    packet_type: u8,
    version: u8,
    connection_id: u16,
    timestamp: u32,
    timestamp_difference: u32,
    window_size: u32,
    seq_nr: u16,
    ack_nr: u16,
) -> (r: [u8; 20])
    ensures
        r@ == header_bytes(
            UtpHeader { packet_type, version, connection_id, timestamp, timestamp_difference, window_size, seq_nr, ack_nr },
        ),
{
    let mut header: [u8; 20] = [0u8; 20];
    let hi: u8 = ((packet_type as u32 * 16) % 256) as u8;
    header[0] = hi + (version % 16);
    header[1] = (connection_id / 256) as u8;
    header[2] = (connection_id % 256) as u8;
    header[3] = (timestamp / 16777216) as u8;
    header[4] = ((timestamp / 65536) % 256) as u8;
    header[5] = ((timestamp / 256) % 256) as u8;
    header[6] = (timestamp % 256) as u8;
    header[7] = (timestamp_difference / 16777216) as u8;
    header[8] = ((timestamp_difference / 65536) % 256) as u8;
    header[9] = ((timestamp_difference / 256) % 256) as u8;
    header[10] = (timestamp_difference % 256) as u8;
    header[11] = (window_size / 16777216) as u8;
    header[12] = ((window_size / 65536) % 256) as u8;
    header[13] = ((window_size / 256) % 256) as u8;
    header[14] = (window_size % 256) as u8;
    header[15] = (seq_nr / 256) as u8;
    header[16] = (seq_nr % 256) as u8;
    header[17] = (ack_nr / 256) as u8;
    header[18] = (ack_nr % 256) as u8;
    proof {
        let h = UtpHeader { packet_type, version, connection_id, timestamp, timestamp_difference, window_size, seq_nr, ack_nr };
        assert(header@ =~= header_bytes(h));
    }
    header
}

/// Reads the header of a packet; fails for a packet shorter than twenty
/// bytes.
pub fn parse_utp_header(packet: &[u8]) -> (r: Result<UtpHeader>)
    ensures
        packet@.len() < 20 ==> (r matches Err(e) && e is Protocol),
        packet@.len() >= 20 ==> r == Ok::<UtpHeader, crate::error::WebTorrentError>(header_of(packet@)),
{
    if packet.len() < 20 {
        return Err(protocol_error("uTP packet too short"));
    }
    let b0 = packet[0];
    let connection_id = (packet[1] as u16) * 256 + (packet[2] as u16);
    let timestamp = (packet[3] as u32) * 16777216 + (packet[4] as u32) * 65536 + (packet[5] as u32) * 256 + (packet[6] as u32);
    let timestamp_difference = (packet[7] as u32) * 16777216 + (packet[8] as u32) * 65536 + (packet[9] as u32) * 256
        + (packet[10] as u32);
    let window_size = (packet[11] as u32) * 16777216 + (packet[12] as u32) * 65536 + (packet[13] as u32) * 256
        + (packet[14] as u32);
    let seq_nr = (packet[15] as u16) * 256 + (packet[16] as u16);
    let ack_nr = (packet[17] as u16) * 256 + (packet[18] as u16);
    Ok(
        UtpHeader {
            packet_type: b0 / 16,
            version: b0 % 16,
            connection_id,
            timestamp,
            timestamp_difference,
            window_size,
            seq_nr,
            ack_nr,
        },
    )
}

/// A header whose type and version fit in four bits reads back from its
/// bytes.
pub proof fn utp_header_roundtrip(h: UtpHeader)
    requires
        h.packet_type < 16,
        h.version < 16,
    ensures
        header_bytes(h).len() == 20,
        header_of(header_bytes(h)) == h,
{
    let b = header_bytes(h);
    assert(b.len() == 20);
    let n16 = |n: u16| (n / 256) as nat * 256 + (n % 256) as nat;
    assert(read16(b, 1) == h.connection_id) by {
        assert(b[1] == (h.connection_id / 256) as u8);
        assert(b[2] == (h.connection_id % 256) as u8);
    }
    assert(read16(b, 15) == h.seq_nr) by {
        assert(b[15] == (h.seq_nr / 256) as u8);
        assert(b[16] == (h.seq_nr % 256) as u8);
    }
    assert(read16(b, 17) == h.ack_nr) by {
        assert(b[17] == (h.ack_nr / 256) as u8);
        assert(b[18] == (h.ack_nr % 256) as u8);
    }
    assert(b.subrange(3, 7) =~= be32_of(h.timestamp));
    assert(b.subrange(7, 11) =~= be32_of(h.timestamp_difference));
    assert(b.subrange(11, 15) =~= be32_of(h.window_size));
    lemma_read32(b, 3, h.timestamp);
    lemma_read32(b, 7, h.timestamp_difference);
    lemma_read32(b, 11, h.window_size);
    assert(b[0] == type_version_byte(h.packet_type, h.version));
    assert(b[0] / 16 == h.packet_type && b[0] % 16 == h.version) by (nonlinear_arith)
        requires
            b[0] == (((h.packet_type as int * 16) % 256) + (h.version % 16)) as u8,
            h.packet_type < 16,
            h.version < 16,
    ;
}

/// Four big-endian bytes read back as their number.
proof fn lemma_read32(b: Seq<u8>, i: int, n: u32)
    requires
        0 <= i,
        i + 4 <= b.len(),
        b.subrange(i, i + 4) == be32_of(n),
    ensures
        read32(b, i) == n,
{
    assert(b[i] == be32_of(n)[0]);
    assert(b[i + 1] == be32_of(n)[1]);
    assert(b[i + 2] == be32_of(n)[2]);
    assert(b[i + 3] == be32_of(n)[3]);
    assert((n / 16777216) as nat * 16777216 + ((n / 65536) % 256) as nat * 65536 + ((n / 256) % 256) as nat * 256
        + (n % 256) as nat == n) by (nonlinear_arith);
}

/// What the listening side does after a packet.
pub enum UtpAction {
    /// Nothing to send.
    Nothing,
    /// Answer a connection request with this `ST_STATE` header; a
    /// BitTorrent handshake carried in the request follows, if any.
    SynAck { header: [u8; 20], handshake: Option<Vec<u8>> },
    /// A BitTorrent handshake arrived on a known connection.
    Handshake(Vec<u8>),
}

/// A connection answering a request with sequence number `seq_nr`.
pub open spec fn accepted_connection(h: UtpHeader) -> UtpConnection {
    UtpConnection {
        connection_id: h.connection_id,
        state: UtpConnectionState::SynReceived,
        seq_nr: 1,
        ack_nr: ((h.seq_nr + 1) % 65536) as u16,
        window_size: 65536,
        last_timestamp: h.timestamp,
    }
}

/// A connection learned from an acknowledgement.
pub open spec fn acknowledged_connection(h: UtpHeader) -> UtpConnection {
    UtpConnection {
        connection_id: h.connection_id,
        state: UtpConnectionState::Established,
        seq_nr: 1,
        ack_nr: ((h.seq_nr + 1) % 65536) as u16,
        window_size: if h.window_size > 65536 {
            h.window_size
        } else {
            65536
        },
        last_timestamp: h.timestamp,
    }
}

/// The connections after a packet from `addr` with header `h`: a known
/// connection's timestamp is refreshed; a request stores a new connection;
/// an acknowledgement for an unknown connection stores one; a reset drops
/// the connection.
pub open spec fn connections_after(m: Map<(Seq<char>, u16), UtpConnection>, addr: Seq<char>, h: UtpHeader) -> Map<
    (Seq<char>, u16),
    UtpConnection,
> {
    let key = (addr, h.connection_id);
    let touched = if m.contains_key(key) {
        m.insert(key, UtpConnection { last_timestamp: h.timestamp, ..m[key] })
    } else {
        m
    };
    if h.packet_type == 1 {
        touched.insert(key, accepted_connection(h))
    } else if h.packet_type == 2 && !m.contains_key(key) {
        touched.insert(key, acknowledged_connection(h))
    } else if h.packet_type == 3 {
        touched.remove(key)
    } else {
        touched
    }
}

/// The uTP connections the listening side knows, by remote address and
/// connection id.
pub struct UtpTable {
    entries: Vec<((String, u16), UtpConnection)>,
}

/// The keys of entries, with addresses as text.
pub open spec fn entry_views(s: Seq<((String, u16), UtpConnection)>) -> Seq<((Seq<char>, u16), UtpConnection)> {
    Seq::new(s.len(), |i: int| ((s[i].0.0@, s[i].0.1), s[i].1))
}

impl UtpTable {
    /// The connections, by remote address and connection id.
    pub closed spec fn view_map(&self) -> Map<(Seq<char>, u16), UtpConnection> {
        table_map(entry_views(self.entries@))
    }

    /// The table keeps one entry per key.
    pub closed spec fn wf(&self) -> bool {
        keys_distinct(entry_views(self.entries@))
    }

    /// No connections.
    pub fn new() -> (r: UtpTable)
        ensures
            r.wf(),
            r.view_map() == Map::<(Seq<char>, u16), UtpConnection>::empty(),
    {
        let r = UtpTable { entries: Vec::new() };
        proof {
            assert(entry_views(r.entries@) =~= Seq::<((Seq<char>, u16), UtpConnection)>::empty());
        }
        r
    }

    /// The index of the entry for `addr` and `id`, if any.
    fn find(&self, addr: &String, id: u16) -> (r: Option<usize>)
        requires
            self.wf(),
        ensures
            match r {
                Some(i) => i < self.entries@.len() && entry_views(self.entries@)[i as int].0 == (addr@, id),
                None => !self.view_map().contains_key((addr@, id)),
            },
    {
        let mut i: usize = 0;
        while i < self.entries.len()
            invariant
                0 <= i <= self.entries@.len(),
                forall|j: int| 0 <= j < i ==> entry_views(self.entries@)[j].0 != (addr@, id),
            decreases self.entries@.len() - i,
        {
            if self.entries[i].0.1 == id && self.entries[i].0.0 == *addr {
                return Some(i);
            }
            i = i + 1;
        }
        proof {
            lemma_table_map(entry_views(self.entries@));
        }
        None
    }

    /// The connection for `addr` and `id`, if known.
    pub fn get(&self, addr: &String, id: u16) -> (r: Option<UtpConnection>)
        requires
            self.wf(),
        ensures
            r == (if self.view_map().contains_key((addr@, id)) {
                Some(self.view_map()[(addr@, id)])
            } else {
                None
            }),
    {
        match self.find(addr, id) {
            Some(i) => {
                proof {
                    lemma_table_map(entry_views(self.entries@));
                }
                Some(self.entries[i].1)
            },
            None => None,
        }
    }

    /// Stores `c` under `addr` and `id`.
    fn store(&mut self, addr: &String, id: u16, c: UtpConnection)
        requires
            old(self).wf(),
        ensures
            final(self).wf(),
            final(self).view_map() == old(self).view_map().insert((addr@, id), c),
    {
        let ghost ev = entry_views(self.entries@);
        match self.find(addr, id) {
            Some(i) => {
                let key = (addr.clone(), id);
                self.entries.set(i, (key, c));
                proof {
                    lemma_table_update(ev, i as int, c);
                    assert(entry_views(self.entries@) =~= ev.update(i as int, (ev[i as int].0, c)));
                }
            },
            None => {
                self.entries.push(((addr.clone(), id), c));
                proof {
                    lemma_table_push(ev, (addr@, id), c);
                    assert(entry_views(self.entries@) =~= ev.push(((addr@, id), c)));
                }
            },
        }
    }

    /// Forgets the connection for `addr` and `id`.
    fn forget(&mut self, addr: &String, id: u16)
        requires
            old(self).wf(),
        ensures
            final(self).wf(),
            final(self).view_map() == old(self).view_map().remove((addr@, id)),
    {
        let ghost ev = entry_views(self.entries@);
        match self.find(addr, id) {
            Some(i) => {
                self.entries.remove(i);
                proof {
                    lemma_table_remove(ev, i as int);
                    assert(entry_views(self.entries@) =~= ev.remove(i as int));
                }
            },
            None => {
                proof {
                    assert(self.view_map() =~= old(self).view_map().remove((addr@, id)));
                }
            },
        }
    }

    /// Refreshes the timestamp of a known connection; tells whether it was
    /// known.
    fn touch(&mut self, addr: &String, id: u16, timestamp: u32) -> (known: bool)
        requires
            old(self).wf(),
        ensures
            final(self).wf(),
            known == old(self).view_map().contains_key((addr@, id)),
            final(self).view_map() == (if known {
                old(self).view_map().insert(
                    (addr@, id),
                    UtpConnection { last_timestamp: timestamp, ..old(self).view_map()[(addr@, id)] },
                )
            } else {
                old(self).view_map()
            }),
    {
        match self.get(addr, id) {
            Some(c) => {
                self.store(addr, id, UtpConnection { last_timestamp: timestamp, ..c });
                true
            },
            None => false,
        }
    }

    /// Handles a packet from `addr`, received when our clock read
    /// `our_timestamp` microseconds.  A request (`ST_SYN`) is answered
    /// with an `ST_STATE` header acknowledging it, followed by the
    /// handshake it carries when its payload has at least 68 bytes; a data
    /// packet on a known connection passes on a handshake of at least 68
    /// bytes.  Fails for a packet shorter than a header.
    #[verifier::rlimit(40)]
    pub fn handle_packet(&mut self, addr: &String, packet: &[u8], our_timestamp: u32) -> (r: Result<UtpAction>)
        requires
            old(self).wf(),
        ensures
            final(self).wf(),
            packet@.len() < 20 ==> (r matches Err(e) && e is Protocol && final(self).view_map() == old(self).view_map()),
            packet@.len() >= 20 ==> ({
                let h = header_of(packet@);
                let payload = packet@.subrange(20, packet@.len() as int);
                let known = old(self).view_map().contains_key((addr@, h.connection_id));
                &&& final(self).view_map() == connections_after(old(self).view_map(), addr@, h)
                &&& r matches Ok(action)
                &&& if h.packet_type == 1 {
                    action matches UtpAction::SynAck { header, handshake } && header@ == header_bytes(
                        UtpHeader {
                            packet_type: 2,
                            version: h.version,
                            connection_id: h.connection_id,
                            timestamp: our_timestamp,
                            timestamp_difference: ((our_timestamp - h.timestamp) % 0x1_0000_0000) as u32,
                            window_size: 65536,
                            seq_nr: 1,
                            ack_nr: ((h.seq_nr + 1) % 65536) as u16,
                        },
                    ) && match handshake {
                        Some(d) => payload.len() >= 68 && d@ == payload,
                        None => payload.len() < 68,
                    }
                } else if h.packet_type == 0 && known && payload.len() >= 68 {
                    action matches UtpAction::Handshake(d) && d@ == payload
                } else {
                    action is Nothing
                }
            }),
    {
        let h = match parse_utp_header(packet) {
            Ok(h) => h,
            Err(e) => return Err(e),
        };
        let id = h.connection_id;
        let known = self.touch(addr, id, h.timestamp);
        let payload = vstd::slice::slice_subrange(packet, 20, packet.len());
        if h.packet_type == ST_SYN {
            let ts_diff = our_timestamp.wrapping_sub(h.timestamp);
            let ack = h.seq_nr.wrapping_add(1);
            let connection = UtpConnection {
                connection_id: id,
                state: UtpConnectionState::SynReceived,
                seq_nr: 1,
                ack_nr: ack,
                window_size: DEFAULT_WINDOW,
                last_timestamp: h.timestamp,
            };
            self.store(addr, id, connection);
            let header = build_utp_header(ST_STATE, h.version, id, our_timestamp, ts_diff, DEFAULT_WINDOW, 1, ack);
            let handshake = if payload.len() >= 68 {
                Some(vstd::slice::slice_to_vec(payload))
            } else {
                None
            };
            Ok(UtpAction::SynAck { header, handshake })
        } else if h.packet_type == ST_DATA {
            if known && payload.len() >= 68 {
                Ok(UtpAction::Handshake(vstd::slice::slice_to_vec(payload)))
            } else {
                Ok(UtpAction::Nothing)
            }
        } else if h.packet_type == ST_STATE {
            if !known {
                let window = if h.window_size > DEFAULT_WINDOW {
                    h.window_size
                } else {
                    DEFAULT_WINDOW
                };
                let connection = UtpConnection {
                    connection_id: id,
                    state: UtpConnectionState::Established,
                    seq_nr: 1,
                    ack_nr: h.seq_nr.wrapping_add(1),
                    window_size: window,
                    last_timestamp: h.timestamp,
                };
                self.store(addr, id, connection);
            }
            Ok(UtpAction::Nothing)
        } else if h.packet_type == ST_RESET {
            self.forget(addr, id);
            Ok(UtpAction::Nothing)
        } else {
            Ok(UtpAction::Nothing)
        }
    }
}

/// A data packet carrying a message on connection `connection_id`: the
/// header (data, version 1, the time, window 65536, sequence 1, nothing
/// acknowledged), then the message id and its payload.
pub open spec fn message_packet(connection_id: u16, timestamp: u32, message_id: u8, payload: Seq<u8>) -> Seq<u8> {
    header_bytes(
        UtpHeader {
            packet_type: 0,
            version: 1,
            connection_id,
            timestamp,
            timestamp_difference: 0,
            window_size: 65536,
            seq_nr: 1,
            ack_nr: 0,
        },
    ) + seq![message_id] + payload
}

/// The packet that carries a message over uTP.
pub fn utp_message_packet(connection_id: u16, timestamp: u32, message_type: MessageType, payload: Option<Vec<u8>>) -> (r: Vec<u8>)
    ensures
        r@ == message_packet(
            connection_id,
            timestamp,
            message_type.wire_id(),
            match payload {
                Some(p) => p@,
                None => Seq::empty(),
            },
        ),
{
    let header = build_utp_header(0, 1, connection_id, timestamp, 0, 65536, 1, 0);
    let mut out: Vec<u8> = Vec::new();
    let mut i: usize = 0;
    while i < 20
        invariant
            0 <= i <= 20,
            header@.len() == 20,
            out@ == header@.subrange(0, i as int),
        decreases 20 - i,
    {
        out.push(header[i]);
        proof {
            assert(out@ =~= header@.subrange(0, i + 1));
        }
        i = i + 1;
    }
    proof {
        assert(header@.subrange(0, 20) =~= header@);
    }
    out.push(message_type.id());
    let ghost head = out@;
    match payload {
        Some(p) => {
            let mut j: usize = 0;
            while j < p.len()
                invariant
                    0 <= j <= p@.len(),
                    out@ == head + p@.subrange(0, j as int),
                decreases p@.len() - j,
            {
                out.push(p[j]);
                proof {
                    assert(out@ =~= head + p@.subrange(0, j + 1));
                }
                j = j + 1;
            }
            proof {
                assert(p@.subrange(0, p@.len() as int) =~= p@);
            }
        },
        None => {
            proof {
                assert(out@ =~= head + Seq::<u8>::empty());
            }
        },
    }
    out
}

/// The packet that carries our bitfield over uTP.
pub fn utp_bitfield_packet(connection_id: u16, timestamp: u32, bits: &Bitfield) -> (r: Vec<u8>)
    ensures
        r@ == message_packet(connection_id, timestamp, 5, bits_to_bytes(bits_of(*bits))),
{
    let bytes = bitfield_to_bytes(bits);
    utp_message_packet(connection_id, timestamp, MessageType::Bitfield, Some(bytes))
}

/// The data packet that answers an accepted uTP connection with our
/// handshake: twenty header bytes, of which the first is 1 (a data packet,
/// version 1) and the next two the connection id, big-endian, the rest
/// zero; then the handshake bytes.
pub open spec fn handshake_packet(connection_id: u16, handshake: Seq<u8>) -> Seq<u8> {
    seq![1u8, (connection_id / 256) as u8, (connection_id % 256) as u8] + Seq::new(17, |i: int| 0u8)
        + handshake
}

/// The packet that carries our handshake to a peer that opened a uTP
/// connection.
pub fn utp_handshake_packet(connection_id: u16, handshake: &[u8]) -> (r: Vec<u8>)
    ensures
        r@ == handshake_packet(connection_id, handshake@),
{
    let mut out: Vec<u8> = Vec::new();
    out.push(1u8);
    out.push((connection_id / 256) as u8);
    out.push((connection_id % 256) as u8);
    let ghost first = out@;
    let mut i: usize = 0;
    while i < 17
        invariant
            0 <= i <= 17,
            first.len() == 3,
            out@ == first + Seq::new(i as nat, |k: int| 0u8),
        decreases 17 - i,
    {
        out.push(0u8);
        proof {
            assert(out@ =~= first + Seq::new((i + 1) as nat, |k: int| 0u8));
        }
        i = i + 1;
    }
    proof {
        assert(first =~= seq![1u8, (connection_id / 256) as u8, (connection_id % 256) as u8]);
    }
    let ghost head = out@;
    let mut j: usize = 0;
    while j < handshake.len()
        invariant
            0 <= j <= handshake@.len(),
            out@ == head + handshake@.subrange(0, j as int),
        decreases handshake@.len() - j,
    {
        out.push(handshake[j]);
        proof {
            assert(out@ =~= head + handshake@.subrange(0, j + 1));
        }
        j = j + 1;
    }
    proof {
        assert(handshake@.subrange(0, handshake@.len() as int) =~= handshake@);
    }
    out
}

} // verus!
