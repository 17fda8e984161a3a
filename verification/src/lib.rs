//! A BitTorrent client library: bencode codec, wire protocol, piece and
//! selection bookkeeping, tracker and magnet handling.

pub mod bitfield;
pub mod buffer;
pub mod error;
pub mod protocol;
pub mod text;
pub mod decimal;
pub mod bencode_parser;
pub mod bencode_order;
pub mod ipv4;
pub mod extensions;
pub mod selections;
pub mod piece;
pub mod file;
pub mod store;
pub mod rarity_map;
pub mod wire;
pub mod dht;
pub mod digest;
pub mod keys;
pub mod torrent;
pub mod torrent_creator;
pub mod codecs;
pub mod magnet;
pub mod tracker;
pub mod table;
pub mod utp;
pub mod server;
pub mod peer;
pub mod client;
pub mod throttling;
pub mod blocklist;
pub mod streaming;
pub mod webseed;
pub mod connection;
pub mod webrtc;
pub mod port_mapping;
pub mod http;
pub mod responses;
pub mod discovery;
pub mod pex_round;

pub use bencode_parser::{parse_bencode, BencodeValue};
pub use client::{TorrentId, WebTorrentOptions};
pub use error::{Result, WebTorrentError};
pub use extensions::{ExtensionProtocol, UtMetadata, UtPex};
pub use file::File;
pub use magnet::MagnetUri;
pub use piece::Piece;
pub use port_mapping::NatTraversal;
pub use protocol::{Handshake, MessageType};
pub use rarity_map::RarityMap;
pub use selections::{Selection, Selections};
pub use store::MemoryChunkStore;
pub use throttling::ThrottleGroup;
pub use torrent::Torrent;
pub use torrent_creator::TorrentCreator;

use vstd::prelude::*;

verus! {

/// Version string of this library.
pub const VERSION: &'static str = "0.1.0";

} // verus!
