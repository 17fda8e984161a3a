//! The error type of the library.

use vstd::prelude::*;

verus! {

/// Everything that can go wrong in the library.
#[derive(Debug, Clone)]
pub enum WebTorrentError {
    Io(String),
    Bencode(String),
    InvalidTorrent(String),
    InvalidInfoHash(String),
    Network(String),
    Protocol(String),
    Peer(String),
    Store(String),
    Nat(String),
    Discovery(String),
    TorrentDestroyed,
    ClientDestroyed,
    InvalidPeerAddress(String),
    ConnectionTimeout,
    HandshakeTimeout,
    InvalidPieceIndex(usize),
    InvalidBlockRequest,
    PieceVerificationFailed,
    DuplicateTorrent(String),
}

/// The result type of the library.
pub type Result<T> = std::result::Result<T, WebTorrentError>;

/// An error of the bencode parser.
pub fn bencode_error(text: &str) -> (e: WebTorrentError)
    ensures
        e matches WebTorrentError::Bencode(m) && m@ == text@,
{
    WebTorrentError::Bencode(text.to_string())
}

/// An error about torrent metadata or its sources.
pub fn invalid_torrent(text: &str) -> (e: WebTorrentError)
    ensures
        e matches WebTorrentError::InvalidTorrent(m) && m@ == text@,
{
    WebTorrentError::InvalidTorrent(text.to_string())
}

/// An error of the peer wire protocol.
pub fn protocol_error(text: &str) -> (e: WebTorrentError)
    ensures
        e matches WebTorrentError::Protocol(m) && m@ == text@,
{
    WebTorrentError::Protocol(text.to_string())
}

/// An error of the network layer.
pub fn network_error(text: &str) -> (e: WebTorrentError)
    ensures
        e matches WebTorrentError::Network(m) && m@ == text@,
{
    WebTorrentError::Network(text.to_string())
}

} // verus!
