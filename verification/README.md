# webtorrent

A BitTorrent client library whose logic is written in Verus and proved
against its contracts: bencode, torrent files and magnet links, the peer
wire protocol and uTP headers, pieces, selections and the chunk store,
tracker requests and replies, peer discovery and exchange, blocklists,
throttling, streaming reads, web seeds, the HTTP server's requests and
replies, and the decisions taken on every incoming or outgoing connection.

## Layout

- `src/` — the verified library. Each module states what its functions
  return over spec functions and views, and public proof functions state
  the laws that relate several calls (for instance, that encoding then
  parsing a bencode value, a handshake, a wire message or a uTP header
  gives back what was encoded, and that a stored block reads back as it
  was written).
- `tests/` — the library's tests, run against the real outside crates.
- `app/` — the program around the library: sockets, files, timers, the
  tokio runtime, the DHT swarm, port mapping and HTTP. It performs the I/O
  and hands the library plain values; every decision is the library's.

Calls into outside crates (SHA-1, hex, base32, URL parsing, `bytes`,
`bitvec`, libp2p records) stand behind small trusted wrappers, each with a
doc comment that says what its contract claims of the outside function.
