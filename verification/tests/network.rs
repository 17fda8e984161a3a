use webtorrent::bitfield::Bitfield;
use webtorrent::connection::{dial_plan, extract_addr, incoming_verdict, outgoing_verdict, AddrPart, DialPlan, IncomingVerdict, OutgoingVerdict};
use webtorrent::dht::{announce_value, bootstrap_nodes, listen_address, DiscoveredPeers};
use webtorrent::discovery::Discovery;
use webtorrent::error::WebTorrentError;
use webtorrent::magnet::MagnetUri;
use webtorrent::pex_round::{discovery_plan, PexRound};
use webtorrent::port_mapping::{parse_protocol, MapStep, MappingType, NatTraversal, TransportProtocol};
use webtorrent::protocol::{Handshake, MessageType};
use webtorrent::tracker::{parse_announce_response, TrackerClient};
use webtorrent::utp::{build_utp_header, parse_utp_header, utp_bitfield_packet, utp_handshake_packet, utp_message_packet, UtpAction, UtpConnectionState, UtpTable};
use webtorrent::webrtc::{WebRtcConnection, generate_sdp_answer, generate_sdp_offer, offer_connection_id, parse_connection_id_from_offer, WebRtcManager};

const HASH_HEX: &str = "0123456789abcdef0123456789abcdef01234567";

fn hash_bytes() -> [u8; 20] {
    let v = hex::decode(HASH_HEX).unwrap();
    let mut a = [0u8; 20];
    a.copy_from_slice(&v);
    a
}

#[test]
fn magnet_parse_and_write() {
    let uri = format!("magnet:?xt=urn:btih:{}&dn=My+File&tr=http%3A%2F%2Ft.example%2Fannounce&xl=1234", HASH_HEX);
    let m = MagnetUri::parse(&uri).unwrap();
    assert_eq!(m.info_hash, hash_bytes());
    assert_eq!(m.display_name.as_deref(), Some("My File"));
    assert_eq!(m.trackers, vec!["http://t.example/announce".to_string()]);
    assert_eq!(m.exact_length, Some(1234));
    let text = m.to_string();
    assert!(text.starts_with("magnet:?xt=urn:btih:0123456789abcdef0123456789abcdef01234567"));
    let again = MagnetUri::parse(&text).unwrap();
    assert_eq!(again.info_hash, m.info_hash);
    assert_eq!(again.trackers, m.trackers);
}

#[test]
fn magnet_errors() {
    assert!(matches!(MagnetUri::parse("http://x"), Err(WebTorrentError::InvalidTorrent(_))));
    assert!(matches!(MagnetUri::parse("magnet:?dn=x"), Err(WebTorrentError::InvalidTorrent(_))));
    assert!(matches!(MagnetUri::parse("magnet:?xt=urn:btih:zz"), Err(WebTorrentError::InvalidTorrent(_))));
}

#[test]
fn tracker_urls() {
    let t = TrackerClient::new("http://t.example/announce".to_string(), [1u8; 20], [2u8; 20], 6881);
    let url = t.announce_request(0, 0, 10, "started").unwrap();
    assert!(url.starts_with("http://t.example/announce?info_hash=%01%01"));
    assert!(url.contains("&port=6881"));
    assert!(url.contains("&left=10"));
    assert!(url.contains("&event=started"));
    let scrape = t.scrape_request().unwrap();
    assert!(scrape.starts_with("http://t.example/scrape?info_hash="));
}

#[test]
fn tracker_replies() {
    let reply = b"d8:intervali900e5:peers6:\x0a\x00\x00\x01\x1a\xe1e";
    let (resp, peers) = parse_announce_response(reply).unwrap();
    assert_eq!(resp.interval, Some(900));
    assert_eq!(peers, vec![("10.0.0.1".to_string(), 6881)]);
    let failure = b"d14:failure reason4:nopee";
    match parse_announce_response(failure) {
        Err(WebTorrentError::Discovery(m)) => assert_eq!(m, "Tracker error: nope"),
        _ => panic!("a refusal is a discovery error"),
    }
    assert!(matches!(parse_announce_response(b"x"), Err(WebTorrentError::Bencode(_))));
}

#[test]
fn utp_headers_and_connections() {
    let h = build_utp_header(4, 1, 1234, 1000, 0, 65536, 7, 0);
    let back = parse_utp_header(&h).unwrap();
    assert_eq!(back.connection_id, 1234);
    assert_eq!(back.seq_nr, 7);
    assert!(parse_utp_header(&h[..10]).is_err());
    let mut table = UtpTable::new();
    let addr = "1.2.3.4:5".to_string();
    let syn = build_utp_header(1, 1, 99, 500, 0, 65536, 10, 0);
    match table.handle_packet(&addr, &syn, 700).unwrap() {
        UtpAction::SynAck { header, handshake } => {
            assert!(handshake.is_none());
            let ack = parse_utp_header(&header).unwrap();
            assert_eq!(ack.packet_type, 2);
            assert_eq!(ack.ack_nr, 11);
            assert_eq!(ack.timestamp, 700);
        }
        _ => panic!("an answer to the request"),
    }
    let c = table.get(&addr, 99).unwrap();
    assert_eq!(c.state, UtpConnectionState::SynReceived);
    let reset = build_utp_header(3, 1, 99, 800, 0, 0, 11, 0);
    assert!(matches!(table.handle_packet(&addr, &reset, 900).unwrap(), UtpAction::Nothing));
    assert!(table.get(&addr, 99).is_none());
}

#[test]
fn utp_message_packets() {
    let p = utp_message_packet(5, 100, MessageType::Have, Some(vec![0, 0, 0, 2]));
    assert_eq!(p.len(), 25);
    assert_eq!(p[20], 4);
    assert_eq!(&p[21..], &[0, 0, 0, 2]);
    let h = parse_utp_header(&p).unwrap();
    assert_eq!((h.packet_type, h.connection_id, h.window_size, h.seq_nr), (0, 5, 65536, 1));
    let mut bits = Bitfield::new();
    bits.push(true);
    bits.push(true);
    let b = utp_bitfield_packet(5, 100, &bits);
    assert_eq!(&b[20..], &[5, 0b1100_0000]);
}

#[test]
fn dht_texts_and_peers() {
    assert_eq!(announce_value(6881), b"0.0.0.0:6881".to_vec());
    assert_eq!(listen_address(0), "/ip4/0.0.0.0/tcp/0");
    assert_eq!(listen_address(4000), "/ip4/0.0.0.0/tcp/4000");
    assert_eq!(bootstrap_nodes().len(), 3);
    let mut peers = DiscoveredPeers::new();
    let value = b"d2:ip8:10.0.0.14:porti6881ee";
    let found = peers.record_found(value);
    assert_eq!(found, Some(("10.0.0.1".to_string(), 6881)));
    assert_eq!(peers.record_found(value), None);
    assert_eq!(peers.record_found(b"x"), None);
    assert!(peers.contains("10.0.0.1", 6881));
    peers.remove("10.0.0.1", 6881);
    assert!(!peers.contains("10.0.0.1", 6881));
}

#[test]
fn discovery_keeps_peers_once() {
    let mut d = Discovery::new();
    assert!(d.ensure_live().is_ok());
    let round = d.record_peers(vec![
        ("1.1.1.1".to_string(), 1),
        ("2.2.2.2".to_string(), 2),
        ("1.1.1.1".to_string(), 1),
    ]);
    assert_eq!(round, vec![("1.1.1.1".to_string(), 1), ("2.2.2.2".to_string(), 2)]);
    d.add_pex_peer("3.3.3.3".to_string(), 3);
    assert!(d.destroy());
    assert!(!d.destroy());
    assert!(matches!(d.ensure_live(), Err(WebTorrentError::Discovery(_))));
}

#[test]
fn connection_decisions() {
    assert_eq!(dial_plan(6881, 6881), DialPlan::Skip);
    assert_eq!(dial_plan(7000, 6881), DialPlan::LocalhostFirst);
    assert_eq!(dial_plan(0, 6881), DialPlan::Direct);
    assert_eq!(dial_plan(7000, 51413), DialPlan::Direct);
    let ours = [1u8; 20];
    let theirs = Handshake::new([5u8; 20], [2u8; 20]);
    assert_eq!(outgoing_verdict([6u8; 20], ours, &theirs, false), OutgoingVerdict::InfoHashMismatch);
    assert_eq!(outgoing_verdict([5u8; 20], ours, &theirs, false), OutgoingVerdict::Accept);
    assert_eq!(outgoing_verdict([5u8; 20], ours, &theirs, true), OutgoingVerdict::AlreadyConnected);
    assert_eq!(outgoing_verdict([5u8; 20], [2u8; 20], &theirs, false), OutgoingVerdict::OwnClient);
    assert_eq!(incoming_verdict(ours, &theirs, true, true, false), IncomingVerdict::Blocked);
    assert_eq!(incoming_verdict([2u8; 20], &theirs, false, true, false), IncomingVerdict::OwnClient);
    assert_eq!(incoming_verdict(ours, &theirs, false, false, false), IncomingVerdict::UnknownTorrent);
    assert_eq!(incoming_verdict(ours, &theirs, false, true, true), IncomingVerdict::AlreadyConnected);
    assert_eq!(incoming_verdict(ours, &theirs, false, true, false), IncomingVerdict::Accept);
}

#[test]
fn addresses_from_parts() {
    let parts = vec![AddrPart::Ip("10.0.0.1".to_string()), AddrPart::Tcp(80), AddrPart::Other, AddrPart::Ip("10.0.0.2".to_string())];
    assert_eq!(extract_addr(&parts), Some(("10.0.0.2".to_string(), 80)));
    assert_eq!(extract_addr(&vec![AddrPart::Tcp(1)]), None);
}

#[test]
fn test_generate_sdp_offer() {
    let info_hash = [0u8; 20];
    let offer = generate_sdp_offer("test_conn", info_hash).unwrap();
    assert!(offer.contains("webrtc-datachannel"));
}

#[test]
fn sdp_texts() {
    let offer = generate_sdp_offer("c1", [0xabu8; 20]).unwrap();
    assert!(offer.starts_with("v=0\r\no=- c1 2 IN IP4 127.0.0.1\r\n"));
    assert!(offer.contains("a=ice-ufrag:c1\r\na=ice-pwd:c1\r\n"));
    assert!(offer.contains("a=fingerprint:sha-256 abababababababababababababababab\r\n"));
    assert!(offer.contains("a=setup:actpass\r\n"));
    assert!(offer.ends_with("a=max-message-size:262144\r\n"));
    let answer = generate_sdp_answer("c1", [0xabu8; 20]).unwrap();
    assert!(answer.contains("a=setup:active\r\n"));
    assert_eq!(offer_connection_id(hash_bytes()), "webrtc_0123456789abcdef");
    let id = parse_connection_id_from_offer("offer text").unwrap();
    assert!(id.starts_with("webrtc_"));
    assert_eq!(id.len(), 7 + 16);
}

#[test]
fn webrtc_signalling() {
    let mut m = WebRtcManager::new();
    let offer = m.create_offer("peer", hash_bytes()).unwrap();
    assert!(offer.contains("a=setup:actpass"));
    assert!(m.handle_answer("answer", "webrtc_0123456789abcdef").is_ok());
    assert!(matches!(m.handle_answer("answer", "nope"), Err(WebTorrentError::Network(_))));
    assert!(m.add_ice_candidate("cand", "webrtc_0123456789abcdef").is_ok());
    assert_eq!(m.mark_connected("webrtc_0123456789abcdef").unwrap(), "peer");
    let answer = m.handle_offer("remote offer", "other", hash_bytes()).unwrap();
    assert!(answer.contains("a=setup:active"));
    let id = parse_connection_id_from_offer("remote offer").unwrap();
    assert!(m.handle_answer("x", &id).is_ok());
    m.destroy().unwrap();
    assert!(matches!(m.create_offer("p", hash_bytes()), Err(WebTorrentError::Network(_))));
}

#[test]
fn port_mapping_steps() {
    assert_eq!(parse_protocol("TCP"), Some(TransportProtocol::Tcp));
    assert_eq!(parse_protocol("uDp"), Some(TransportProtocol::Udp));
    assert_eq!(parse_protocol("sctp"), None);
    let mut nat = NatTraversal::new(true, true).unwrap();
    assert_eq!(nat.first_step(6881, 6881, "TCP").unwrap(), MapStep::TryUpnp);
    assert_eq!(nat.after_upnp(6881, 6881, "TCP", "torrent", false).unwrap(), MapStep::TryPmp);
    assert_eq!(nat.after_pmp(6881, 6881, "TCP", "torrent", Ok(())).unwrap(), MapStep::Done);
    assert!(nat.is_mapped(6881, 6881, "TCP"));
    assert_eq!(nat.first_step(6881, 6881, "TCP").unwrap(), MapStep::Done);
    assert_eq!(nat.get_mappings(), vec![(6881, 6881, "TCP".to_string(), "torrent".to_string())]);
    assert_eq!(nat.unmap_port(6881, 6881, "TCP").unwrap(), Some(MappingType::Pmp));
    assert_eq!(nat.unmap_port(6881, 6881, "TCP").unwrap(), None);
    let off = NatTraversal::new(false, false).unwrap();
    assert!(matches!(off.first_step(1, 1, "UDP"), Err(WebTorrentError::Nat(_))));
    let mut upnp_only = NatTraversal::new(true, false).unwrap();
    assert!(matches!(upnp_only.after_upnp(1, 1, "UDP", "x", false), Err(WebTorrentError::Nat(_))));
    assert_eq!(upnp_only.after_upnp(1, 1, "UDP", "x", true).unwrap(), MapStep::Done);
    assert_eq!(upnp_only.destroy().len(), 1);
    assert!(matches!(upnp_only.first_step(1, 1, "UDP"), Err(WebTorrentError::Nat(_))));
}

#[test]
fn pex_rounds() {
    assert_eq!(discovery_plan(false, false, true, true), None);
    assert_eq!(discovery_plan(true, false, true, true), Some((false, true, true)));
    assert_eq!(discovery_plan(true, true, true, true), Some((false, false, false)));
    let mut r = PexRound::new();
    let (added, dropped) = r.round(&vec!["1.1.1.1:10".to_string(), "bad".to_string(), "2.2.2.2:020".to_string(), "1.1.1.1:10".to_string()]);
    assert_eq!(added, vec![("1.1.1.1".to_string(), 10), ("2.2.2.2".to_string(), 20)]);
    assert!(dropped.is_empty());
    let (added, dropped) = r.round(&vec!["2.2.2.2:20".to_string(), "3.3.3.3:30".to_string()]);
    assert_eq!(added, vec![("3.3.3.3".to_string(), 30)]);
    assert_eq!(dropped, vec![("1.1.1.1".to_string(), 10)]);
    let (added, dropped) = r.round(&vec![]);
    assert!(added.is_empty());
    assert_eq!(dropped.len(), 2);
}

#[test]
fn utp_handshake_packet_layout() {
    let p = utp_handshake_packet(0x1234, &[9, 8]);
    let mut expected = vec![1u8, 0x12, 0x34];
    expected.extend_from_slice(&[0u8; 17]);
    expected.extend_from_slice(&[9, 8]);
    assert_eq!(p, expected);
    assert_eq!(utp_handshake_packet(7, &[]).len(), 20);
}

#[test]
fn test_webrtc_manager_new() {
    let mut m = WebRtcManager::new();
    assert!(m.handle_answer("v=0", "missing").is_err());
    assert!(m.destroy().is_ok());
}

#[test]
fn webrtc_connection_getters() {
    let c = WebRtcConnection {
        peer_id: "peer".to_string(),
        connection_id: "conn".to_string(),
        offer: None,
        answer: None,
        ice_candidates: vec![],
        connected: true,
        destroyed: false,
    };
    assert!(c.is_connected());
    assert_eq!(c.peer_id(), "peer");
    assert_eq!(c.connection_id(), "conn");
}

#[test]
fn magnet_reads_base32_hash() {
    let m = MagnetUri::parse("magnet:?xt=urn:btih:AERUKZ4JVPG66AJDIVTYTK6N54ASGRLH").unwrap();
    assert_eq!(m.info_hash, hash_bytes());
    let lower = MagnetUri::parse("magnet:?xt=urn:btih:aeruKZ4JVPG66AJDIVTYTK6N54ASGRLH").unwrap();
    assert_eq!(lower.info_hash, hash_bytes());
    assert!(MagnetUri::parse("magnet:?xt=urn:btih:1ERUKZ4JVPG66AJDIVTYTK6N54ASGRLH").is_err());
}

#[test]
fn magnet_written_reads_back() {
    let m = MagnetUri {
        info_hash: hash_bytes(),
        display_name: Some("a b+c&d".to_string()),
        trackers: vec!["udp://t.example:80".to_string(), "http://u.example/a?b=c".to_string()],
        exact_length: Some(42),
        exact_source: Some("http://x.example/f".to_string()),
        keywords: vec![],
        acceptable_source: vec!["http://y.example/g".to_string()],
    };
    let back = MagnetUri::parse(&m.to_string()).unwrap();
    assert_eq!(back.info_hash, m.info_hash);
    assert_eq!(back.display_name, m.display_name);
    assert_eq!(back.trackers, m.trackers);
    assert_eq!(back.exact_length, m.exact_length);
    assert_eq!(back.exact_source, m.exact_source);
    assert!(back.keywords.is_empty());
    assert_eq!(back.acceptable_source, m.acceptable_source);
}
