use bytes::Bytes;
use webtorrent::bitfield::Bitfield;
use sha1::{Digest, Sha1};
use webtorrent::error::WebTorrentError;
use webtorrent::file::File;
use webtorrent::peer::{Peer, PeerType};
use webtorrent::protocol::bitfield_from_bytes;
use webtorrent::rarity_map::RarityMap;
use webtorrent::store::MemoryChunkStore;
use webtorrent::torrent::{files_fit_check, parse_torrent_file, read_torrent_file, Torrent};
use webtorrent::torrent_creator::TorrentCreator;
use webtorrent::wire::{pex_message, MessageOutcome, Wire};

#[test]
fn store_reads_what_was_written() {
    let mut store = MemoryChunkStore::new();
    assert!(matches!(store.get(0, 0, 4), Err(WebTorrentError::Store(_))));
    store.put(0, Bytes::from_static(b"hello world")).unwrap();
    assert_eq!(&store.get(0, 6, 5).unwrap()[..], b"world");
    assert_eq!(&store.get(0, 6, 100).unwrap()[..], b"world");
    store.put(0, Bytes::from_static(b"bye")).unwrap();
    assert_eq!(&store.get(0, 0, 3).unwrap()[..], b"bye");
    store.close().unwrap();
    store.destroy().unwrap();
    assert!(store.get(0, 0, 1).is_err());
}

#[test]
fn rarity_picks_least_common_piece() {
    let mut map = RarityMap::new(4);
    let a = bitfield_from_bytes(vec![0b1110_0000]);
    let b = bitfield_from_bytes(vec![0b1100_0000]);
    map.update_peer(&a);
    map.update_peer(&b);
    assert_eq!(map.get_rarest_piece(|_| true), Some(2));
    assert_eq!(map.get_rarest_piece(|i| i != 2).map(|i| i < 2), Some(true));
    assert_eq!(map.get_rarest_piece(|_| false), None);
    map.remove_peer(&a);
    assert_eq!(map.get_rarest_piece(|_| true), Some(2));
    assert!(matches!(map.get_rarest_piece(|i| i != 2), Some(0) | Some(1)));
    map.destroy();
    assert_eq!(map.get_rarest_piece(|_| true), None);
}

#[test]
fn wire_flags_and_messages() {
    let mut w = Wire::new("tcp".to_string());
    assert!(w.peer_choking());
    assert!(w.am_choking());
    assert!(matches!(w.handle_message(&[1]), MessageOutcome::Handled));
    assert!(!w.peer_choking());
    assert!(matches!(w.handle_message(&[2]), MessageOutcome::Handled));
    assert!(w.peer_interested());
    w.set_peer_pieces(Bitfield::filled(8, false));
    w.handle_message(&[4, 0, 0, 0, 3]);
    assert!(w.peer_pieces().get(3));
    w.handle_message(&[4, 0, 0, 0, 9]);
    assert_eq!(w.peer_pieces().len(), 8);
    w.handle_message(&[6, 0, 0, 0, 1, 0, 0, 0, 0, 0, 0, 64, 0]);
    let reqs = w.requests();
    assert_eq!(reqs.len(), 1);
    assert_eq!((reqs[0].piece, reqs[0].offset, reqs[0].length), (1, 0, 16384));
    assert!(matches!(w.handle_message(&[7, 0, 0, 0, 1, 0, 0, 0, 0, 9, 9, 9]), MessageOutcome::Downloaded(3)));
    assert!(matches!(w.handle_message(&[99]), MessageOutcome::Unknown));
    w.unchoke();
    assert!(!w.am_choking());
    w.choke();
    assert!(w.am_choking());
    w.destroy().unwrap();
    assert!(w.destroyed());
}

#[test]
fn wire_peer_exchange() {
    let mut w = Wire::new("tcp".to_string());
    w.enable_pex();
    let payload = w.send_pex_update(vec![("1.2.3.4".to_string(), 6881)], vec![]).unwrap();
    assert_eq!(&payload[..], &[1, 2, 3, 4, 0x1a, 0xe1]);
    let framed = pex_message(&payload);
    assert_eq!(&framed[..4], &[0, 0, 0, 8]);
    let body = &framed[4..];
    assert_eq!(body[0], 20);
    assert_eq!(body[1], 1);
    match w.handle_message(body) {
        MessageOutcome::Pex(added, dropped) => {
            assert_eq!(added, vec![("1.2.3.4".to_string(), 6881)]);
            assert!(dropped.is_empty());
        }
        _ => panic!("a peer-exchange message"),
    }
    let again = pex_message(&[1, 2, 3, 4, 0, 80]);
    assert_eq!(again, vec![0, 0, 0, 8, 20, 1, 1, 2, 3, 4, 0, 80]);
}

#[test]
fn peers_and_files() {
    let p = Peer::new("abc".to_string(), PeerType::TcpIncoming).with_addr("1.2.3.4:5".to_string());
    assert_eq!(p.id(), "abc");
    assert_eq!(p.peer_type(), PeerType::TcpIncoming);
    assert_eq!(p.addr(), Some("1.2.3.4:5"));
    assert!(!p.connected());
    let f = File::new("dir/sub/movie.mp4".to_string(), 100, 50);
    assert_eq!(f.name(), "movie.mp4");
    assert_eq!(f.path(), "dir/sub/movie.mp4");
    assert_eq!(f.start_piece(32), 1);
    assert_eq!(f.end_piece(32), 4);
    assert!(f.includes_piece(3, 32));
    assert!(!f.includes_piece(5, 32));
}

#[test]
fn created_torrent_reads_back() {
    let data = Bytes::from(vec![7u8; 40000]);
    let creator = TorrentCreator::new()
        .with_piece_length(16384)
        .with_announce(vec!["http://tracker.example/announce".to_string()])
        .with_comment("hello".to_string());
    let (file, hash) = creator.create_from_data("seven.bin".to_string(), data).unwrap();
    let meta = parse_torrent_file(file).unwrap();
    assert_eq!(meta.info_hash, hash);
    assert_eq!(meta.name, "seven.bin");
    assert_eq!(meta.length, 40000);
    assert_eq!(meta.piece_length, 16384);
    assert_eq!(meta.piece_hashes.len(), 3);
    let expected: [u8; 20] = Sha1::digest([7u8; 16384]).into();
    assert_eq!(meta.piece_hashes[0], expected);
    assert_eq!(meta.announce, vec!["http://tracker.example/announce".to_string()]);
    let t = Torrent::new(meta);
    assert_eq!(t.length(), 40000);
    assert_eq!(t.files().len(), 1);
    assert_eq!(t.get_bitfield().len(), 3);
}

#[test]
fn torrent_file_errors() {
    assert!(matches!(parse_torrent_file(Bytes::from_static(b"x")), Err(WebTorrentError::Bencode(_))));
    assert!(matches!(parse_torrent_file(Bytes::from_static(b"d4:spami1ee")), Err(WebTorrentError::InvalidTorrent(_))));
}

#[test]
fn selecting_files() {
    let data = Bytes::from(vec![1u8; 1000]);
    let (file, _) = TorrentCreator::new().with_piece_length(256).create_from_data("a".to_string(), data).unwrap();
    let mut t = Torrent::new(parse_torrent_file(file).unwrap());
    assert!(t.select(0, 3).unwrap());
    assert!(t.is_file_selected(0));
    assert_eq!(t.get_file_priority(0), Some(3));
    assert_eq!(t.get_selected_files(), vec![0]);
    let s = t.selections().get(0).unwrap();
    assert_eq!((s.from, s.to), (0, 3));
    assert!(t.select(1, 3).is_err());
    assert!(t.deselect(0).unwrap());
    assert!(!t.is_file_selected(0));
    assert!(t.selections().is_empty());
    assert_eq!(t.get_file_priority(0), None);
    assert!(t.critical(0).unwrap());
    assert_eq!(t.get_file_priority(0), Some(7));
    assert_eq!(t.num_peers(), 0);
    assert!(t.add_web_seed("http://seed.example/a".to_string()).is_ok());
    assert_eq!(t.num_peers(), 1);
    assert!(t.add_web_seed("http://seed.example/a".to_string()).is_err());
    assert!(t.add_web_seed("ftp://seed.example/a".to_string()).is_err());
    assert!(t.add_web_seed("http://".to_string()).is_err());
    assert_eq!(t.num_peers(), 1);
    t.destroy().unwrap();
    assert!(t.select(0, 1).is_err());
}

#[test]
fn rarity_leave_undoes_join() {
    let mut map = RarityMap::new(3);
    let a = bitfield_from_bytes(vec![0b1110_0000]);
    let b = bitfield_from_bytes(vec![0b1100_0000]);
    map.update_peer(&a);
    map.remove_peer(&a);
    map.update_peer(&b);
    assert_eq!(map.get_rarest_piece(|_| true), Some(2));
    map.remove_peer(&b);
    map.update_peer(&b);
    assert_eq!(map.get_rarest_piece(|_| true), Some(2));
}

#[test]
fn created_torrent_default_piece_length() {
    let (file, _) = TorrentCreator::new().create_from_data("d".to_string(), Bytes::from(vec![1u8; 10])).unwrap();
    let meta = parse_torrent_file(file).unwrap();
    assert_eq!(meta.piece_length, 262144);
    assert!(meta.announce.is_empty());
}

#[test]
fn read_torrent_file_checks_first() {
    assert!(matches!(read_torrent_file(Bytes::from_static(b"x")), Err(WebTorrentError::Bencode(_))));
    let huge = format!("l{}:abe", u64::MAX);
    assert!(matches!(read_torrent_file(Bytes::from(huge.into_bytes())), Err(WebTorrentError::InvalidTorrent(_))));
    let over = b"d4:infod5:filesld6:lengthi-1e4:pathl1:aeed6:lengthi1e4:pathl1:beee4:name1:x12:piece lengthi16384e6:pieces0:ee";
    let (v, _) = webtorrent::parse_bencode(over).unwrap();
    assert!(!files_fit_check(&v));
    assert!(matches!(read_torrent_file(Bytes::from_static(over)), Err(WebTorrentError::InvalidTorrent(_))));
    let (file, hash) = TorrentCreator::new().with_piece_length(16).create_from_data("r".to_string(), Bytes::from(vec![2u8; 40])).unwrap();
    let meta = read_torrent_file(file).unwrap();
    assert_eq!(meta.info_hash, hash);
}
