use bytes::Bytes;
use webtorrent::client::{
    make_peer_id, parse_torrent_id, seed_announce, MetadataSource, SpeedTracker, TorrentId, TorrentRegistry, TrackerConfig,
    WebTorrentOptions,
};
use webtorrent::error::WebTorrentError;
use webtorrent::file::File;
use webtorrent::http::{file_target, parse_http_request, FileTarget, HttpRoute};
use webtorrent::responses::{cors_preflight_response, error_response, file_reads, file_response, torrent_info_page, FileResponse};
use webtorrent::server::{encode_text, get_mime_type, parse_range_header};
use webtorrent::store::MemoryChunkStore;
use webtorrent::streaming::{next_read, TorrentReadStream};
use webtorrent::throttling::{apply_limit, ThrottleGroup};
use webtorrent::torrent::{parse_torrent_file, Torrent};
use webtorrent::torrent_creator::TorrentCreator;
use webtorrent::webseed::{assemble_chunks, range_header_value, WebSeedConn};

const HASH_HEX: &str = "0123456789abcdef0123456789abcdef01234567";

#[test]
fn html_escape_and_mime() {
    assert_eq!(encode_text("<a href=\"x\">Tom & 'Jerry'</a>"), "&lt;a href=&quot;x&quot;&gt;Tom &amp; &#x27;Jerry&#x27;&lt;/a&gt;");
    assert_eq!(get_mime_type("movie.MP4"), "video/mp4");
    assert_eq!(get_mime_type("page.htm"), "text/html");
    assert_eq!(get_mime_type("archive.tar.gz"), "application/octet-stream");
    assert_eq!(get_mime_type("README"), "application/octet-stream");
}

#[test]
fn range_headers() {
    assert_eq!(parse_range_header("bytes=0-1023", 5000).unwrap(), (0, 1024));
    assert_eq!(parse_range_header("bytes=0-1023", 4096).unwrap(), (0, 1024));
    assert_eq!(parse_range_header("bytes=0-4095", 4096).unwrap(), (0, 4096));
    assert_eq!(parse_range_header("bytes=0-0", 4096).unwrap(), (0, 1));
    assert_eq!(parse_range_header("bytes=1024-", 5000).unwrap(), (1024, 5000));
    assert_eq!(parse_range_header("bytes=-", 5000).unwrap(), (0, 5000));
    assert_eq!(parse_range_header("bytes=10-9999", 5000).unwrap(), (10, 5000));
    assert!(matches!(parse_range_header("items=0-1", 5000), Err(WebTorrentError::InvalidTorrent(_))));
    assert!(matches!(parse_range_header("bytes=1-2-3", 5000), Err(WebTorrentError::InvalidTorrent(_))));
    assert!(matches!(parse_range_header("bytes=a-2", 5000), Err(WebTorrentError::InvalidTorrent(_))));
}

#[test]
fn http_routes() {
    let req = format!("GET /{}/2 HTTP/1.1\r\nHost: x\r\nRange: bytes=0-9\r\n\r\n", HASH_HEX);
    match parse_http_request(req.as_bytes()) {
        HttpRoute::Torrent { info_hash, file_part, head, range } => {
            assert_eq!(hex::encode(info_hash), HASH_HEX);
            assert_eq!(file_part.as_deref(), Some("2"));
            assert!(!head);
            assert_eq!(range.as_deref(), Some("bytes=0-9"));
        }
        _ => panic!("a torrent route"),
    }
    let head = format!("HEAD //{} HTTP/1.1\r\nrAnGe:  bytes=5-  \r\n\r\nRange: ignored\r\n", HASH_HEX);
    match parse_http_request(head.as_bytes()) {
        HttpRoute::Torrent { file_part, head, range, .. } => {
            assert!(head);
            assert!(file_part.is_none());
            assert_eq!(range.as_deref(), Some("bytes=5-"));
        }
        _ => panic!("a torrent route"),
    }
    assert!(matches!(parse_http_request(b""), HttpRoute::Ignore));
    assert!(matches!(parse_http_request(b"GET\r\n"), HttpRoute::BadRequest));
    assert!(matches!(parse_http_request(b"OPTIONS / HTTP/1.1\r\n"), HttpRoute::Preflight));
    assert!(matches!(parse_http_request(b"POST /x HTTP/1.1\r\n"), HttpRoute::MethodNotAllowed));
    assert!(matches!(parse_http_request(b"GET / HTTP/1.1\r\n"), HttpRoute::NotFound));
    assert!(matches!(parse_http_request(b"GET /xyz HTTP/1.1\r\n"), HttpRoute::InvalidInfoHash));
    assert!(matches!(parse_http_request(b"GET /abcd HTTP/1.1\r\n"), HttpRoute::BadInfoHashLength));
    assert_eq!(file_target("1", 3), FileTarget::Index(1));
    assert_eq!(file_target("3", 3), FileTarget::NotFound);
    assert_eq!(file_target("x", 3), FileTarget::Invalid);
}

#[test]
fn answers() {
    assert_eq!(error_response(404, "Not Found"), "HTTP/1.1 404 Not Found\r\nContent-Type: text/plain\r\nContent-Length: 9\r\nAccess-Control-Allow-Origin: *\r\n\r\nNot Found");
    assert!(cors_preflight_response().starts_with("HTTP/1.1 204 No Content\r\n"));
    match file_response("a \"b\".mp4", 100, Some("bytes=10-19")).unwrap() {
        FileResponse::Serve { head, start, length } => {
            assert_eq!((start, length), (10, 10));
            assert!(head.starts_with("HTTP/1.1 206 Partial Content\r\nContent-Range: bytes 10-19/100\r\n"));
            assert!(head.contains("Content-Type: video/mp4\r\nContent-Length: 10\r\n"));
            assert!(head.contains("filename=\"a \\\"b\\\".mp4\""));
            assert!(head.ends_with("\r\n\r\n"));
        }
        _ => panic!("a ranged answer"),
    }
    match file_response("x.txt", 100, None).unwrap() {
        FileResponse::Serve { head, start, length } => {
            assert_eq!((start, length), (0, 100));
            assert!(head.starts_with("HTTP/1.1 200 OK\r\nContent-Type: text/plain\r\nContent-Length: 100\r\n"));
        }
        _ => panic!("a whole answer"),
    }
    assert!(matches!(file_response("x", 100, Some("bytes=100-")).unwrap(), FileResponse::RangeNotSatisfiable));
    assert!(matches!(file_response("x", 100, Some("nope")), Err(WebTorrentError::InvalidTorrent(_))));
    let files = vec![File::new("a/<b>.txt".to_string(), 5, 0)];
    let (head, page) = torrent_info_page("T&T", [0u8; 20], &files);
    assert_eq!(page, "<!DOCTYPE html><html><head><title>T&amp;T</title></head><body><h1>T&amp;T</h1><ul><li><a href=\"/0000000000000000000000000000000000000000/0\">a/&lt;b&gt;.txt</a> (5)</li></ul></body></html>");
    assert!(head.contains(&format!("Content-Length: {}\r\n", page.len())));
}

#[test]
fn reads_for_a_range() {
    assert_eq!(file_reads(0, 100, 32, 10, 50), vec![(0, 10, 22), (1, 0, 28)]);
    assert_eq!(file_reads(0, 100, 32, 0, 100), vec![(0, 0, 32), (1, 0, 32), (2, 0, 32), (3, 0, 4)]);
}

#[test]
fn throttle_buckets() {
    let mut g = ThrottleGroup::new(100, true, 0);
    assert_eq!(g.tokens(), 100);
    assert!(g.try_consume(60, 10, 0));
    assert_eq!(g.tokens(), 40);
    assert!(!g.try_consume(50, 20, 5));
    assert_eq!(g.tokens(), 45);
    assert_eq!(g.tokens_needed(50), 5);
    g.update_tokens(30, 1000);
    assert_eq!(g.tokens(), 100);
    assert_eq!(g.last_update(), 30);
    g.set_enabled(false, 40, 0);
    assert_eq!(g.tokens(), u64::MAX);
    assert!(g.try_consume(1_000_000, 50, 0));
    apply_limit(&mut g, Some(10), 60, 0);
    assert!(g.enabled());
    assert_eq!(g.rate(), 10);
    assert_eq!(g.tokens(), 10);
    apply_limit(&mut g, None, 70, 0);
    assert!(!g.enabled());
    g.destroy();
    assert_eq!(g.tokens(), 0);
}

#[test]
fn streaming_reads() {
    assert_eq!(next_read(100, 1000, 256, 0), Some((0, 100, 1000)));
    assert_eq!(next_read(0, 200000, 65536, 70000), Some((1, 4464, 65536)));
    assert_eq!(next_read(0, 10, 4, 10), None);
    let data = Bytes::from(vec![9u8; 1000]);
    let (file, _) = TorrentCreator::new().with_piece_length(256).create_from_data("f".to_string(), data).unwrap();
    let mut t = Torrent::new(parse_torrent_file(file).unwrap());
    assert!(matches!(TorrentReadStream::new(&mut t, 1), Err(WebTorrentError::InvalidTorrent(_))));
    let mut s = TorrentReadStream::new(&mut t, 0).unwrap();
    assert_eq!(t.selections().len(), 2);
    assert_eq!(t.get_file_priority(0), Some(7));
    let mut store = MemoryChunkStore::new();
    store.put(0, Bytes::from(vec![1u8; 256])).unwrap();
    let first = s.read_internal(Some(&store), 100).unwrap();
    assert_eq!(first, vec![1u8; 100]);
    assert_eq!(s.position(), 100);
    let rest = s.read_internal(Some(&store), 1000).unwrap();
    assert_eq!(rest.len(), 156);
    assert_eq!(s.position(), 256);
    assert!(s.read_internal(Some(&store), 10).unwrap().is_empty());
    assert_eq!(s.position(), 256);
    s.advance(744);
    assert!(s.is_eof());
    assert!(s.read_internal(None, 10).unwrap().is_empty());
    s.destroy().unwrap();
    assert!(matches!(s.read_internal(None, 10), Err(WebTorrentError::Network(_))));
}

#[test]
fn web_seed_requests() {
    assert!(matches!(WebSeedConn::new("not a url".to_string(), 16, vec![]), Err(WebTorrentError::InvalidTorrent(_))));
    assert!(matches!(WebSeedConn::new("ftp://x/y".to_string(), 16, vec![]), Err(WebTorrentError::InvalidTorrent(_))));
    let mut single = WebSeedConn::new("http://seed.example/file.bin".to_string(), 16, vec![("file.bin".to_string(), 100, 0)]).unwrap();
    assert_eq!(single.conn_id(), "http://seed.example/file.bin");
    single.init(7).unwrap();
    assert_eq!(single.wire().peer_pieces().len(), 7);
    let r = single.range_requests(2, 4, 8).unwrap();
    assert_eq!(r.len(), 1);
    assert_eq!((r[0].url.as_str(), r[0].start, r[0].end, r[0].file_offset_in_range), ("http://seed.example/file.bin", 36, 43, 0));
    let multi = WebSeedConn::new(
        "http://seed.example/dir".to_string(),
        10,
        vec![("a.txt".to_string(), 15, 0), ("b.txt".to_string(), 15, 15)],
    )
    .unwrap();
    let r = multi.range_requests(1, 0, 10).unwrap();
    assert_eq!(r.len(), 2);
    assert_eq!((r[0].url.as_str(), r[0].start, r[0].end, r[0].file_offset_in_range), ("http://seed.example/dir/a.txt", 10, 14, 0));
    assert_eq!((r[1].url.as_str(), r[1].start, r[1].end, r[1].file_offset_in_range), ("http://seed.example/dir/b.txt", 0, 4, 5));
    assert!(matches!(multi.range_requests(5, 0, 10), Err(WebTorrentError::Network(_))));
    single.destroy().unwrap();
    assert!(matches!(single.range_requests(0, 0, 1), Err(WebTorrentError::Network(_))));
    assert!(single.init(1).is_err());
    assert_eq!(range_header_value(36, 43), "bytes=36-43");
    assert_eq!(assemble_chunks(vec![(5, vec![3, 4]), (0, vec![1, 2]), (5, vec![5])]), vec![1, 2, 3, 4, 5]);
}

#[test]
fn client_pieces() {
    let o = WebTorrentOptions::default();
    assert_eq!(o.max_conns, 55);
    assert!(o.utp && o.lsd && o.ut_pex && o.web_seeds);
    assert!(o.download_limit.is_none());
    let cfg = TrackerConfig { announce: vec!["http://a".to_string()] };
    assert_eq!(cfg.duplicate().announce, vec!["http://a".to_string()]);
    let id = make_peer_id([7u8; 12]);
    assert_eq!(&id[..8], b"-WW0001-");
    assert_eq!(&id[8..], &[7u8; 12]);
    assert!(matches!(TorrentId::from_string(HASH_HEX.to_string()), TorrentId::InfoHash(_)));
    assert!(matches!(TorrentId::from_string("magnet:?xt=x".to_string()), TorrentId::MagnetUri(_)));
    assert!(matches!(TorrentId::from_string("https://x/y.torrent".to_string()), TorrentId::Url(_)));
    assert!(matches!(TorrentId::from_string("abc".to_string()), TorrentId::MagnetUri(_)));
    assert!(matches!(parse_torrent_id(TorrentId::from_info_hash([1u8; 20])), Err(WebTorrentError::InvalidTorrent(_))));
    assert!(matches!(parse_torrent_id(TorrentId::Url("http://x".to_string())), Ok(MetadataSource::Fetch(_))));
    assert!(matches!(parse_torrent_id(TorrentId::from_vec(b"x".to_vec())), Err(WebTorrentError::Bencode(_))));
    let defaults = seed_announce(None);
    assert_eq!(defaults.len(), 1);
    assert!(defaults[0].ends_with(":8000/announce"));
    assert_eq!(seed_announce(Some(vec!["a".to_string()])), vec!["a".to_string()]);
}

#[test]
fn registry_and_speed() {
    let mut reg = TorrentRegistry::new();
    reg.add([1u8; 20]).unwrap();
    match reg.add([1u8; 20]) {
        Err(WebTorrentError::DuplicateTorrent(h)) => assert_eq!(h, "0101010101010101010101010101010101010101"),
        _ => panic!("a duplicate"),
    }
    assert!(reg.contains(&[1u8; 20]));
    assert_eq!(reg.len(), 1);
    assert!(reg.remove(&[1u8; 20]));
    assert!(!reg.remove(&[1u8; 20]));
    let mut sp = SpeedTracker::new(1_000);
    assert_eq!(sp.speed_sample(0), None);
    sp.add_bytes(5000, 10);
    sp.add_bytes(5500, 20);
    assert_eq!(sp.speed_sample(5800), Some((30, 800)));
    sp.add_bytes(6200, 5);
    assert_eq!(sp.speed_sample(6200), Some((25, 700)));
    assert_eq!(sp.speed_sample(9000), Some((0, 1_000_000_000)));
    let mut early = SpeedTracker::new(1_000);
    early.add_bytes(500, 10);
    assert_eq!(early.speed_sample(600), None);
}

#[test]
fn torrent_ids_from_values() {
    assert!(matches!(TorrentId::from(HASH_HEX.to_string()), TorrentId::InfoHash(_)));
    assert!(matches!(TorrentId::from("http://x/a.torrent".to_string()), TorrentId::Url(_)));
    match TorrentId::from([3u8; 20]) {
        TorrentId::InfoHash(h) => assert_eq!(h, [3u8; 20]),
        _ => panic!("an info hash"),
    }
    match TorrentId::from(Bytes::from_static(b"d1:ai1ee")) {
        TorrentId::TorrentFile(b) => assert_eq!(&b[..], b"d1:ai1ee"),
        _ => panic!("a torrent file"),
    }
}

#[test]
fn test_torrent_read_stream_new() {
    let data = Bytes::from(vec![3u8; 600]);
    let (file, _) = TorrentCreator::new().with_piece_length(256).create_from_data("s".to_string(), data).unwrap();
    let mut t = Torrent::new(parse_torrent_file(file).unwrap());
    let s = TorrentReadStream::new(&mut t, 0).unwrap();
    assert_eq!(s.position(), 0);
    assert!(!s.is_eof());
}

#[test]
fn web_seed_request_fits() {
    let single = WebSeedConn::new("http://seed.example/f".to_string(), 16, vec![("f".to_string(), 100, 0)]).unwrap();
    assert!(single.request_fits(1, 0, 16));
    assert!(!single.request_fits(0, 0, 0));
    assert!(!single.request_fits(usize::MAX, 0, 16));
    let multi = WebSeedConn::new("http://seed.example/d".to_string(), 16, vec![("a".to_string(), 0, 0), ("b".to_string(), 5, 0)]).unwrap();
    assert!(!multi.request_fits(0, 0, 4));
}
