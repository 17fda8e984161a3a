use bytes::Bytes;
use webtorrent::bencode_parser::{dict_insert_entry, parse_bencode, parse_overflows, BencodeValue};
use webtorrent::bitfield::Bitfield;
use webtorrent::error::WebTorrentError;
use webtorrent::extensions::{ExtensionProtocol, UtMetadata, UtPex};
use webtorrent::piece::{Piece, BLOCK_LENGTH};
use webtorrent::protocol::{
    bitfield_from_bytes, bitfield_to_bytes, decode_message, frame, frame_length, FrameLength, Handshake,
    MessageType, PeerMessage,
};
use webtorrent::selections::{Selection, Selections};

#[test]
fn bencode_parses_and_encodes_back() {
    let data = b"d3:bari12e3:fool4:spami-3eee";
    let (v, used) = parse_bencode(data).unwrap();
    assert_eq!(used, data.len());
    assert_eq!(v.get(b"bar").unwrap().as_integer(), Some(12));
    let list = v.get(b"foo").unwrap().as_list().unwrap();
    assert_eq!(list.len(), 2);
    assert_eq!(list[0].as_string(), Some("spam".to_string()));
    assert_eq!(list[1].as_integer(), Some(-3));
    assert_eq!(&v.encode()[..], &data[..]);
}

#[test]
fn bencode_sorts_keys_when_encoding() {
    let mut d = Vec::new();
    dict_insert_entry(&mut d, Bytes::from_static(b"b"), BencodeValue::Integer(1));
    dict_insert_entry(&mut d, Bytes::from_static(b"a"), BencodeValue::Bytes(Bytes::from_static(b"x")));
    let v = BencodeValue::Dict(d);
    let mut out = Vec::new();
    v.encode_into(&mut out);
    assert_eq!(out, b"d1:a1:x1:bi1ee".to_vec());
}

#[test]
fn bencode_errors() {
    assert!(matches!(parse_bencode(b"i12"), Err(WebTorrentError::Bencode(_))));
    assert!(matches!(parse_bencode(b"5:ab"), Err(WebTorrentError::Bencode(_))));
    assert!(matches!(parse_bencode(b"x"), Err(WebTorrentError::Bencode(_))));
    assert!(matches!(parse_bencode(b""), Err(WebTorrentError::Bencode(_))));
    let (v, used) = parse_bencode(b"i7eXYZ").unwrap();
    assert_eq!(v.as_integer(), Some(7));
    assert_eq!(used, 3);
}

#[test]
fn handshake_round_trip() {
    let info_hash = [7u8; 20];
    let peer_id = [9u8; 20];
    let h = Handshake::new(info_hash, peer_id);
    assert_eq!(h.protocol, "BitTorrent protocol");
    let bytes = h.encode();
    assert_eq!(bytes.len(), 68);
    assert_eq!(bytes[0], 19);
    assert_eq!(&bytes[1..20], b"BitTorrent protocol");
    let back = Handshake::decode(&bytes).unwrap();
    assert_eq!(back.info_hash, info_hash);
    assert_eq!(back.peer_id, peer_id);
    assert_eq!(back.reserved, [0u8; 8]);
    assert_eq!(back.protocol, "BitTorrent protocol");
}

#[test]
fn handshake_rejects_short_and_bad_length() {
    assert!(matches!(Handshake::decode(&[19u8; 10]), Err(WebTorrentError::Protocol(_))));
    let mut data = vec![0u8; 68];
    assert!(matches!(Handshake::decode(&data), Err(WebTorrentError::Protocol(_))));
    data[0] = 21;
    assert!(matches!(Handshake::decode(&data), Err(WebTorrentError::Protocol(_))));
}

#[test]
fn message_ids() {
    assert_eq!(MessageType::Choke.id(), 0);
    assert_eq!(MessageType::Piece.id(), 7);
    assert_eq!(MessageType::Port.id(), 9);
    assert_eq!(MessageType::Extended.id(), 20);
    assert_eq!(MessageType::from_id(5), Some(MessageType::Bitfield));
    assert_eq!(MessageType::from_id(21), None);
}

#[test]
fn messages_decode_and_encode() {
    match decode_message(&[4, 0, 0, 1, 2]) {
        PeerMessage::Have { piece } => assert_eq!(piece, 258),
        _ => panic!("a have message"),
    }
    match decode_message(&[6, 0, 0, 0, 1, 0, 0, 0, 2, 0, 0, 64, 0]) {
        PeerMessage::Request { piece, offset, length } => {
            assert_eq!((piece, offset, length), (1, 2, 16384));
        }
        _ => panic!("a request"),
    }
    assert!(matches!(decode_message(&[4, 0, 0]), PeerMessage::Other));
    assert!(matches!(decode_message(&[]), PeerMessage::Other));
    let m = PeerMessage::Piece { piece: 3, offset: 16, block: vec![1, 2, 3] };
    assert_eq!(m.to_bytes(), vec![7, 0, 0, 0, 3, 0, 0, 0, 16, 1, 2, 3]);
    let body = m.to_bytes();
    match decode_message(&body) {
        PeerMessage::Piece { piece, offset, block } => {
            assert_eq!((piece, offset), (3, 16));
            assert_eq!(block, vec![1, 2, 3]);
        }
        _ => panic!("a piece"),
    }
}

#[test]
fn frames() {
    assert_eq!(frame(&[1, 2]), vec![0, 0, 0, 2, 1, 2]);
    assert!(matches!(frame_length(&[0, 0, 0, 0]), FrameLength::KeepAlive));
    assert!(matches!(frame_length(&[0, 0, 0, 5]), FrameLength::Body(5)));
    assert!(matches!(frame_length(&[0, 0x10, 0, 1]), FrameLength::TooLarge(_)));
}

#[test]
fn bitfield_bytes_round_trip() {
    let bits = bitfield_from_bytes(vec![0b1010_0000, 0b0000_0001]);
    assert_eq!(bits.len(), 16);
    assert!(bits.get(0));
    assert!(!bits.get(1));
    assert!(bits.get(2));
    assert!(bits.get(15));
    assert_eq!(bitfield_to_bytes(&bits), vec![0b1010_0000, 0b0000_0001]);
    let mut b = Bitfield::new();
    b.push(true);
    b.push(false);
    b.push(true);
    assert_eq!(bitfield_to_bytes(&b), vec![0b1010_0000]);
}

#[test]
fn selections_sort_by_priority_then_piece() {
    let mut s = Selections::new();
    s.insert(Selection::new(5, 9, 1, false));
    s.insert(Selection::new(0, 4, 7, true));
    s.insert(Selection::new(2, 3, 1, false));
    assert_eq!(s.len(), 3);
    let first = s.get(0).unwrap();
    assert_eq!((first.from, first.priority), (0, 7));
    let second = s.get(1).unwrap();
    assert_eq!(second.from, 2);
    s.remove(2, 3, false);
    assert_eq!(s.len(), 2);
    s.swap(0, 1);
    assert_eq!(s.get(0).unwrap().from, 5);
    s.sort();
    assert_eq!(s.get(0).unwrap().from, 0);
    assert_eq!(s.iter().count(), 2);
    s.clear();
    assert!(s.is_empty());
    assert!(s.get(0).is_none());
}

#[test]
fn pex_encode_decode() {
    let mut pex = UtPex::new();
    pex.add_peer("10.0.0.1".to_string(), 6881);
    pex.add_peer("192.168.1.2".to_string(), 80);
    pex.drop_peer("1.2.3.4".to_string(), 1);
    let data = pex.encode();
    let added = UtPex::decode(&data).unwrap();
    assert_eq!(added, vec![("10.0.0.1".to_string(), 6881), ("192.168.1.2".to_string(), 80)]);
    let (a, d) = UtPex::decode_full(&data).unwrap();
    assert_eq!(a.len(), 2);
    assert!(d.is_empty());
    assert_eq!(data.len(), 12);
    assert_eq!(&data[..6], &[10, 0, 0, 1, 0x1a, 0xe1]);
    pex.reset();
    assert!(pex.get_added().is_empty());
    assert!(pex.get_dropped().is_empty());
}

#[test]
fn metadata_pieces() {
    let mut m = UtMetadata::new();
    assert!(m.get_metadata().is_none());
    let data: Vec<u8> = (0..20000u32).map(|i| (i % 251) as u8).collect();
    m.set_metadata(Bytes::from(data.clone()));
    let p0 = m.handle_request(0).unwrap().unwrap();
    assert_eq!(p0.len(), 16384);
    let p1 = m.handle_request(1).unwrap().unwrap();
    assert_eq!(&p1[..], &data[16384..]);
    assert!(m.handle_request(2).unwrap().is_none());
}

#[test]
fn extension_ids() {
    let mut e = ExtensionProtocol::new();
    e.register_extension(1, "ut_pex".to_string());
    e.register_extension(2, "ut_metadata".to_string());
    assert_eq!(e.get_extension_id("ut_pex"), Some(1));
    assert_eq!(e.get_extension_id("ut_metadata"), Some(2));
    assert_eq!(e.get_extension_id("lt_donthave"), None);
    e.register_extension(1, "other".to_string());
    assert_eq!(e.get_extension_id("ut_pex"), None);
}

#[test]
fn piece_blocks() {
    let mut p = Piece::new(40000);
    assert_eq!(p.missing(), 3);
    assert_eq!(p.chunk_length(0), BLOCK_LENGTH);
    assert_eq!(p.chunk_length(2), 40000 - 2 * BLOCK_LENGTH);
    assert_eq!(p.chunk_offset(2), 32768);
    assert_eq!(p.reserve(), Some(0));
    assert!(!p.set(0, Bytes::from(vec![1u8; BLOCK_LENGTH])).unwrap());
    assert_eq!(p.missing(), 2);
    assert!(!p.set(0, Bytes::from(vec![2u8; BLOCK_LENGTH])).unwrap());
    assert_eq!(p.missing(), 2);
    assert_eq!(p.reserve(), Some(1));
    assert!(!p.set(1, Bytes::from(vec![3u8; BLOCK_LENGTH])).unwrap());
    assert!(p.set(2, Bytes::from(vec![4u8; 40000 - 2 * BLOCK_LENGTH])).unwrap());
    assert_eq!(p.reserve(), None);
    let all = p.flush();
    assert_eq!(all.len(), 40000);
    assert_eq!(all[0], 1);
    assert_eq!(all[BLOCK_LENGTH], 3);
    assert_eq!(all[39999], 4);
    assert!(matches!(p.set(5, Bytes::new()), Err(WebTorrentError::InvalidPieceIndex(5))));
}

#[test]
fn bencode_overflowing_length_is_told() {
    let huge = format!("l{}:abe", u64::MAX);
    assert!(parse_overflows(huge.as_bytes()));
    assert!(!parse_overflows(b"l5:abe"));
    assert!(!parse_overflows(b"d3:keyi1ee"));
    assert!(!parse_overflows(b"x"));
}

#[test]
fn bencode_encode_sorts_any_entry_order() {
    let d = vec![
        (Bytes::from_static(b"c"), BencodeValue::List(vec![BencodeValue::Integer(-3)])),
        (Bytes::from_static(b"b"), BencodeValue::Integer(1)),
        (Bytes::from_static(b"a"), BencodeValue::Bytes(Bytes::from_static(b"x"))),
    ];
    let v = BencodeValue::Dict(d);
    assert_eq!(&v.encode()[..], &b"d1:a1:x1:bi1e1:cli-3eee"[..]);
    let dup = BencodeValue::Dict(vec![
        (Bytes::from_static(b"k"), BencodeValue::Integer(1)),
        (Bytes::from_static(b"a"), BencodeValue::Integer(0)),
        (Bytes::from_static(b"k"), BencodeValue::Integer(2)),
    ]);
    assert_eq!(&dup.encode()[..], &b"d1:ai0e1:ki2ee"[..]);
    let nested = BencodeValue::List(vec![BencodeValue::Dict(vec![
        (Bytes::from_static(b"z"), BencodeValue::Integer(1)),
        (Bytes::from_static(b"y"), BencodeValue::Integer(2)),
    ])]);
    assert_eq!(&nested.encode()[..], &b"ld1:yi2e1:zi1eee"[..]);
}

#[test]
fn selections_sort_is_stable() {
    let mut s = Selections::new();
    s.insert(Selection::new(3, 5, 2, false));
    s.insert(Selection::new(3, 9, 2, false));
    s.insert(Selection::new(1, 2, 2, true));
    s.insert(Selection::new(3, 7, 2, true));
    let tos: Vec<usize> = s.iter().map(|x| x.to).collect();
    assert_eq!(tos, vec![2, 5, 9, 7]);
    s.sort();
    let again: Vec<usize> = s.iter().map(|x| x.to).collect();
    assert_eq!(again, vec![2, 5, 9, 7]);
}
