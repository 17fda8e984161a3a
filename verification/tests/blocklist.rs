use webtorrent::blocklist::{blocklist_lines, Blocklist, IpAddress};
use webtorrent::error::WebTorrentError;
use webtorrent::ipv4::parse_ipv4_str;

fn v4(s: &str) -> IpAddress {
    let o = parse_ipv4_str(s).expect("an IPv4 address");
    IpAddress::V4(u32::from_be_bytes(o))
}

fn load(list: &mut Blocklist, data: &str) -> Result<(), WebTorrentError> {
    let entries: Vec<(IpAddress, Option<u8>)> = blocklist_lines(data)
        .into_iter()
        .filter_map(|line| parse_ipv4_str(&line.address).map(|o| (IpAddress::V4(u32::from_be_bytes(o)), line.prefix_len)))
        .collect();
    list.load_entries(&entries)
}

#[test]
fn test_blocklist_ip() {
    let mut blocklist = Blocklist::new();
    let ip = v4("192.168.1.1");
    assert!(!blocklist.is_blocked(ip));
    blocklist.add_ip(ip);
    assert!(blocklist.is_blocked(ip));
    blocklist.remove_ip(ip);
    assert!(!blocklist.is_blocked(ip));
}

#[test]
fn test_blocklist_cidr() {
    let mut blocklist = Blocklist::new();
    let network = v4("192.168.1.0");
    blocklist.add_cidr(network, 24).unwrap();
    assert!(blocklist.is_blocked(v4("192.168.1.1")));
    assert!(blocklist.is_blocked(v4("192.168.1.100")));
    assert!(blocklist.is_blocked(v4("192.168.1.255")));
    assert!(!blocklist.is_blocked(v4("192.168.2.1")));
    assert!(!blocklist.is_blocked(v4("10.0.0.1")));
}

#[test]
fn test_blocklist_load_from_string() {
    let mut blocklist = Blocklist::new();
    let data = r#"
            # This is a comment
            192.168.1.1
            10.0.0.0/8
            172.16.0.0/12
            # Another comment
            203.0.113.0/24
        "#;
    load(&mut blocklist, data).unwrap();
    assert!(blocklist.is_blocked(v4("192.168.1.1")));
    assert!(blocklist.is_blocked(v4("10.1.2.3")));
    assert!(blocklist.is_blocked(v4("172.16.1.1")));
    assert!(blocklist.is_blocked(v4("203.0.113.50")));
    assert!(!blocklist.is_blocked(v4("8.8.8.8")));
}

#[test]
fn blocklist_rejects_long_prefix() {
    let mut blocklist = Blocklist::new();
    let r = blocklist.add_cidr(v4("10.0.0.0"), 33);
    assert!(matches!(r, Err(WebTorrentError::InvalidTorrent(_))));
    assert!(blocklist.is_empty());
    let r6 = blocklist.add_cidr(IpAddress::V6(1), 129);
    assert!(matches!(r6, Err(WebTorrentError::InvalidTorrent(_))));
    assert!(blocklist.add_cidr(IpAddress::V6(0), 128).is_ok());
    assert!(blocklist.is_blocked(IpAddress::V6(0)));
    assert!(!blocklist.is_blocked(IpAddress::V6(1)));
}

#[test]
fn blocklist_counts_entries_once() {
    let mut blocklist = Blocklist::new();
    blocklist.add_ip(v4("1.2.3.4"));
    blocklist.add_ip(v4("1.2.3.4"));
    blocklist.add_cidr(v4("10.0.0.0"), 8).unwrap();
    blocklist.add_cidr(v4("10.0.0.0"), 8).unwrap();
    assert_eq!(blocklist.len(), 2);
    blocklist.remove_cidr(v4("10.0.0.0"), 8);
    assert!(!blocklist.is_blocked(v4("10.9.9.9")));
    assert_eq!(blocklist.len(), 1);
    blocklist.clear();
    assert!(blocklist.is_empty());
}

#[test]
fn blocklist_lines_reads_entries() {
    let lines = blocklist_lines("  # c\n1.2.3.4\r\n\n5.6.7.0/24\n9.9.9.9/x\n");
    assert_eq!(lines.len(), 3);
    assert_eq!(lines[0].address, "1.2.3.4");
    assert_eq!(lines[0].prefix_len, None);
    assert_eq!(lines[1].address, "5.6.7.0");
    assert_eq!(lines[1].prefix_len, Some(24));
    assert_eq!(lines[2].address, "9.9.9.9/x");
    assert_eq!(lines[2].prefix_len, None);
}

#[test]
fn blocklist_load_entries_stops_at_refused_block() {
    let mut list = Blocklist::new();
    let entries = vec![(v4("1.1.1.1"), None), (v4("10.0.0.0"), Some(40)), (v4("2.2.2.2"), None)];
    assert!(matches!(list.load_entries(&entries), Err(WebTorrentError::InvalidTorrent(_))));
    assert!(list.is_blocked(v4("1.1.1.1")));
    assert!(!list.is_blocked(v4("2.2.2.2")));
    assert_eq!(list.len(), 1);
}
