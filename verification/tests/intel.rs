use ipsight::intel::{build_report, flag_name, max_prefix_u128, max_prefix_u32, Intel, IntelMatch};
use ipsight::{DbError, IpAddress};

fn put_u16(b: &mut Vec<u8>, v: u16) {
    b.extend_from_slice(&v.to_le_bytes());
}

fn put_u32(b: &mut Vec<u8>, v: u32) {
    b.extend_from_slice(&v.to_le_bytes());
}

fn put_u128(b: &mut Vec<u8>, v: u128) {
    b.extend_from_slice(&v.to_le_bytes());
}

const V6_START: u128 = 0x2606_4700_0000_0000_0000_0000_0000_0000;
const V6_END: u128 = 0x2606_4700_ffff_ffff_ffff_ffff_ffff_ffff;

/// Two CIDR rows in bucket 1.1.x.x, one long row over 1.0.0.0/8, one IPv6
/// row, two values and three strings.
fn blob() -> Vec<u8> {
    let strings = ["Cloudflare", "bgptools_vpn_asns", "riskdb_hosting"];
    let mut sec: Vec<u8> = Vec::new();
    let base = 160u64;
    let mut offs = [0u64; 14];
    // bucket index
    offs[0] = base + sec.len() as u64;
    for x in 0..=65536u32 {
        put_u32(&mut sec, if x <= 0x0101 { 0 } else { 2 });
    }
    // CIDR lo, len, val
    offs[1] = base + sec.len() as u64;
    put_u16(&mut sec, 0x0100);
    put_u16(&mut sec, 0x0000);
    offs[2] = base + sec.len() as u64;
    put_u16(&mut sec, 0x00ff);
    put_u16(&mut sec, 0xffff);
    offs[3] = base + sec.len() as u64;
    put_u16(&mut sec, 0);
    put_u16(&mut sec, 1);
    // long rows
    offs[4] = base + sec.len() as u64;
    put_u32(&mut sec, 0x0100_0000);
    offs[5] = base + sec.len() as u64;
    put_u32(&mut sec, 0x01ff_ffff);
    offs[6] = base + sec.len() as u64;
    put_u16(&mut sec, 1);
    // IPv6 rows
    offs[7] = base + sec.len() as u64;
    put_u128(&mut sec, V6_START);
    offs[8] = base + sec.len() as u64;
    put_u128(&mut sec, V6_END);
    offs[9] = base + sec.len() as u64;
    put_u16(&mut sec, 0);
    // values: flag bits, provider, source, spare
    offs[10] = base + sec.len() as u64;
    for v in [[1 | (1 << 16), 0, 1, 0], [1 << 9, 0, 2, 0]] {
        for w in v {
            put_u32(&mut sec, w);
        }
    }
    // string table and body
    offs[11] = base + sec.len() as u64;
    let mut o = 0u32;
    for s in strings {
        put_u32(&mut sec, o);
        put_u32(&mut sec, s.len() as u32);
        o += s.len() as u32;
    }
    offs[12] = base + sec.len() as u64;
    for s in strings {
        sec.extend_from_slice(s.as_bytes());
    }
    offs[13] = base + sec.len() as u64;

    let mut b: Vec<u8> = Vec::new();
    put_u32(&mut b, 6);
    put_u32(&mut b, 0);
    for count in [2u64, 1, 1, 2, 3] {
        b.extend_from_slice(&count.to_le_bytes());
    }
    for off in offs {
        b.extend_from_slice(&off.to_le_bytes());
    }
    assert_eq!(b.len(), 160);
    b.extend_from_slice(&sec);
    b
}

/// Weight keys: vpn 36.3, anonymizer 30.0, datacenter 17.2, the rest 0.
fn weight_keys() -> Vec<u64> {
    let mut wk = vec![0u64; 20];
    wk[0] = 363;
    wk[16] = 300;
    wk[9] = 172;
    wk
}

fn parsed() -> Intel {
    let bytes = blob();
    assert!(Intel::parse_defined(&bytes));
    match Intel::parse(bytes) {
        Ok(db) => db,
        Err(_) => panic!("blob rejected"),
    }
}

#[test]
fn intel_rejects_short_blob() {
    let bytes = vec![6u8, 0, 0, 0];
    assert!(Intel::parse_defined(&bytes));
    assert!(matches!(Intel::parse(bytes), Err(DbError::BadIntel)));
}

#[test]
fn intel_rejects_wrong_version() {
    let mut bytes = blob();
    bytes[0] = 5;
    assert!(matches!(Intel::parse(bytes), Err(DbError::BadIntel)));
}

#[test]
fn intel_truncated_blob_is_not_defined() {
    let mut bytes = blob();
    bytes.truncate(2000);
    assert!(!Intel::parse_defined(&bytes));
}

#[test]
fn intel_counts_flags_over_ipv4_rows() {
    let db = parsed();
    let (counts, total) = db.flag_counts();
    assert_eq!(total, 3);
    assert_eq!(counts.len(), 20);
    assert_eq!(counts[0], 1);
    assert_eq!(counts[16], 1);
    assert_eq!(counts[9], 2);
    assert_eq!(counts[1], 0);
}

#[test]
fn intel_reports_every_covering_range() {
    let db = parsed();
    let ip = IpAddress::V4(0x0101_0101);
    assert!(db.matches_ok(ip));
    let report = db.lookup(ip, &weight_keys(), &weight_keys()).expect("a match");
    assert_eq!(report.detections, 3);
    assert_eq!(report.sources, 2);
    assert_eq!(report.top_provider, "Cloudflare");
    assert_eq!(report.providers, vec!["Cloudflare".to_string()]);
    assert_eq!(report.flags, vec!["vpn", "anonymizer", "datacenter"]);
    assert_eq!(report.ranked, vec![0, 16, 9]);
    assert_eq!(report.reasons, vec!["vpn", "anonymizer", "datacenter"]);
    let ranges: Vec<(IpAddress, IpAddress)> = report.matches.iter().map(|m| m.range).collect();
    assert_eq!(
        ranges,
        vec![
            (IpAddress::V4(0x0101_0100), IpAddress::V4(0x0101_01ff)),
            (IpAddress::V4(0x0101_0000), IpAddress::V4(0x0101_ffff)),
            (IpAddress::V4(0x0100_0000), IpAddress::V4(0x01ff_ffff)),
        ]
    );
    assert_eq!(report.matches[0].source, "bgptools_vpn_asns");
    assert_eq!(report.matches[0].flags, vec!["vpn", "anonymizer"]);
    assert_eq!(report.matches[1].source, "riskdb_hosting");
    assert_eq!(report.matches[2].flags, vec!["datacenter"]);
}

#[test]
fn intel_matches_come_last_row_first() {
    let db = parsed();
    let ms = db.matches(IpAddress::V4(0x0101_0101));
    let starts: Vec<IpAddress> = ms.iter().map(|m| m.range.0).collect();
    assert_eq!(
        starts,
        vec![IpAddress::V4(0x0101_0100), IpAddress::V4(0x0101_0000), IpAddress::V4(0x0100_0000)]
    );
}

#[test]
fn intel_range_edges_are_inclusive() {
    let db = parsed();
    assert_eq!(db.matches(IpAddress::V4(0x0101_01ff)).len(), 3);
    assert_eq!(db.matches(IpAddress::V4(0x0101_0200)).len(), 2);
    assert_eq!(db.matches(IpAddress::V4(0x01ff_ffff)).len(), 1);
    assert_eq!(db.matches(IpAddress::V4(0x0100_0000)).len(), 1);
}

#[test]
fn intel_misses_give_none() {
    let db = parsed();
    assert!(db.lookup(IpAddress::V4(0x0200_0000), &weight_keys(), &weight_keys()).is_none());
    assert!(db.lookup(IpAddress::V4(0x00ff_ffff), &weight_keys(), &weight_keys()).is_none());
    assert!(db.tables_ascending());
    assert!(db.lookup(IpAddress::V6(V6_END + 1), &weight_keys(), &weight_keys()).is_none());
}

#[test]
fn intel_ipv6_lookup() {
    let db = parsed();
    assert!(db.tables_ascending());
    let ip = IpAddress::V6(V6_START + 0x1111);
    assert!(db.matches_ok(ip));
    let report = db.lookup(ip, &weight_keys(), &weight_keys()).expect("a match");
    assert_eq!(report.detections, 1);
    assert_eq!(report.matches[0].range, (IpAddress::V6(V6_START), IpAddress::V6(V6_END)));
    assert_eq!(report.matches[0].provider, "Cloudflare");
    assert_eq!(report.matches[0].bits, 1 | (1 << 16));
}

fn m(provider: &str, source: &str, bits: u32) -> IntelMatch {
    let mut flags = Vec::new();
    for i in 0..20u32 {
        if bits & (1 << i) != 0 {
            flags.push(flag_name(i));
        }
    }
    IntelMatch {
        source: source.to_string(),
        provider: provider.to_string(),
        range: (IpAddress::V4(0), IpAddress::V4(0)),
        bits,
        flags,
    }
}

#[test]
fn intel_report_pins_tor_first() {
    let ms = vec![
        m("Foo", "a", 1 << 1),
        m("", "b", 1 << 1),
        m("TOR", "c", 1 << 2),
        m("Foo", "a", 1 << 1),
        m("Bar", "d", 1 << 1),
    ];
    let report = build_report(ms, &vec![0u64; 20], &vec![0u64; 20]);
    assert_eq!(report.providers, vec!["TOR".to_string(), "Foo".to_string(), "Bar".to_string()]);
    assert_eq!(report.top_provider, "TOR");
    assert_eq!(report.detections, 5);
    assert_eq!(report.sources, 4);
    assert_eq!(report.flags, vec!["proxy", "tor"]);
}

#[test]
fn intel_report_orders_heaviest_first_and_keeps_ties() {
    let mut wk = vec![0u64; 20];
    wk[3] = 950;
    wk[9] = 150;
    let ms = vec![m("A", "x", 1 << 9), m("B", "y", 1 << 3), m("C", "z", 1 << 9)];
    let report = build_report(ms, &wk, &wk);
    let providers: Vec<&str> = report.matches.iter().map(|m| m.provider.as_str()).collect();
    assert_eq!(providers, vec!["B", "A", "C"]);
    assert_eq!(report.flags, vec!["malware", "datacenter"]);
    assert_eq!(report.ranked, vec![3, 9]);
}

#[test]
fn intel_report_keeps_five_reasons() {
    let wk: Vec<u64> = (0..20u64).collect();
    let all = (1u32 << 20) - 1;
    let report = build_report(vec![m("P", "s", all)], &wk, &wk);
    assert_eq!(report.flags.len(), 20);
    assert_eq!(report.ranked[0], 19);
    assert_eq!(report.reasons, vec!["government", "isp", "mobile", "anonymizer", "private_relay"]);
}

#[test]
fn intel_flag_names_follow_bits() {
    assert_eq!(flag_name(0), "vpn");
    assert_eq!(flag_name(2), "tor");
    assert_eq!(flag_name(15), "private_relay");
    assert_eq!(flag_name(19), "government");
}

#[test]
fn running_maximum_of_ends() {
    assert_eq!(max_prefix_u32(&vec![3, 1, 7, 2, 7, 9]), vec![3, 3, 7, 7, 7, 9]);
    assert_eq!(max_prefix_u32(&vec![]), Vec::<u32>::new());
    assert_eq!(max_prefix_u32(&vec![0, 0]), vec![0, 0]);
    let big = u128::MAX - 1;
    assert_eq!(max_prefix_u128(&vec![5, big, 2, u128::MAX]), vec![5, big, big, u128::MAX]);
}
