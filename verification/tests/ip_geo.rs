use ipsight::{DbError, IpAddress, IpGeo};

fn put_u32(b: &mut Vec<u8>, v: u32) {
    b.extend_from_slice(&v.to_le_bytes());
}

fn put_i24(b: &mut Vec<u8>, v: i32) {
    let u = (v as u32) & 0x00ff_ffff;
    b.extend_from_slice(&u.to_le_bytes()[..3]);
}

/// Two points, one IPv4 group with two rows, one IPv6 key; 8-bit indices.
fn blob() -> Vec<u8> {
    let mut b: Vec<u8> = Vec::new();
    b.extend_from_slice(b"GEO1");
    b.extend_from_slice(&[0, 0, 8, 0]);
    put_u32(&mut b, 3);
    put_u32(&mut b, 2);
    put_u32(&mut b, 1);
    put_u32(&mut b, 1);
    // points: index 0 stands for none
    put_i24(&mut b, 0);
    put_i24(&mut b, 0);
    put_i24(&mut b, -27_468);
    put_i24(&mut b, 153_028);
    put_i24(&mut b, 52_520);
    put_i24(&mut b, 13_405);
    // group bases, offsets, deltas
    put_u32(&mut b, 0x0101_0000);
    put_u32(&mut b, 0);
    put_u32(&mut b, 6);
    b.extend_from_slice(&[0, 0, 0, 0x00, 0x01, 0]);
    // packed IPv4 indices, then four spare bytes
    b.extend_from_slice(&[1, 2, 0, 0, 0, 0]);
    // IPv6 keys and packed indices
    b.extend_from_slice(&0x2606_4700_0000_0000u64.to_le_bytes());
    b.extend_from_slice(&[2, 0, 0, 0]);
    b
}

fn parsed() -> IpGeo {
    let bytes = blob();
    assert!(IpGeo::parse_defined(&bytes));
    match IpGeo::parse(bytes) {
        Ok(db) => db,
        Err(_) => panic!("blob rejected"),
    }
}

#[test]
fn ip_geo_rejects_bad_magic() {
    let mut b = blob();
    b[3] = b'2';
    assert!(matches!(IpGeo::parse(b), Err(DbError::BadIpGeo)));
}

#[test]
fn ip_geo_rejects_short_blob() {
    assert!(matches!(IpGeo::parse(b"GEO1".to_vec()), Err(DbError::BadIpGeo)));
}

#[test]
fn ip_geo_wide_index_is_not_defined() {
    let mut b = blob();
    b[6] = 64;
    assert!(!IpGeo::parse_defined(&b));
}

#[test]
fn ip_geo_ipv4_rows_by_delta() {
    let db = parsed();
    assert!(db.tables_ascending());
    let a = IpAddress::V4(0x0101_0005);
    assert!(db.lookup_defined(a));
    assert_eq!(db.lookup(a), Some((-27_468, 153_028)));
    let b = IpAddress::V4(0x0101_0101);
    assert!(db.lookup_defined(b));
    assert_eq!(db.lookup(b), Some((52_520, 13_405)));
    assert_eq!(db.lookup(IpAddress::V4(0x0101_00ff)), Some((-27_468, 153_028)));
    assert_eq!(db.lookup(IpAddress::V4(0x0101_0100)), Some((52_520, 13_405)));
}

#[test]
fn ip_geo_below_first_group_is_none() {
    let db = parsed();
    assert_eq!(db.lookup(IpAddress::V4(0x0100_ffff)), None);
}

#[test]
fn ip_geo_ipv6_by_upper_half() {
    let db = parsed();
    let ip = IpAddress::V6(0x2606_4700_0000_0000_1234_0000_0000_0001);
    assert!(db.lookup_defined(ip));
    assert_eq!(db.lookup(ip), Some((52_520, 13_405)));
    assert_eq!(db.lookup(IpAddress::V6(1)), None);
}

#[test]
fn ip_geo_one_answer_per_ipv6_prefix() {
    let db = parsed();
    let a = IpAddress::V6(0x2606_4700_0000_0000_0000_0000_0000_0000);
    let c = IpAddress::V6(0x2606_4700_0000_0000_ffff_ffff_ffff_ffff);
    assert_eq!(db.lookup_defined(a), db.lookup_defined(c));
    assert_eq!(db.lookup(a), db.lookup(c));
    assert_eq!(db.lookup(a), Some((52_520, 13_405)));
}
