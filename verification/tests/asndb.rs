use ipsight::{Asndb, DbError, IpAddress};

const MAGIC: u64 = 0x0004_4244_4E53_4144;
const NO_ASN: u32 = 0xFFFF_FFFF;

fn put_u32(b: &mut Vec<u8>, v: u32) {
    b.extend_from_slice(&v.to_le_bytes());
}

fn set_u32(b: &mut [u8], at: usize, v: u32) {
    b[at..at + 4].copy_from_slice(&v.to_le_bytes());
}

fn set_u64(b: &mut [u8], at: usize, v: u64) {
    b[at..at + 8].copy_from_slice(&v.to_le_bytes());
}

/// One Cloudflare record, two IPv4 segments (the second unassigned) and one
/// IPv6 segment.
fn blob() -> Vec<u8> {
    let mut b = vec![0u8; 104];
    set_u64(&mut b, 0, MAGIC);
    b[8] = 4;
    // string pool first, so its offsets are known
    let mut pool: Vec<u8> = vec![0, 0, 0, 0];
    let mut add = |s: &str| -> u32 {
        let at = pool.len() as u32;
        put_u32(&mut pool, s.len() as u32);
        pool.extend_from_slice(s.as_bytes());
        at
    };
    let name = add("CLOUDFLARENET - Cloudflare, Inc.");
    let company = add("Cloudflare, Inc.");
    let website = add("https://www.cloudflare.com");

    let tiny_off = b.len();
    put_u32(&mut b, 13335);
    put_u32(&mut b, name);
    put_u32(&mut b, company);
    put_u32(&mut b, website);
    b.extend_from_slice(b"US");
    b.extend_from_slice(&[3, 3, 1, 0, 0, 0]);

    let seg4_off = b.len();
    put_u32(&mut b, 0x0101_0100);
    put_u32(&mut b, 0);
    put_u32(&mut b, 0x0101_0200);
    put_u32(&mut b, NO_ASN);

    let seg6_off = b.len();
    b.extend_from_slice(&0x2606_4700_0000_0000_0000_0000_0000_0000u128.to_be_bytes());
    put_u32(&mut b, 0);

    let str_off = b.len();
    b.extend_from_slice(&pool);

    set_u32(&mut b, 16, 1);
    set_u32(&mut b, 20, 2);
    set_u32(&mut b, 24, 1);
    set_u64(&mut b, 40, tiny_off as u64);
    set_u64(&mut b, 48, seg4_off as u64);
    set_u64(&mut b, 56, seg6_off as u64);
    set_u64(&mut b, 88, str_off as u64);
    b
}

fn parsed() -> Asndb {
    let bytes = blob();
    assert!(Asndb::parse_defined(&bytes));
    match Asndb::parse(bytes) {
        Ok(db) => db,
        Err(_) => panic!("blob rejected"),
    }
}

#[test]
fn asndb_rejects_short_blob() {
    assert!(matches!(Asndb::parse(vec![0u8; 103]), Err(DbError::AsndbTooSmall)));
}

#[test]
fn asndb_rejects_bad_magic() {
    let mut b = blob();
    b[0] ^= 1;
    assert!(matches!(Asndb::parse(b), Err(DbError::BadAsndbMagic)));
}

#[test]
fn asndb_rejects_other_flavor() {
    let mut b = blob();
    b[8] = 2;
    assert!(matches!(Asndb::parse(b), Err(DbError::WrongAsndbFlavor(2))));
}

#[test]
fn asndb_segment_past_end_is_not_defined() {
    let mut b = blob();
    set_u32(&mut b, 20, 1000);
    assert!(!Asndb::parse_defined(&b));
}

#[test]
fn asndb_finds_the_owner_of_an_address() {
    let db = parsed();
    assert!(db.tables_ascending());
    let ip = IpAddress::V4(0x0101_0101);
    assert!(db.lookup_defined(ip));
    let info = db.lookup(ip).expect("an AS");
    assert_eq!(info.asn, 13335);
    assert_eq!(info.name, "CLOUDFLARENET");
    assert_eq!(info.company, "Cloudflare, Inc.");
    assert_eq!(info.website, "https://www.cloudflare.com");
    assert_eq!(info.provider, "Cloudflare");
    assert_eq!(info.country_code, "US");
    assert_eq!(info.kind, "Content");
    assert_eq!(info.info_type, "Content");
    assert_eq!(info.rir, "ARIN");
}

#[test]
fn asndb_unassigned_and_uncovered_addresses_give_none() {
    let db = parsed();
    assert!(db.lookup(IpAddress::V4(0x0101_0200)).is_none());
    assert!(db.lookup(IpAddress::V4(0xffff_ffff)).is_none());
    assert!(db.lookup(IpAddress::V4(0x0101_00ff)).is_none());
    assert!(db.lookup(IpAddress::V6(1)).is_none());
}

#[test]
fn asndb_ipv6_lookup() {
    let db = parsed();
    let info = db.lookup(IpAddress::V6(0x2606_4700_0000_0000_0000_0000_0000_1111)).expect("an AS");
    assert_eq!(info.asn, 13335);
    assert_eq!(info.provider, "Cloudflare");
}
