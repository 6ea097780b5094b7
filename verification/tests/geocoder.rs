use ipsight::geocoder::Geocoder;
use ipsight::DbError;

fn put_u32(b: &mut Vec<u8>, v: u32) {
    b.extend_from_slice(&v.to_le_bytes());
}

fn set_u32(b: &mut [u8], at: usize, v: u32) {
    b[at..at + 4].copy_from_slice(&v.to_le_bytes());
}

fn put_varint(b: &mut Vec<u8>, mut v: u64) {
    loop {
        let byte = (v & 0x7f) as u8;
        v >>= 7;
        if v == 0 {
            b.push(byte);
            return;
        }
        b.push(byte | 0x80);
    }
}

fn zz(v: i64) -> u64 {
    ((v << 1) ^ (v >> 63)) as u64
}

const BERLIN: (i64, i64) = (52_520_008, 13_404_954);
const PANKOW: (i64, i64) = (52_600_000, 13_500_000);
const CELL: u32 = 1425 * 3600 + 1934;
const PCELL: u32 = 14252 * 36000 + 19340;
/// 2024-01-15 12:00 UTC.
const WINTER: i64 = 1_705_320_000;
/// 2024-07-15 12:00 UTC.
const SUMMER: i64 = 1_721_044_800;

/// Two cities in one grid cell, one postal code for their country.
fn blob() -> Vec<u8> {
    let mut b = vec![0u8; 64];
    b[..4].copy_from_slice(b"GEO1");

    let off_str = b.len();
    let strings = ["", "Berlin", "Land Berlin", "16", "Europe/Berlin", "Pankow"];
    put_u32(&mut b, strings.len() as u32);
    let mut o = 0u32;
    put_u32(&mut b, 0);
    for s in strings {
        o += s.len() as u32;
        put_u32(&mut b, o);
    }
    for s in strings {
        b.extend_from_slice(s.as_bytes());
    }

    let off_cc = b.len();
    put_u32(&mut b, 1);
    b.extend_from_slice(b"DE");

    let off_grid = b.len();
    put_u32(&mut b, 1);
    put_varint(&mut b, CELL as u64);
    put_varint(&mut b, 0);

    let off_cities = b.len();
    put_varint(&mut b, 2);
    put_varint(&mut b, zz(BERLIN.0));
    put_varint(&mut b, zz(BERLIN.1));
    for v in [1u64, 2, 0, 3, 4, 0] {
        put_varint(&mut b, v);
    }
    put_varint(&mut b, zz(PANKOW.0 - BERLIN.0));
    put_varint(&mut b, zz(PANKOW.1 - BERLIN.1));
    for v in [5u64, 2, 0, 3, 4, 0] {
        put_varint(&mut b, v);
    }
    let len_cities = b.len() - off_cities;

    let mut sec: Vec<u8> = Vec::new();
    put_u32(&mut sec, 0);
    put_u32(&mut sec, 1);
    put_u32(&mut sec, 0);
    put_u32(&mut sec, 5);
    sec.extend_from_slice(b"10117");
    put_varint(&mut sec, 1);
    put_varint(&mut sec, PCELL as u64);
    put_varint(&mut sec, 0);
    put_varint(&mut sec, 1);
    put_varint(&mut sec, zz(BERLIN.0));
    put_varint(&mut sec, zz(BERLIN.1));
    put_varint(&mut sec, 0);
    put_varint(&mut sec, 0);

    let off_pdir = b.len();
    put_u32(&mut b, 1);
    b.extend_from_slice(&[0, 0, 0, 0]);
    put_u32(&mut b, 0);
    put_u32(&mut b, sec.len() as u32);

    let off_postal = b.len();
    b.extend_from_slice(&sec);

    set_u32(&mut b, 8, off_str as u32);
    set_u32(&mut b, 16, off_cc as u32);
    set_u32(&mut b, 24, off_grid as u32);
    set_u32(&mut b, 32, off_cities as u32);
    set_u32(&mut b, 36, len_cities as u32);
    set_u32(&mut b, 40, off_pdir as u32);
    set_u32(&mut b, 48, off_postal as u32);
    b
}

fn parsed() -> Geocoder {
    let bytes = blob();
    assert!(Geocoder::parse_defined(&bytes));
    match Geocoder::parse(bytes) {
        Ok(g) => g,
        Err(_) => panic!("blob rejected"),
    }
}

#[test]
fn geocoder_rejects_bad_magic() {
    let mut b = blob();
    b[0] = b'X';
    assert!(matches!(Geocoder::parse(b), Err(DbError::BadGeocoder)));
}

#[test]
fn geocoder_rejects_short_blob() {
    assert!(matches!(Geocoder::parse(b"GEO1".to_vec()), Err(DbError::BadGeocoder)));
}

#[test]
fn geocoder_grid_past_end_is_not_defined() {
    let mut b = blob();
    let len = b.len() as u32;
    set_u32(&mut b, 24, len);
    assert!(!Geocoder::parse_defined(&b));
}

#[test]
fn geocoder_finds_nearest_city_and_enriches_it() {
    let g = parsed();
    assert!(g.tables_ordered());
    let (lat, lon) = (52_520_000, 13_405_000);
    assert!(g.lookup_defined(lat, lon, CELL, PCELL));
    let place = g.lookup(lat, lon, CELL, PCELL, WINTER, 0).expect("a place");
    assert_eq!(place.city, "Berlin");
    assert_eq!(place.region, "Land Berlin");
    assert_eq!(place.region_code, "16");
    assert_eq!(place.district, "");
    assert_eq!(place.country_code, "DE");
    assert_eq!(place.country_name, "Germany");
    assert_eq!(place.postal_code, "10117");
    assert_eq!(place.timezone, "Europe/Berlin");
    assert_eq!(place.latitude_e6, BERLIN.0);
    assert_eq!(place.longitude_e6, BERLIN.1);
    assert_eq!(place.currency, "EUR");
    assert_eq!(place.continent_code, "EU");
    assert_eq!(place.continent_name, "Europe");
    assert!(place.is_eu);
    assert_eq!(place.utc_offset, 3600);
    assert!(!place.dst_active);
    assert_eq!(place.utc_offset_str, "UTC+1");
    assert_eq!(place.timezone_abbr, "CET");
}

#[test]
fn geocoder_picks_the_closer_of_two_cities() {
    let g = parsed();
    let place = g.lookup(52_599_000, 13_499_000, CELL, PCELL, WINTER, 0).expect("a place");
    assert_eq!(place.city, "Pankow");
    assert_eq!(place.latitude_e6, PANKOW.0);
    assert_eq!(place.longitude_e6, PANKOW.1);
}

#[test]
fn geocoder_far_from_every_city_is_none() {
    let g = parsed();
    let cell = 100 * 3600 + 100;
    assert!(g.lookup_defined(-80_000_000, -170_000_000, cell, 1000 * 36000 + 1000));
    assert!(g.lookup(-80_000_000, -170_000_000, cell, 1000 * 36000 + 1000, WINTER, 0).is_none());
}

#[test]
fn geocoder_zone_facts_follow_the_clock() {
    let g = parsed();
    let place = g.lookup(BERLIN.0, BERLIN.1, CELL, PCELL, SUMMER, 0).expect("a place");
    assert_eq!(place.city, "Berlin");
    assert_eq!(place.utc_offset, 7200);
    assert_eq!(place.utc_offset_str, "UTC+2");
    assert_eq!(place.timezone_abbr, "CEST");
    assert!(place.dst_active);
}

#[test]
fn geocoder_with_no_cities_places_nothing() {
    let mut b = blob();
    set_u32(&mut b, 36, 0);
    assert!(Geocoder::parse_defined(&b));
    let g = match Geocoder::parse(b) {
        Ok(g) => g,
        Err(_) => panic!("blob rejected"),
    };
    for (lat, lon, cell) in [(BERLIN.0, BERLIN.1, CELL), (0, 0, 900 * 3600 + 1800), (-80_000_000, -170_000_000, 100 * 3600 + 100)] {
        assert!(g.lookup_defined(lat, lon, cell, PCELL));
        assert!(g.lookup(lat, lon, cell, PCELL, WINTER, 0).is_none());
    }
}
