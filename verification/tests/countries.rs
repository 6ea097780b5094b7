use ipsight::countries::{enrich, fmt_offset, place_from};

/// 2024-01-15 12:00 UTC.
const WINTER: i64 = 1_705_320_000;
/// 2024-07-15 12:00 UTC.
const SUMMER: i64 = 1_721_044_800;

#[test]
fn offsets_in_whole_hours() {
    assert_eq!(fmt_offset(0), "UTC+0");
    assert_eq!(fmt_offset(3600), "UTC+1");
    assert_eq!(fmt_offset(36_000), "UTC+10");
    assert_eq!(fmt_offset(-18_000), "UTC-5");
}

#[test]
fn offsets_with_minutes() {
    assert_eq!(fmt_offset(19_800), "UTC+5:30");
    assert_eq!(fmt_offset(20_700), "UTC+5:45");
    assert_eq!(fmt_offset(-12_600), "UTC-3:30");
    assert_eq!(fmt_offset(3660), "UTC+1:01");
}

#[test]
fn offsets_under_an_hour_west_keep_a_plus() {
    assert_eq!(fmt_offset(-1800), "UTC+0:30");
}

#[test]
fn enrich_unknown_zone_and_country() {
    let p = enrich("Nowhere", "", "", "", "ZZ", "", "Mars/Olympus", 1_000_000, -2_000_000, WINTER, 0);
    assert_eq!(p.city, "Nowhere");
    assert_eq!(p.country_code, "ZZ");
    assert_eq!(p.country_name, "Unknown");
    assert_eq!(p.currency, "");
    assert_eq!(p.continent_code, "");
    assert_eq!(p.continent_name, "Unknown");
    assert!(!p.is_eu);
    assert_eq!(p.timezone, "Mars/Olympus");
    assert_eq!(p.timezone_abbr, "");
    assert_eq!(p.utc_offset, 0);
    assert_eq!(p.utc_offset_str, "UTC+0");
    assert!(!p.dst_active);
    assert_eq!(p.latitude_e6, 1_000_000);
    assert_eq!(p.longitude_e6, -2_000_000);
}

#[test]
fn enrich_known_zone_and_country() {
    let p = enrich("Brisbane", "Queensland", "04", "Brisbane", "AU", "4000", "Australia/Brisbane", -27_467_940, 153_028_090, SUMMER, 0);
    assert_eq!(p.country_name, "Australia");
    assert_eq!(p.currency, "AUD");
    assert_eq!(p.continent_code, "OC");
    assert_eq!(p.continent_name, "Oceania");
    assert!(!p.is_eu);
    assert_eq!(p.utc_offset, 36_000);
    assert_eq!(p.utc_offset_str, "UTC+10");
    assert_eq!(p.timezone_abbr, "AEST");
    assert!(!p.dst_active);
    assert_eq!(p.postal_code, "4000");
}

#[test]
fn enrich_utc_zone() {
    let p = enrich("", "", "", "", "GB", "", "UTC", 0, 0, WINTER, 500_000_000);
    assert_eq!(p.utc_offset, 0);
    assert_eq!(p.utc_offset_str, "UTC+0");
    assert_eq!(p.timezone_abbr, "UTC");
    assert!(!p.dst_active);
    assert_eq!(p.country_name, "United Kingdom");
    assert_eq!(p.currency, "GBP");
    assert!(!p.is_eu);
}

#[test]
fn enrich_daylight_saving_follows_the_offset() {
    let w = enrich("Berlin", "", "", "", "DE", "", "Europe/Berlin", 52_520_008, 13_404_954, WINTER, 0);
    assert_eq!(w.utc_offset, 3600);
    assert_eq!(w.utc_offset_str, "UTC+1");
    assert_eq!(w.timezone_abbr, "CET");
    assert!(!w.dst_active);
    assert_eq!(w.country_name, "Germany");
    assert!(w.is_eu);
    assert_eq!(w.continent_code, "EU");
    let s = enrich("Berlin", "", "", "", "DE", "", "Europe/Berlin", 52_520_008, 13_404_954, SUMMER, 0);
    assert_eq!(s.utc_offset, 7200);
    assert_eq!(s.utc_offset_str, "UTC+2");
    assert_eq!(s.timezone_abbr, "CEST");
    assert!(s.dst_active);
}

#[test]
fn enrich_reads_the_zone_at_the_given_instant() {
    let p = enrich("New York", "", "", "", "US", "", "America/New_York", 40_712_776, -74_005_974, 0, 0);
    assert_eq!(p.utc_offset, -18_000);
    assert_eq!(p.utc_offset_str, "UTC-5");
    assert_eq!(p.timezone_abbr, "EST");
    assert!(!p.dst_active);
    let q = enrich("New York", "", "", "", "US", "", "America/New_York", 40_712_776, -74_005_974, SUMMER, 999_999_999);
    assert_eq!(q.utc_offset, -14_400);
    assert_eq!(q.timezone_abbr, "EDT");
    assert!(q.dst_active);
}

#[test]
fn place_from_keeps_the_given_zone_facts() {
    let p = place_from("Kathmandu", "Bagmati", "B", "", "NP", "44600", "Asia/Kathmandu", "+0545", 20_700, Some(20_700), Some(20_700), 27_717_245, 85_323_961);
    assert_eq!(p.city, "Kathmandu");
    assert_eq!(p.region, "Bagmati");
    assert_eq!(p.region_code, "B");
    assert_eq!(p.postal_code, "44600");
    assert_eq!(p.timezone, "Asia/Kathmandu");
    assert_eq!(p.timezone_abbr, "+0545");
    assert_eq!(p.utc_offset, 20_700);
    assert_eq!(p.utc_offset_str, "UTC+5:45");
    assert!(!p.dst_active);
    assert_eq!(p.country_name, "Nepal");
    assert_eq!(p.currency, "NPR");
    assert_eq!(p.continent_code, "AS");
    assert_eq!(p.latitude_e6, 27_717_245);
    assert_eq!(p.longitude_e6, 85_323_961);
}

#[test]
fn place_from_daylight_saving_needs_both_reference_offsets() {
    let on = place_from("", "", "", "", "DE", "", "Europe/Berlin", "CEST", 7200, Some(3600), Some(7200), 0, 0);
    assert!(on.dst_active);
    let south = place_from("", "", "", "", "AU", "", "Australia/Sydney", "AEDT", 39_600, Some(39_600), Some(36_000), 0, 0);
    assert!(south.dst_active);
    let std = place_from("", "", "", "", "AU", "", "Australia/Sydney", "AEST", 36_000, Some(39_600), Some(36_000), 0, 0);
    assert!(!std.dst_active);
    let missing = place_from("", "", "", "", "DE", "", "Europe/Berlin", "CEST", 7200, None, Some(7200), 0, 0);
    assert!(!missing.dst_active);
    assert_eq!(missing.utc_offset_str, "UTC+2");
}
