use ipsight::schedule::{classify, if_modified_since, initial_delay_nanos, Reply, UPDATE_INTERVAL_NANOS};

#[test]
fn first_refresh_waits_out_the_day() {
    assert_eq!(UPDATE_INTERVAL_NANOS, 24 * 3600 * 1_000_000_000);
    assert_eq!(initial_delay_nanos(None), 0);
    assert_eq!(initial_delay_nanos(Some(0)), UPDATE_INTERVAL_NANOS);
    assert_eq!(initial_delay_nanos(Some(3600 * 1_000_000_000)), 23 * 3600 * 1_000_000_000);
    assert_eq!(initial_delay_nanos(Some(UPDATE_INTERVAL_NANOS as u128)), 0);
    assert_eq!(initial_delay_nanos(Some(u128::MAX)), 0);
}

#[test]
fn replies_by_status() {
    assert_eq!(classify(304), Reply::NotModified);
    assert_eq!(classify(200), Reply::Fresh);
    assert_eq!(classify(302), Reply::Fresh);
    assert_eq!(classify(404), Reply::Refused);
    assert_eq!(classify(400), Reply::Refused);
    assert_eq!(classify(599), Reply::Refused);
    assert_eq!(classify(600), Reply::Fresh);
}

#[test]
fn conditional_fetch_dates() {
    assert_eq!(if_modified_since(None), None);
    assert_eq!(if_modified_since(Some(784_111_777)), Some("Sun, 06 Nov 1994 08:49:37 GMT".to_string()));
    assert_eq!(if_modified_since(Some(0)), Some("Thu, 01 Jan 1970 00:00:00 GMT".to_string()));
}
