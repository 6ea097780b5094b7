use ipsight::provider::{provider, provider_is_defined, split_first_token};

#[test]
fn first_token_before_dash_or_space() {
    assert_eq!(split_first_token("CLOUDFLARENET - Cloudflare, Inc."), "CLOUDFLARENET");
    assert_eq!(split_first_token("DTAG Deutsche Telekom AG"), "DTAG");
    assert_eq!(split_first_token("  lead  rest"), "lead");
    assert_eq!(split_first_token(""), "");
    assert_eq!(split_first_token("A-B - C"), "A-B");
}

#[test]
fn provider_from_company_alone() {
    assert_eq!(provider("", "Example Networks Inc."), "Example");
    assert_eq!(provider("", "The Example Group"), "Example");
    assert_eq!(provider("", "example.com"), "example");
}

#[test]
fn provider_from_name_alone() {
    assert!(provider_is_defined("EXAMPLENET"));
    assert_eq!(provider("EXAMPLENET", ""), "Example");
    assert_eq!(provider("EXAMPLE-AS", ""), "Example");
    assert_eq!(provider("", ""), "");
}

#[test]
fn provider_undefined_where_a_tail_cut_splits_a_character() {
    assert!(!provider_is_defined("AB\u{20ac}C"));
    assert!(provider_is_defined("AB\u{20ac}CDEF"));
}
