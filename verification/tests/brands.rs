use ipsight::provider::provider;

fn case(name: &str, org: &str, expected: &str) {
    let got = provider(name, org);
    assert_eq!(got, expected, "name={name:?} org={org:?}");
}

#[test]
fn brands() {
    case("CLOUDFLARENET - Cloudflare, Inc.", "Cloudflare, Inc.", "Cloudflare");
    case("HETZNER-AS Hetzner Online GmbH", "Hetzner Online GmbH", "Hetzner");
    case("GOOGLE - Google LLC", "Google LLC", "Google");
    case("AMAZON-02 - Amazon.com, Inc.", "Amazon.com, Inc.", "Amazon");
    case("DTAG Deutsche Telekom AG", "Deutsche Telekom AG", "Deutsche Telekom");
    case("SOFTLAYER - IBM Cloud", "IBM Cloud", "IBM");
    case("OVH OVH SAS", "OVH SAS", "OVH");
    case("ATT-INTERNET4 - AT&T Enterprises, LLC", "AT&T Enterprises, LLC", "AT&T");
    case("TELUS Communications", "TELUS Communications Inc.", "Telus");
    case("M247 M247 Europe SRL", "M247 Europe SRL", "M247");
    case("netcup-AS netcup GmbH", "netcup GmbH", "netcup");
    case("APPLE-ENGINEERING - Apple Inc.", "Apple Inc.", "Apple");
    case("FACEBOOK - Facebook, Inc.", "Facebook, Inc.", "Facebook");
}
