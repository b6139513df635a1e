use nordselect::cli::{apply_filters, parse_filter, parse_static_filter, FilterError};
use nordselect::filters::Filter;
use nordselect::{Features, Server, ServerCategory, Servers};

fn server(domain: &str, flag: &str, load: u8, tcp: bool) -> Server {
    Server {
        flag: flag.to_string(),
        domain: domain.to_string(),
        load,
        categories: vec![ServerCategory::Standard],
        features: Features {
            ikev2: false,
            openvpn_udp: false,
            openvpn_tcp: tcp,
            socks: false,
            proxy: false,
            pptp: false,
            l2tp: false,
            openvpn_xor_udp: false,
            openvpn_xor_tcp: false,
            proxy_cybersec: false,
            proxy_ssl: false,
            proxy_ssl_cybersec: false,
            wireguard_udp: false,
        },
    }
}

fn fixture() -> Servers {
    Servers {
        servers: vec![
            server("us1.nordvpn.com", "US", 50, true),
            server("us2.nordvpn.com", "US", 10, false),
            server("be1.nordvpn.com", "BE", 5, true),
        ],
    }
}

#[test]
fn unrecognized_token_is_reported() {
    let data = fixture();
    let flags = data.flags();
    let result = parse_filter("xyz123", &flags);
    assert_eq!(
        result.unwrap_err(),
        FilterError::UnrecognizedFilter("xyz123".to_string())
    );
}

#[test]
fn static_filters_take_precedence() {
    let (filter, is_category) = parse_static_filter("p2p").unwrap();
    assert!(is_category);
    assert!(!filter.filter(&server("a.nordvpn.com", "US", 1, true)));

    let (filter, is_category) = parse_static_filter("tcp").unwrap();
    assert!(!is_category);
    assert!(filter.filter(&server("a.nordvpn.com", "US", 1, true)));
    assert!(!filter.filter(&server("a.nordvpn.com", "US", 1, false)));

    assert!(parse_static_filter("xyz123").is_none());
    assert!(parse_static_filter("US").is_none());
}

#[test]
fn protocol_tokens_follow_the_fixed_table() {
    let mut wg = server("a.nordvpn.com", "US", 1, false);
    wg.features.wireguard_udp = true;
    let (filter, is_category) = parse_static_filter("wg_udp").unwrap();
    assert!(!is_category);
    assert!(filter.filter(&wg));

    // the xor token maps to the plain OpenVPN TCP feature
    let (filter, _) = parse_static_filter("tcp_xor").unwrap();
    assert!(filter.filter(&server("a.nordvpn.com", "US", 1, true)));
}

#[test]
fn country_tokens_resolve_case_insensitively() {
    let data = fixture();
    let flags = data.flags();
    let filter = parse_filter("us", &flags).unwrap();
    assert!(filter.filter(&server("x.nordvpn.com", "US", 1, true)));
    assert!(!filter.filter(&server("x.nordvpn.com", "BE", 1, true)));
    // a country without servers in the catalog is not recognized
    assert!(parse_filter("sg", &flags).is_err());
}

#[test]
fn region_tokens_resolve_to_country_sets() {
    let data = fixture();
    let flags = data.flags();
    let filter = parse_filter("benelux", &flags).unwrap();
    assert!(filter.filter(&server("x.nordvpn.com", "BE", 1, true)));
    assert!(filter.filter(&server("x.nordvpn.com", "NL", 1, true)));
    assert!(!filter.filter(&server("x.nordvpn.com", "US", 1, true)));
}

#[test]
fn negated_tokens_invert_the_filter() {
    let data = fixture();
    let flags = data.flags();
    let filter = parse_filter("!us", &flags).unwrap();
    assert!(!filter.filter(&server("x.nordvpn.com", "US", 1, true)));
    assert!(filter.filter(&server("x.nordvpn.com", "BE", 1, true)));
    assert_eq!(
        parse_filter("!xyz123", &flags).unwrap_err(),
        FilterError::UnrecognizedFilter("xyz123".to_string())
    );
}

#[test]
fn apply_filters_takes_the_conjunction() {
    let mut data = fixture();
    let flags = data.flags();
    let filters = vec![
        parse_filter("us", &flags).unwrap(),
        parse_filter("tcp", &flags).unwrap(),
    ];
    apply_filters(filters, &mut data);
    let domains: Vec<String> = data.servers.iter().map(|s| s.domain.clone()).collect();
    assert_eq!(domains, vec!["us1.nordvpn.com"]);
}

#[test]
fn apply_no_filters_changes_nothing() {
    let mut data = fixture();
    apply_filters(Vec::new(), &mut data);
    assert_eq!(data.servers.len(), 3);
}

#[test]
fn category_names_from_the_api() {
    assert_eq!(
        ServerCategory::from("Standard VPN servers".to_string()),
        ServerCategory::Standard
    );
    assert_eq!(ServerCategory::from("P2P".to_string()), ServerCategory::P2P);
    assert_eq!(
        ServerCategory::from("Double VPN".to_string()),
        ServerCategory::Double
    );
    assert_eq!(
        ServerCategory::from("Onion Over VPN".to_string()),
        ServerCategory::Tor
    );
    assert_eq!(
        ServerCategory::from("Obfuscated Servers".to_string()),
        ServerCategory::Obfuscated
    );
    assert_eq!(
        ServerCategory::from("Dedicated IP".to_string()),
        ServerCategory::Dedicated
    );
    assert_eq!(
        ServerCategory::from("something new".to_string()),
        ServerCategory::UnknownServer
    );
}

#[test]
fn server_names_strip_the_vendor_suffix() {
    assert_eq!(server("us1.nordvpn.com", "US", 1, true).name(), Some("us1"));
    assert_eq!(server("example.com", "US", 1, true).name(), None);
    assert_eq!(server(".nordvpn.com", "US", 1, true).name(), None);
    assert_eq!(
        server("a.b.nordvpn.com", "US", 1, true).name(),
        Some("a.b")
    );
}
