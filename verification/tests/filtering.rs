use nordselect::filters::{
    BlackListFilter, CategoryFilter, CombinedFilter, CountriesFilter, CountryFilter, Filter,
    FilterKind, LoadFilter, LoadRangeFilter, NegatingFilter, ProtocolFilter, WhiteListFilter,
};
use nordselect::filters::Region;
use nordselect::sorters::LoadSorter;
use nordselect::{Features, Protocol, Server, ServerCategory, Servers};

fn features(tcp: bool, udp: bool) -> Features {
    Features {
        ikev2: false,
        openvpn_udp: udp,
        openvpn_tcp: tcp,
        socks: false,
        proxy: false,
        pptp: false,
        l2tp: false,
        openvpn_xor_udp: false,
        openvpn_xor_tcp: false,
        proxy_cybersec: false,
        proxy_ssl: false,
        proxy_ssl_cybersec: false,
        wireguard_udp: false,
    }
}

fn server(domain: &str, flag: &str, load: u8) -> Server {
    Server {
        flag: flag.to_string(),
        domain: domain.to_string(),
        load,
        categories: vec![ServerCategory::Standard],
        features: features(true, false),
    }
}

fn fixture() -> Servers {
    Servers {
        servers: vec![
            server("us1.nordvpn.com", "US", 50),
            server("us2.nordvpn.com", "US", 10),
            server("be1.nordvpn.com", "BE", 5),
        ],
    }
}

#[test]
fn country_filter_keeps_one_country() {
    let mut data = fixture();
    data.filter(&CountryFilter::from("US"));
    let domains: Vec<String> = data.servers.iter().map(|s| s.domain.clone()).collect();
    assert_eq!(domains, vec!["us1.nordvpn.com", "us2.nordvpn.com"]);
    data.sort(&LoadSorter);
    let best = data.perfect_server().unwrap();
    assert_eq!(best.domain, "us2.nordvpn.com");
    assert_eq!(data.servers[1].domain, "us1.nordvpn.com");
}

#[test]
fn country_filter_uppercases_its_code() {
    let mut data = fixture();
    data.filter(&CountryFilter::from("sg"));
    assert_eq!(data.perfect_server(), None);

    let mut data = fixture();
    data.filter(&CountryFilter::from("bE"));
    assert_eq!(data.perfect_server().unwrap().flag, "BE");
}

#[test]
fn countries_filter_simple() {
    let mut data = fixture();
    data.filter(&CountriesFilter::from_list(vec!["BE".to_string()]));
    let domains: Vec<String> = data.servers.iter().map(|s| s.domain.clone()).collect();
    assert_eq!(domains, vec!["be1.nordvpn.com"]);
    data.sort(&LoadSorter);
    assert_eq!(data.perfect_server().unwrap().domain, "be1.nordvpn.com");
}

#[test]
fn countries_filter_empty() {
    let mut data = fixture();
    data.filter(&CountriesFilter::from_list(Vec::new()));
    assert_eq!(data.perfect_server(), None);
}

#[test]
fn countries_filter_from_region() {
    let mut data = fixture();
    data.filter(&CountriesFilter::from(Region::Benelux));
    assert_eq!(data.perfect_server().unwrap().flag, "BE");
}

#[test]
fn blacklist_removes_listed_domains() {
    let mut data = fixture();
    data.filter(&BlackListFilter::from_text("us1.nordvpn.com\n"));
    let domains: Vec<String> = data.servers.iter().map(|s| s.domain.clone()).collect();
    assert_eq!(domains, vec!["us2.nordvpn.com", "be1.nordvpn.com"]);
}

#[test]
fn whitelist_keeps_only_listed_domains() {
    let mut data = fixture();
    data.filter(&WhiteListFilter::from_text("be1.nordvpn.com\nus2.nordvpn.com\n"));
    let domains: Vec<String> = data.servers.iter().map(|s| s.domain.clone()).collect();
    assert_eq!(domains, vec!["us2.nordvpn.com", "be1.nordvpn.com"]);
}

#[test]
fn list_parsing_skips_blank_lines_and_carriage_returns() {
    let mut data = fixture();
    data.filter(&WhiteListFilter::from_text("\nus1.nordvpn.com\r\n\r\nbe1.nordvpn.com"));
    let domains: Vec<String> = data.servers.iter().map(|s| s.domain.clone()).collect();
    assert_eq!(domains, vec!["us1.nordvpn.com", "be1.nordvpn.com"]);
}

#[test]
fn default_lists_are_empty() {
    let mut data = fixture();
    data.filter(&BlackListFilter::default());
    assert_eq!(data.servers.len(), 3);
    data.filter(&WhiteListFilter::default());
    assert_eq!(data.servers.len(), 0);
}

#[test]
fn load_filter_has_inclusive_upper_bound() {
    let f = LoadFilter::from(10);
    assert!(f.filter(&server("a.nordvpn.com", "US", 9)));
    assert!(f.filter(&server("a.nordvpn.com", "US", 10)));
    assert!(!f.filter(&server("a.nordvpn.com", "US", 11)));
}

#[test]
fn load_range_filter_excludes_both_bounds() {
    let f = LoadRangeFilter::from((10, 40));
    assert!(!f.filter(&server("a.nordvpn.com", "US", 10)));
    assert!(f.filter(&server("a.nordvpn.com", "US", 11)));
    assert!(f.filter(&server("a.nordvpn.com", "US", 39)));
    assert!(!f.filter(&server("a.nordvpn.com", "US", 40)));
}

#[test]
fn protocol_filter_reads_the_feature_table() {
    let tcp_only = server("a.nordvpn.com", "US", 1);
    assert!(ProtocolFilter::from(Protocol::Tcp).filter(&tcp_only));
    assert!(!ProtocolFilter::from(Protocol::Udp).filter(&tcp_only));
    assert!(!ProtocolFilter::from(Protocol::WireGuardUdp).filter(&tcp_only));

    let mut wg = server("b.nordvpn.com", "US", 1);
    wg.features.wireguard_udp = true;
    assert!(ProtocolFilter::from(Protocol::WireGuardUdp).filter(&wg));
}

#[test]
fn category_filter_checks_tags() {
    let standard = server("a.nordvpn.com", "US", 1);
    assert!(CategoryFilter::from(ServerCategory::Standard).filter(&standard));
    assert!(!CategoryFilter::from(ServerCategory::P2P).filter(&standard));
}

#[test]
fn negating_filter_inverts() {
    let mut data = fixture();
    data.filter(&NegatingFilter::new(CountryFilter::from("BE")));
    assert_ne!(data.perfect_server().unwrap().flag, "BE");
    assert_eq!(data.servers.len(), 2);
}

#[test]
fn negation_partitions_the_catalog() {
    let p = CountryFilter::from("US");
    let mut kept = fixture();
    kept.filter(&p);
    let mut dropped = fixture();
    dropped.filter(&NegatingFilter::new(CountryFilter::from("US")));
    let mut all: Vec<String> = kept
        .servers
        .iter()
        .chain(dropped.servers.iter())
        .map(|s| s.domain.clone())
        .collect();
    all.sort();
    assert_eq!(all, vec!["be1.nordvpn.com", "us1.nordvpn.com", "us2.nordvpn.com"]);
    for s in kept.servers.iter() {
        assert!(!dropped.servers.contains(s));
    }
}

#[test]
fn filtering_is_idempotent() {
    let mut once = fixture();
    once.filter(&LoadFilter::from(10));
    let mut twice = fixture();
    twice.filter(&LoadFilter::from(10));
    twice.filter(&LoadFilter::from(10));
    assert_eq!(once.servers, twice.servers);
}

#[test]
fn combined_filter_takes_the_conjunction() {
    let mut combined = CombinedFilter::new();
    combined.add_filter(FilterKind::Country(CountryFilter::from("US")));
    combined.add_filter(FilterKind::Load(LoadFilter::from(20)));
    let mut data = fixture();
    data.filter(&combined);
    let domains: Vec<String> = data.servers.iter().map(|s| s.domain.clone()).collect();
    assert_eq!(domains, vec!["us2.nordvpn.com"]);
}

#[test]
fn empty_combined_filter_keeps_everything() {
    let mut data = fixture();
    data.filter(&CombinedFilter::with_capacity(4));
    assert_eq!(data.servers.len(), 3);
}

#[test]
fn cut_truncates_the_catalog() {
    let mut data = fixture();
    data.cut(2);
    assert_eq!(data.servers.len(), 2);
    assert_eq!(data.servers[0].domain, "us1.nordvpn.com");
    data.cut(10);
    assert_eq!(data.servers.len(), 2);
}

#[test]
fn flags_lists_every_country_once() {
    let data = fixture();
    let flags = data.flags();
    assert_eq!(flags, vec!["US".to_string(), "BE".to_string()]);
}

#[test]
fn perfect_server_of_empty_catalog() {
    let data = Servers { servers: Vec::new() };
    assert_eq!(data.perfect_server(), None);
}
