use nordselect::bench::{Benchmarker, LoadBenchmarker};
use nordselect::sorters::{LoadSorter, PingSorter, Sorter};
use nordselect::{Features, Server, ServerCategory, Servers};
use std::cmp::Ordering;

fn server(domain: &str, flag: &str, load: u8) -> Server {
    Server {
        flag: flag.to_string(),
        domain: domain.to_string(),
        load,
        categories: vec![ServerCategory::Standard],
        features: Features {
            ikev2: false,
            openvpn_udp: true,
            openvpn_tcp: true,
            socks: false,
            proxy: false,
            pptp: false,
            l2tp: false,
            openvpn_xor_udp: false,
            openvpn_xor_tcp: false,
            proxy_cybersec: false,
            proxy_ssl: false,
            proxy_ssl_cybersec: false,
            wireguard_udp: false,
        },
    }
}

#[test]
fn load_sorter_prefers_the_least_loaded() {
    let a = server("a.nordvpn.com", "US", 10);
    let b = server("b.nordvpn.com", "US", 20);
    assert_eq!(LoadSorter.sort(&a, &b), Ordering::Less);
    assert_eq!(LoadSorter.sort(&b, &a), Ordering::Greater);
    assert_eq!(LoadSorter.sort(&a, &a), Ordering::Equal);
}

#[test]
fn sorting_by_load_puts_the_best_first() {
    let mut data = Servers {
        servers: vec![
            server("us1.nordvpn.com", "US", 50),
            server("us2.nordvpn.com", "US", 10),
            server("be1.nordvpn.com", "BE", 5),
        ],
    };
    data.sort(&LoadSorter);
    let loads: Vec<u8> = data.servers.iter().map(|s| s.load).collect();
    assert_eq!(loads, vec![5, 10, 50]);
    assert_eq!(data.perfect_server().unwrap().domain, "be1.nordvpn.com");
}

#[test]
fn batched_rounds_average_per_host() {
    // host A answers in 10, 20 and 30 microseconds; host B in 40, 40 and 40
    let a = "a.nordvpn.com".to_string();
    let b = "b.nordvpn.com".to_string();
    let rounds = vec![
        vec![(a.clone(), 10u64), (b.clone(), 40u64)],
        vec![(a.clone(), 20u64), (b.clone(), 40u64)],
        vec![(a.clone(), 30u64), (b.clone(), 40u64)],
    ];
    let sorter = PingSorter::from_rounds(&rounds, 3);
    let sa = server("a.nordvpn.com", "US", 1);
    let sb = server("b.nordvpn.com", "US", 1);
    // mean latencies are 20 and 40, so A is ranked before B
    assert_eq!(sorter.sort(&sa, &sb), Ordering::Less);
    assert_eq!(sorter.sort(&sb, &sa), Ordering::Greater);
    assert_eq!(sorter.sort(&sa, &sa), Ordering::Equal);

    let mut data = Servers { servers: vec![server("b.nordvpn.com", "US", 1), server("a.nordvpn.com", "US", 2)] };
    data.sort(&sorter);
    assert_eq!(data.perfect_server().unwrap().domain, "a.nordvpn.com");
}

#[test]
fn host_absent_from_a_round_still_gets_its_sum_divided_by_tries() {
    let a = "a.nordvpn.com".to_string();
    let b = "b.nordvpn.com".to_string();
    // B only answers once with 30: its mean over 2 tries is 15
    let rounds = vec![
        vec![(a.clone(), 40u64), (b.clone(), 30u64)],
        vec![(a.clone(), 40u64)],
    ];
    let sorter = PingSorter::from_rounds(&rounds, 2);
    let sa = server("a.nordvpn.com", "US", 1);
    let sb = server("b.nordvpn.com", "US", 1);
    assert_eq!(sorter.sort(&sb, &sa), Ordering::Less);
}

#[test]
fn sequential_samples_average_per_host() {
    let samples = vec![
        ("a.nordvpn.com".to_string(), vec![10u64, 20u64, 30u64]),
        ("b.nordvpn.com".to_string(), vec![40u64, 40u64, 40u64]),
    ];
    let sorter = PingSorter::from_samples(&samples, 3);
    let sa = server("a.nordvpn.com", "US", 1);
    let sb = server("b.nordvpn.com", "US", 1);
    assert_eq!(sorter.sort(&sa, &sb), Ordering::Less);
}

#[test]
fn truncation_of_integer_means() {
    // sums that do not divide evenly are rounded down
    let samples = vec![("a.nordvpn.com".to_string(), vec![10u64, 11u64])];
    let sorter = PingSorter::from_samples(&samples, 2);
    let rounds = vec![vec![("b.nordvpn.com".to_string(), 10u64)], vec![("b.nordvpn.com".to_string(), 11u64)]];
    let other = PingSorter::from_rounds(&rounds, 2);
    let sa = server("a.nordvpn.com", "US", 1);
    let sb = server("b.nordvpn.com", "US", 1);
    // both means are 10 (21 / 2 rounded down); order them through one map each
    assert_eq!(sorter.sort(&sa, &sa), Ordering::Equal);
    assert_eq!(other.sort(&sb, &sb), Ordering::Equal);
}

#[test]
fn load_benchmarker_scores_by_load() {
    let s = server("a.nordvpn.com", "US", 42);
    assert_eq!(LoadBenchmarker.bench(&s), Ok((42u32, 42u8)));
}
