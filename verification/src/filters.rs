//! The filters module consists of the Filter trait (used to implement filters)
//! and several common implementations of it.

pub mod list;
pub mod region;

pub use list::BlackListFilter;
pub use list::WhiteListFilter;
pub use region::Region;

use crate::servers::{Features, Protocol, Server, ServerCategory, ServerView};
use crate::strutil::{str_eq, to_ascii_upper, upper_seq};
use region::spec_region_countries;
use vstd::prelude::*;

verus! {

/// Way to reduce the amount of available servers.
pub trait Filter {
    /// The predicate this filter stands for.
    spec fn spec_accepts(&self, server: ServerView) -> bool;

    /// Returns whether this server fullfills the needs of the Filter. When
    /// false, the given server should be removed from the set.
    fn filter(&self, server: &Server) -> (r: bool)
        ensures
            r == self.spec_accepts(server@),
    ;
}

/// The predicate of a filter, as a function over server records.
pub open spec fn accepts_fn<F: Filter>(f: &F) -> spec_fn(Server) -> bool {
    |s: Server| f.spec_accepts(s@)
}

/// The negated predicate of a filter, as a function over server records.
pub open spec fn rejects_fn<F: Filter>(f: &F) -> spec_fn(Server) -> bool {
    |s: Server| !f.spec_accepts(s@)
}

/// Filter to only use servers from one specific country.
#[derive(Debug)]
pub struct CountryFilter {
    /// The country on which to filter, noted according to ISO 3166-1 alpha-2.
    country: String,
}

impl CountryFilter {
    /// The country code this filter keeps.
    pub closed spec fn spec_country(&self) -> Seq<char> {
        self.country@
    }

    /// Builds a filter for one country code; the code is taken
    /// case-insensitively and normalized to uppercase once.
    pub fn from(countrycode: &str) -> (r: CountryFilter)
        ensures
            r.spec_country() == upper_seq(countrycode@),
    {
        CountryFilter { country: to_ascii_upper(countrycode) }
    }
}

impl Filter for CountryFilter {
    open spec fn spec_accepts(&self, server: ServerView) -> bool {
        server.flag == self.spec_country()
    }

    fn filter(&self, server: &Server) -> (r: bool) {
        str_eq(self.country.as_str(), server.flag.as_str())
    }
}

/// Filter that keeps servers from any of the provided countries.
///
/// This struct can be built from your own list of countries, or from one of
/// the provided regions.
#[derive(Debug)]
pub struct CountriesFilter {
    /// Countries which are allowed.
    countries: Vec<String>,
}

impl CountriesFilter {
    /// The set of country codes this filter allows.
    pub closed spec fn spec_countries(&self) -> Set<Seq<char>> {
        self.countries@.map_values(|s: String| s@).to_set()
    }

    /// Builds a filter that keeps the countries of the given region.
    pub fn from(region: Region) -> (r: CountriesFilter)
        ensures
            r.spec_countries() == spec_region_countries(region).to_set(),
    {
        let codes = region.countries();
        let mut countries: Vec<String> = Vec::new();
        let mut i: usize = 0;
        while i < codes.len()
            invariant
                i <= codes.len(),
                countries@.map_values(|s: String| s@) == codes@.map_values(|c: &str| c@).take(
                    i as int,
                ),
            decreases codes.len() - i,
        {
            let owned = codes[i].to_owned();
            let ghost prev = countries@;
            countries.push(owned);
            proof {
                let f = |s: String| s@;
                let g = |c: &str| c@;
                assert(countries@.map_values(f) =~= prev.map_values(f).push(codes@[i as int]@));
                assert(codes@.map_values(g).take(i + 1) =~= prev.map_values(f).push(
                    codes@[i as int]@,
                ));
            }
            i += 1;
        }
        proof {
            assert(codes@.map_values(|c: &str| c@).take(codes@.len() as int) =~= codes@.map_values(
                |c: &str| c@,
            ));
        }
        CountriesFilter { countries }
    }

    /// Builds a filter that keeps exactly the given country codes.
    pub fn from_list(countries: Vec<String>) -> (r: CountriesFilter)
        ensures
            r.spec_countries() == countries@.map_values(|s: String| s@).to_set(),
    {
        CountriesFilter { countries }
    }
}

impl Filter for CountriesFilter {
    open spec fn spec_accepts(&self, server: ServerView) -> bool {
        self.spec_countries().contains(server.flag)
    }

    fn filter(&self, server: &Server) -> (r: bool) {
        let ghost mapped = self.countries@.map_values(|s: String| s@);
        let mut i: usize = 0;
        while i < self.countries.len()
            invariant
                i <= self.countries.len(),
                mapped == self.countries@.map_values(|s: String| s@),
                forall|k: int| 0 <= k < i ==> mapped[k] != server.flag@,
            decreases self.countries.len() - i,
        {
            if self.countries[i] == server.flag {
                proof {
                    assert(mapped[i as int] == server.flag@);
                    assert(mapped.contains(server.flag@));
                }
                return true;
            }
            i += 1;
        }
        proof {
            assert(!mapped.contains(server.flag@));
        }
        false
    }
}

/// Which feature flag a protocol corresponds to: the fixed table mapping each
/// protocol to exactly one feature of a server.
pub open spec fn spec_protocol_supported(protocol: Protocol, features: Features) -> bool {
    match protocol {
        Protocol::Tcp => features.openvpn_tcp,
        Protocol::Udp => features.openvpn_udp,
        Protocol::Pptp => features.pptp,
        Protocol::L2tp => features.l2tp,
        Protocol::OpenVPNXTcp => features.openvpn_tcp,
        Protocol::OpenVPNXUdp => features.openvpn_udp,
        Protocol::Socks => features.socks,
        Protocol::CyberSecProxy => features.proxy_cybersec,
        Protocol::SslProxy => features.proxy_ssl,
        Protocol::CyberSecSslProxy => features.proxy_ssl_cybersec,
        Protocol::Proxy => features.proxy,
        Protocol::WireGuardUdp => features.wireguard_udp,
    }
}

/// Filter that keeps only servers that accept a specific protocol.
#[derive(Debug)]
pub struct ProtocolFilter {
    /// The protocol that should be filtered against.
    protocol: Protocol,
}

impl ProtocolFilter {
    /// The protocol this filter keeps.
    pub closed spec fn spec_protocol(&self) -> Protocol {
        self.protocol
    }

    /// Builds a filter for one protocol.
    pub fn from(protocol: Protocol) -> (r: ProtocolFilter)
        ensures
            r.spec_protocol() == protocol,
    {
        ProtocolFilter { protocol }
    }
}

impl Filter for ProtocolFilter {
    open spec fn spec_accepts(&self, server: ServerView) -> bool {
        spec_protocol_supported(self.spec_protocol(), server.features)
    }

    fn filter(&self, server: &Server) -> (r: bool) {
        match self.protocol {
            Protocol::Tcp => server.features.openvpn_tcp,
            Protocol::Udp => server.features.openvpn_udp,
            Protocol::Pptp => server.features.pptp,
            Protocol::L2tp => server.features.l2tp,
            Protocol::OpenVPNXTcp => server.features.openvpn_tcp,
            Protocol::OpenVPNXUdp => server.features.openvpn_udp,
            Protocol::Socks => server.features.socks,
            Protocol::CyberSecProxy => server.features.proxy_cybersec,
            Protocol::SslProxy => server.features.proxy_ssl,
            Protocol::CyberSecSslProxy => server.features.proxy_ssl_cybersec,
            Protocol::Proxy => server.features.proxy,
            Protocol::WireGuardUdp => server.features.wireguard_udp,
        }
    }
}

/// Filter that keeps servers with less or equal load compared to a provided
/// value (inclusive upper bound).
#[derive(Debug)]
pub struct LoadFilter {
    /// The maximal allowed load.
    load: u8,
}

impl LoadFilter {
    /// The maximal load this filter accepts.
    pub closed spec fn spec_max_load(&self) -> u8 {
        self.load
    }

    /// Builds a filter that keeps servers whose load is at most the given value.
    pub fn from(load: u8) -> (r: LoadFilter)
        ensures
            r.spec_max_load() == load,
    {
        LoadFilter { load }
    }
}

impl Filter for LoadFilter {
    open spec fn spec_accepts(&self, server: ServerView) -> bool {
        server.load <= self.spec_max_load()
    }

    fn filter(&self, server: &Server) -> (r: bool) {
        server.load <= self.load
    }
}

/// Filter that keeps servers whose load lies strictly between two bounds
/// (exclusive on both ends; this differs deliberately from [`LoadFilter`]'s
/// inclusive upper bound).
#[derive(Debug)]
pub struct LoadRangeFilter {
    /// Minimum allowed load.
    min_load: u8,
    /// Maximum allowed load.
    max_load: u8,
}

impl LoadRangeFilter {
    /// The exclusive lower bound on the load.
    pub closed spec fn spec_min_load(&self) -> u8 {
        self.min_load
    }

    /// The exclusive upper bound on the load.
    pub closed spec fn spec_max_load(&self) -> u8 {
        self.max_load
    }

    /// Builds a filter from `(min, max)`: a server's load has to be greater
    /// than `min` and less than `max` to be kept.
    pub fn from(loads: (u8, u8)) -> (r: LoadRangeFilter)
        ensures
            r.spec_min_load() == loads.0,
            r.spec_max_load() == loads.1,
    {
        LoadRangeFilter { min_load: loads.0, max_load: loads.1 }
    }
}

impl Filter for LoadRangeFilter {
    open spec fn spec_accepts(&self, server: ServerView) -> bool {
        self.spec_min_load() < server.load < self.spec_max_load()
    }

    fn filter(&self, server: &Server) -> (r: bool) {
        self.min_load < server.load && server.load < self.max_load
    }
}

/// Filter the Servers using a given category.
#[derive(Debug)]
pub struct CategoryFilter {
    category: ServerCategory,
}

impl CategoryFilter {
    /// The category tag this filter keeps.
    pub closed spec fn spec_category(&self) -> ServerCategory {
        self.category
    }

    /// Builds a filter for one category tag.
    pub fn from(category: ServerCategory) -> (r: CategoryFilter)
        ensures
            r.spec_category() == category,
    {
        CategoryFilter { category }
    }
}

impl Filter for CategoryFilter {
    open spec fn spec_accepts(&self, server: ServerView) -> bool {
        server.categories.contains(self.spec_category())
    }

    fn filter(&self, server: &Server) -> (r: bool) {
        let mut i: usize = 0;
        while i < server.categories.len()
            invariant
                i <= server.categories.len(),
                forall|k: int| 0 <= k < i ==> server.categories@[k] != self.category,
            decreases server.categories.len() - i,
        {
            if server.categories[i] == self.category {
                return true;
            }
            i += 1;
        }
        false
    }
}

/// Filter that negates the results of a given filter.
#[derive(Debug)]
pub struct NegatingFilter<F: Filter>(F);

impl<F: Filter> NegatingFilter<F> {
    /// The filter being negated.
    pub closed spec fn spec_inner(&self) -> F {
        self.0
    }

    /// Wraps a filter; the result accepts exactly the servers the wrapped
    /// filter rejects.
    pub fn new(filter: F) -> (r: Self)
        ensures
            r.spec_inner() == filter,
    {
        Self(filter)
    }
}

impl<F: Filter> Filter for NegatingFilter<F> {
    open spec fn spec_accepts(&self, server: ServerView) -> bool {
        !self.spec_inner().spec_accepts(server)
    }

    fn filter(&self, server: &Server) -> (r: bool) {
        !self.0.filter(server)
    }
}

/// One of the known kinds of filters: the closed sum of the predicates this
/// library can build at run time, including negation.
#[derive(Debug)]
pub enum FilterKind {
    /// Keep one country.
    Country(CountryFilter),
    /// Keep a set of countries.
    Countries(CountriesFilter),
    /// Keep servers supporting a protocol.
    Protocol(ProtocolFilter),
    /// Keep servers with load at most a bound.
    Load(LoadFilter),
    /// Keep servers with load strictly between two bounds.
    LoadRange(LoadRangeFilter),
    /// Keep servers carrying a category tag.
    Category(CategoryFilter),
    /// Keep servers whose domain is on a list.
    WhiteList(WhiteListFilter),
    /// Keep servers whose domain is not on a list.
    BlackList(BlackListFilter),
    /// Keep exactly the servers the inner filter rejects.
    Not(Box<FilterKind>),
}

/// The predicate a [`FilterKind`] stands for.
pub open spec fn spec_kind_accepts(k: FilterKind, server: ServerView) -> bool
    decreases k,
{
    match k {
        FilterKind::Country(f) => f.spec_accepts(server),
        FilterKind::Countries(f) => f.spec_accepts(server),
        FilterKind::Protocol(f) => f.spec_accepts(server),
        FilterKind::Load(f) => f.spec_accepts(server),
        FilterKind::LoadRange(f) => f.spec_accepts(server),
        FilterKind::Category(f) => f.spec_accepts(server),
        FilterKind::WhiteList(f) => f.spec_accepts(server),
        FilterKind::BlackList(f) => f.spec_accepts(server),
        FilterKind::Not(inner) => !spec_kind_accepts(*inner, server),
    }
}

/// Evaluates one [`FilterKind`] on one server.
fn kind_filter(k: &FilterKind, server: &Server) -> (r: bool)
    ensures
        r == spec_kind_accepts(*k, server@),
    decreases *k,
{
    match k {
        FilterKind::Country(f) => f.filter(server),
        FilterKind::Countries(f) => f.filter(server),
        FilterKind::Protocol(f) => f.filter(server),
        FilterKind::Load(f) => f.filter(server),
        FilterKind::LoadRange(f) => f.filter(server),
        FilterKind::Category(f) => f.filter(server),
        FilterKind::WhiteList(f) => f.filter(server),
        FilterKind::BlackList(f) => f.filter(server),
        FilterKind::Not(inner) => !kind_filter(inner, server),
    }
}

impl Filter for FilterKind {
    open spec fn spec_accepts(&self, server: ServerView) -> bool {
        spec_kind_accepts(*self, server)
    }

    fn filter(&self, server: &Server) -> (r: bool) {
        kind_filter(self, server)
    }
}

/// Whether every filter of a list accepts a server: the conjunction that a
/// [`CombinedFilter`] stands for.
pub open spec fn spec_all_accept(filters: Seq<FilterKind>, server: ServerView) -> bool {
    forall|i: int| 0 <= i < filters.len() ==> #[trigger] spec_kind_accepts(filters[i], server)
}

/// Filter that contains multiple Filter instances: a server is kept only when
/// every contained filter accepts it.
///
/// Logically, this should be viewed as an AND-gate.
#[derive(Debug)]
pub struct CombinedFilter {
    // The actual filters
    filters: Vec<FilterKind>,
}

impl CombinedFilter {
    /// The filters this combination holds.
    pub closed spec fn spec_filters(&self) -> Seq<FilterKind> {
        self.filters@
    }

    /// Builds a new `CombinedFilter` holding no filters yet.
    pub fn new() -> (r: CombinedFilter)
        ensures
            r.spec_filters() == Seq::<FilterKind>::empty(),
    {
        CombinedFilter { filters: Vec::new() }
    }

    /// Builds a new empty `CombinedFilter` with the given capacity.
    pub fn with_capacity(capacity: usize) -> (r: CombinedFilter)
        ensures
            r.spec_filters() == Seq::<FilterKind>::empty(),
    {
        CombinedFilter { filters: Vec::with_capacity(capacity) }
    }

    /// Adds a new filter to the combination.
    pub fn add_filter(&mut self, filter: FilterKind)
        ensures
            final(self).spec_filters() == old(self).spec_filters().push(filter),
    {
        self.filters.push(filter);
    }
}

impl Filter for CombinedFilter {
    open spec fn spec_accepts(&self, server: ServerView) -> bool {
        spec_all_accept(self.spec_filters(), server)
    }

    fn filter(&self, server: &Server) -> (r: bool) {
        let mut i: usize = 0;
        while i < self.filters.len()
            invariant
                i <= self.filters.len(),
                forall|k: int| 0 <= k < i ==> #[trigger] spec_kind_accepts(
                    self.filters@[k],
                    server@,
                ),
            decreases self.filters.len() - i,
        {
            if !kind_filter(&self.filters[i], server) {
                return false;
            }
            i += 1;
        }
        true
    }
}


/// A sequence whose elements all satisfy a predicate is unchanged by
/// filtering with it.
pub(crate) proof fn lemma_filter_all_accepted<A>(s: Seq<A>, p: spec_fn(A) -> bool)
    requires
        forall|k: int| 0 <= k < s.len() ==> p(#[trigger] s[k]),
    ensures
        s.filter(p) == s,
    decreases s.len(),
{
    reveal(Seq::filter);
    if s.len() == 0 {
        assert(s.filter(p) =~= s);
    } else {
        lemma_filter_all_accepted(s.drop_last(), p);
        assert(p(s[s.len() - 1]));
        assert(s.drop_last().push(s.last()) =~= s);
    }
}

/// What survives a filter: exactly the elements of the sequence that the
/// predicate accepts.
proof fn lemma_filter_membership<A>(s: Seq<A>, p: spec_fn(A) -> bool)
    ensures
        forall|x: A| #[trigger] s.filter(p).contains(x) <==> s.contains(x) && p(x),
    decreases s.len(),
{
    reveal(Seq::filter);
    if s.len() == 0 {
    } else {
        let prefix = s.drop_last();
        lemma_filter_membership(prefix, p);
        assert forall|x: A| #[trigger] s.filter(p).contains(x) <==> s.contains(x) && p(x) by {
            if s.filter(p).contains(x) {
                let i = choose|i: int| 0 <= i < s.filter(p).len() && s.filter(p)[i] == x;
                if p(s.last()) {
                    assert(s.filter(p) == prefix.filter(p).push(s.last()));
                    if i < prefix.filter(p).len() {
                        assert(prefix.filter(p).contains(x));
                        let k = choose|k: int| 0 <= k < prefix.len() && prefix[k] == x;
                        assert(s[k] == x);
                    } else {
                        assert(x == s.last());
                        assert(s[s.len() - 1] == x);
                    }
                } else {
                    assert(s.filter(p) == prefix.filter(p));
                    assert(prefix.filter(p).contains(x));
                    let k = choose|k: int| 0 <= k < prefix.len() && prefix[k] == x;
                    assert(s[k] == x);
                }
            }
            if s.contains(x) && p(x) {
                let k = choose|k: int| 0 <= k < s.len() && s[k] == x;
                if k < s.len() - 1 {
                    assert(prefix[k] == x);
                    assert(prefix.filter(p).contains(x));
                    let i = choose|i: int|
                        0 <= i < prefix.filter(p).len() && prefix.filter(p)[i] == x;
                    if p(s.last()) {
                        assert(s.filter(p)[i] == x);
                    } else {
                        assert(s.filter(p)[i] == x);
                    }
                } else {
                    assert(x == s.last());
                    assert(s.filter(p) == prefix.filter(p).push(s.last()));
                    assert(s.filter(p)[s.filter(p).len() - 1] == x);
                }
            }
        }
    }
}

/// Filtering twice in a row is filtering with the conjunction.
pub(crate) proof fn lemma_filter_compose<A>(s: Seq<A>, p: spec_fn(A) -> bool, q: spec_fn(A) -> bool)
    ensures
        s.filter(p).filter(q) == s.filter(|x: A| p(x) && q(x)),
    decreases s.len(),
{
    reveal(Seq::filter);
    let pq = |x: A| p(x) && q(x);
    if s.len() == 0 {
        assert(s.filter(p).filter(q) =~= s.filter(pq));
    } else {
        let prefix = s.drop_last();
        lemma_filter_compose(prefix, p, q);
        let last = s.last();
        if p(last) {
            assert(s.filter(p) == prefix.filter(p).push(last));
            assert(prefix.filter(p).push(last).drop_last() =~= prefix.filter(p));
            assert(prefix.filter(p).push(last).last() == last);
        } else {
            assert(s.filter(p) == prefix.filter(p));
        }
    }
}

/// Filtering with predicates that agree on every element gives the same
/// result.
pub(crate) proof fn lemma_filter_ext<A>(s: Seq<A>, p: spec_fn(A) -> bool, q: spec_fn(A) -> bool)
    requires
        forall|x: A| #[trigger] p(x) == q(x),
    ensures
        s.filter(p) == s.filter(q),
    decreases s.len(),
{
    reveal(Seq::filter);
    if s.len() == 0 {
        assert(s.filter(p) =~= s.filter(q));
    } else {
        lemma_filter_ext(s.drop_last(), p, q);
        assert(p(s.last()) == q(s.last()));
    }
}

/// Applying a filter is idempotent: filtering the surviving catalog with the
/// same filter again changes nothing.
pub proof fn lemma_filter_idempotent<F: Filter>(catalog: Seq<Server>, f: &F)
    ensures
        catalog.filter(accepts_fn(f)).filter(accepts_fn(f)) == catalog.filter(accepts_fn(f)),
{
    broadcast use vstd::seq_lib::group_filter_ensures;

    let p = accepts_fn(f);
    lemma_filter_all_accepted(catalog.filter(p), p);
}

/// The set of domains of a catalog.
pub open spec fn domain_set(catalog: Seq<Server>) -> Set<Seq<char>> {
    catalog.map_values(|s: Server| s@.domain).to_set()
}

/// Whether every record of a catalog carries its own domain.
pub open spec fn unique_domains(catalog: Seq<Server>) -> bool {
    forall|i: int, j: int| 0 <= i < j < catalog.len() ==> catalog[i]@.domain != catalog[j]@.domain
}

/// The domains of a catalog are exactly the domains of its records.
proof fn lemma_domain_set(catalog: Seq<Server>)
    ensures
        forall|y: Seq<char>| #[trigger] domain_set(catalog).contains(y) <==> exists|i: int|
            0 <= i < catalog.len() && (#[trigger] catalog[i])@.domain == y,
{
    let m = catalog.map_values(|s: Server| s@.domain);
    assert forall|y: Seq<char>| #[trigger]
        domain_set(catalog).contains(y) <==> exists|i: int|
            0 <= i < catalog.len() && (#[trigger] catalog[i])@.domain == y by {
        if domain_set(catalog).contains(y) {
            let a = choose|a: int| 0 <= a < m.len() && (#[trigger] m[a]) == y;
            assert(catalog[a]@.domain == y);
        }
        if exists|i: int| 0 <= i < catalog.len() && (#[trigger] catalog[i])@.domain == y {
            let i = choose|i: int| 0 <= i < catalog.len() && (#[trigger] catalog[i])@.domain == y;
            assert(m[i] == y);
            assert(m.contains(y));
        }
    }
}

/// Negation law: over a catalog with unique domains, the domains kept by a
/// filter and those kept by its negation reconstruct the catalog's domains,
/// with no overlap. `rejects_fn(f)` is the predicate that
/// `NegatingFilter::new(f)` stands for.
pub proof fn lemma_negation_partition<F: Filter>(catalog: Seq<Server>, f: &F)
    requires
        unique_domains(catalog),
    ensures
        domain_set(catalog.filter(accepts_fn(f))) + domain_set(catalog.filter(rejects_fn(f)))
            == domain_set(catalog),
        domain_set(catalog.filter(accepts_fn(f))).intersect(
            domain_set(catalog.filter(rejects_fn(f))),
        ) == Set::<Seq<char>>::empty(),
{
    let p = accepts_fn(f);
    let np = rejects_fn(f);
    let cp = catalog.filter(p);
    let cn = catalog.filter(np);
    lemma_filter_membership(catalog, p);
    lemma_filter_membership(catalog, np);
    lemma_domain_set(catalog);
    lemma_domain_set(cp);
    lemma_domain_set(cn);
    assert forall|y: Seq<char>| #[trigger]
        (domain_set(cp) + domain_set(cn)).contains(y) implies domain_set(catalog).contains(y) by {
        if domain_set(cp).contains(y) {
            let i = choose|i: int| 0 <= i < cp.len() && (#[trigger] cp[i])@.domain == y;
            assert(cp.contains(cp[i]));
            assert(catalog.contains(cp[i]));
            let k = choose|k: int| 0 <= k < catalog.len() && catalog[k] == cp[i];
            assert(catalog[k]@.domain == y);
        } else {
            let i = choose|i: int| 0 <= i < cn.len() && (#[trigger] cn[i])@.domain == y;
            assert(cn.contains(cn[i]));
            assert(catalog.contains(cn[i]));
            let k = choose|k: int| 0 <= k < catalog.len() && catalog[k] == cn[i];
            assert(catalog[k]@.domain == y);
        }
    }
    assert forall|y: Seq<char>| #[trigger]
        domain_set(catalog).contains(y) implies (domain_set(cp) + domain_set(cn)).contains(y) by {
        let i = choose|i: int| 0 <= i < catalog.len() && (#[trigger] catalog[i])@.domain == y;
        let x = catalog[i];
        assert(catalog.contains(x));
        if p(x) {
            assert(cp.contains(x));
            let k = choose|k: int| 0 <= k < cp.len() && cp[k] == x;
            assert(cp[k]@.domain == y);
            assert(domain_set(cp).contains(y));
        } else {
            assert(np(x));
            assert(cn.contains(x));
            let k = choose|k: int| 0 <= k < cn.len() && cn[k] == x;
            assert(cn[k]@.domain == y);
            assert(domain_set(cn).contains(y));
        }
    }
    assert(domain_set(cp) + domain_set(cn) =~= domain_set(catalog));
    assert forall|y: Seq<char>|
        !(#[trigger] domain_set(cp).intersect(domain_set(cn)).contains(y)) by {
        if domain_set(cp).contains(y) && domain_set(cn).contains(y) {
            let i = choose|i: int| 0 <= i < cp.len() && (#[trigger] cp[i])@.domain == y;
            let j = choose|j: int| 0 <= j < cn.len() && (#[trigger] cn[j])@.domain == y;
            assert(cp.contains(cp[i]));
            assert(cn.contains(cn[j]));
            assert(catalog.contains(cp[i]) && p(cp[i]));
            assert(catalog.contains(cn[j]) && np(cn[j]));
            let a = choose|a: int| 0 <= a < catalog.len() && catalog[a] == cp[i];
            let b = choose|b: int| 0 <= b < catalog.len() && catalog[b] == cn[j];
            assert(catalog[a]@.domain == catalog[b]@.domain);
            assert(a == b);
            assert(p(cp[i]) && !p(cp[i]));
        }
    }
    assert(domain_set(cp).intersect(domain_set(cn)) =~= Set::<Seq<char>>::empty());
}

} // verus!
