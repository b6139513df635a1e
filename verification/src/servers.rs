//! Data structures and methods to interact with the NordVPN servers.

use crate::filters::{accepts_fn, Filter};
use crate::sorters::Sorter;
use crate::strutil::str_eq;
use vstd::prelude::*;

verus! {

#[derive(Debug, Clone, Copy, PartialEq, Eq, Structural)]
/// The categories a Server can be in, as used by NordVPN.
pub enum ServerCategory {
    /// A standard VPN server.
    Standard,
    /// A VPN server with P2P services allowed.
    P2P,
    /// A VPN server with an obfuscated IP (i.e. floating IP).
    Obfuscated,
    /// A VPN server with a dedicated IP, which is used only by one VPN user at a time.
    Dedicated,
    /// A VPN server with Tor connections allowed.
    Tor,
    /// A VPN server that can be used to connect to another NordVPN server.
    Double,
    /// A VPN server with a category that is not recognised by this library.
    UnknownServer,
}

impl ServerCategory {
    /// The category that a given upstream category name stands for.
    pub open spec fn spec_from_name(name: Seq<char>) -> ServerCategory {
        if name == "Standard VPN servers"@ {
            ServerCategory::Standard
        } else if name == "P2P"@ {
            ServerCategory::P2P
        } else if name == "Double VPN"@ {
            ServerCategory::Double
        } else if name == "Onion Over VPN"@ {
            ServerCategory::Tor
        } else if name == "Obfuscated Servers"@ {
            ServerCategory::Obfuscated
        } else if name == "Dedicated IP"@ {
            ServerCategory::Dedicated
        } else {
            ServerCategory::UnknownServer
        }
    }

    /// Converts an upstream category name into a category; names that are not
    /// recognised become `UnknownServer` rather than an error.
    pub fn from(input: String) -> (r: ServerCategory)
        ensures
            r == ServerCategory::spec_from_name(input@),
    {
        let name = input.as_str();
        if str_eq(name, "Standard VPN servers") {
            ServerCategory::Standard
        } else if str_eq(name, "P2P") {
            ServerCategory::P2P
        } else if str_eq(name, "Double VPN") {
            ServerCategory::Double
        } else if str_eq(name, "Onion Over VPN") {
            ServerCategory::Tor
        } else if str_eq(name, "Obfuscated Servers") {
            ServerCategory::Obfuscated
        } else if str_eq(name, "Dedicated IP") {
            ServerCategory::Dedicated
        } else {
            ServerCategory::UnknownServer
        }
    }
}

#[derive(Debug, Clone, Copy, PartialEq, Eq, Structural)]
/// All protocols and other features a Server can have.
pub struct Features {
    /// Support for IKEv2 protocol.
    pub ikev2: bool,
    /// Support for udp over OpenVPN.
    pub openvpn_udp: bool,
    /// Support for tcp over OpenVPN.
    pub openvpn_tcp: bool,
    /// Support for the SOCKS protocol.
    pub socks: bool,
    /// This server can be used as a proxy.
    pub proxy: bool,
    /// Support for the older Point-to-Point Tunneling Protocol.
    ///
    /// **Warning**: this protocol is considered unsafe. Usage is discouraged.
    pub pptp: bool,
    /// Support for the Layer 2 Tunneling Protocol.
    ///
    /// **Warning**: this protocol is considered unsafe. Usage is discouraged.
    pub l2tp: bool,
    /// Support for udp over OpenVPN with xor obfuscation.
    pub openvpn_xor_udp: bool,
    /// Support for tcp over OpenVPN with xor obfuscation.
    pub openvpn_xor_tcp: bool,
    /// Support for a proxy with CyberSec.
    pub proxy_cybersec: bool,
    /// Support for a proxy with SSL.
    pub proxy_ssl: bool,
    /// Support for a proxy with CyberSec and SSL.
    pub proxy_ssl_cybersec: bool,
    /// Support for udp over WireGuard.
    pub wireguard_udp: bool,
}

#[derive(Debug, Clone, Copy, PartialEq, Eq, Structural)]
/// A protocol to connect to the VPN server.
pub enum Protocol {
    /// OpenVPN over the User Datagram Protocol.
    Udp,
    /// OpenVPN over the Transmission Control Protocol.
    Tcp,
    /// The older Point-to-Point Tunneling Protocol.
    ///
    /// **Warning**: this protocol is considered unsafe. Usage is discouraged.
    Pptp,
    /// The Layer 2 Tunneling Protocol.
    ///
    /// **Warning**: this protocol is considered unsafe. Usage is discouraged.
    L2tp,
    /// OpenVPN over TCP with xor obfuscation.
    OpenVPNXTcp,
    /// OpenVPN over UDP with xor obfuscation.
    OpenVPNXUdp,
    /// Support for the SOCKS protocol.
    Socks,
    /// Support for a proxy with CyberSec.
    CyberSecProxy,
    /// Support for a proxy with SSL.
    SslProxy,
    /// Support for a proxy with CyberSec and SSL.
    CyberSecSslProxy,
    /// Use the server as a proxy.
    Proxy,
    /// WireGuard over the User Datagram Protocol.
    WireGuardUdp,
}

#[derive(Debug, PartialEq, Eq)]
/// A server by NordVPN.
pub struct Server {
    /// The country this server is located in.
    pub flag: String,
    /// The domain of this server.
    pub domain: String,
    /// The current load on this server.
    pub load: u8,
    /// Categories this server is in.
    pub categories: Vec<ServerCategory>,
    /// Features of the server.
    pub features: Features,
}

#[verifier::ext_equal]
/// The mathematical value of one server record.
pub ghost struct ServerView {
    pub flag: Seq<char>,
    pub domain: Seq<char>,
    pub load: u8,
    pub categories: Seq<ServerCategory>,
    pub features: Features,
}

impl View for Server {
    type V = ServerView;

    open spec fn view(&self) -> ServerView {
        ServerView {
            flag: self.flag@,
            domain: self.domain@,
            load: self.load,
            categories: self.categories@,
            features: self.features,
        }
    }
}

/// Copies a list of categories element by element.
fn clone_categories(v: &Vec<ServerCategory>) -> (r: Vec<ServerCategory>)
    ensures
        r@ == v@,
{
    let mut r: Vec<ServerCategory> = Vec::new();
    let mut i: usize = 0;
    while i < v.len()
        invariant
            i <= v.len(),
            r@ == v@.take(i as int),
        decreases v.len() - i,
    {
        r.push(v[i]);
        proof {
            assert(v@.take(i + 1) =~= v@.take(i as int).push(v@[i as int]));
        }
        i += 1;
    }
    proof {
        assert(v@.take(v@.len() as int) =~= v@);
    }
    r
}

impl Clone for Server {
    /// A clone carries the same record value as the original.
    fn clone(&self) -> (r: Self)
        ensures
            r@ == self@,
    {
        let r = Server {
            flag: self.flag.clone(),
            domain: self.domain.clone(),
            load: self.load,
            categories: clone_categories(&self.categories),
            features: self.features,
        };
        proof {
            assert(r@ =~= self@);
        }
        r
    }
}


/// Whether a domain carries the vendor's host-name suffix.
pub open spec fn spec_has_name_suffix(domain: Seq<char>) -> bool {
    domain.len() > 12 && domain.skip(domain.len() - 12) == ".nordvpn.com"@
}

/// The short identifier of a domain: everything before the vendor suffix.
pub open spec fn spec_name_of(domain: Seq<char>) -> Seq<char> {
    domain.take(domain.len() - 12)
}

impl Server {
    /// Returns the unique identifier of the server, without returning the full
    /// domain: the part of the domain standing before `.nordvpn.com`. Returns
    /// `None` for a domain without that suffix.
    pub fn name(&self) -> (r: Option<&str>)
        ensures
            r is Some <==> spec_has_name_suffix(self.domain@),
            r matches Some(n) ==> n@ == spec_name_of(self.domain@),
    {
        let suffix = ".nordvpn.com";
        proof {
            reveal_strlit(".nordvpn.com");
            assert(suffix@.len() == 12);
        }
        let dom = self.domain.as_str();
        let n = dom.unicode_len();
        if n <= 12 {
            return None;
        }
        let mut k: usize = 0;
        while k < 12
            invariant
                k <= 12,
                n == dom@.len(),
                n > 12,
                dom@ == self.domain@,
                suffix@ == ".nordvpn.com"@,
                suffix@.len() == 12,
                forall|t: int| 0 <= t < k ==> dom@[n - 12 + t] == suffix@[t],
            decreases 12 - k,
        {
            if dom.get_char(n - 12 + k) != suffix.get_char(k) {
                proof {
                    assert(self.domain@.skip(n - 12)[k as int] == dom@[n - 12 + k]);
                    assert(self.domain@.skip(n - 12) != ".nordvpn.com"@);
                }
                return None;
            }
            k += 1;
        }
        proof {
            assert(self.domain@.skip(n - 12) =~= ".nordvpn.com"@);
        }
        Some(dom.substring_char(0, n - 12))
    }
}

/// A list of individual servers.
pub struct Servers {
    /// The actual servers
    pub servers: Vec<Server>,
}

/// Inserting an element anywhere adds exactly one occurrence of it to the
/// sequence's multiset.
proof fn lemma_to_multiset_insert(s: Seq<Server>, i: int, x: Server)
    requires
        0 <= i <= s.len(),
    ensures
        s.insert(i, x).to_multiset() == s.to_multiset().insert(x),
{
    let t = s.insert(i, x);
    t.to_multiset_ensures();
    s.to_multiset_ensures();
    assert(t.remove(i) =~= s);
    assert(t[i] == x);
    assert(t.remove(i).to_multiset() =~= t.to_multiset().remove(t[i]));
    assert(t.contains(x));
    assert(t.to_multiset().count(x) > 0);
    assert forall|y: Server| t.to_multiset().count(y) == s.to_multiset().insert(x).count(
        y,
    ) by {
        if y == x {
            assert(t.to_multiset().remove(x).count(x) == t.to_multiset().count(x) - 1);
        } else {
            assert(t.to_multiset().remove(x).count(y) == t.to_multiset().count(y));
        }
    }
    assert(t.to_multiset() =~= s.to_multiset().insert(x));
}

/// Functions to build and read data from the Servers.
impl Servers {
    /// Returns the flags (countries) in this set, without duplicates.
    #[verifier::rlimit(30)]
    pub fn flags(&self) -> (r: Vec<String>)
        ensures
            r@.map_values(|s: String| s@).to_set() == self.servers@.map_values(
                |s: Server| s@.flag,
            ).to_set(),
            forall|a: int, b: int| 0 <= a < b < r@.len() ==> r@[a]@ != r@[b]@,
    {
        let mut r: Vec<String> = Vec::new();
        let mut i: usize = 0;
        while i < self.servers.len()
            invariant
                i <= self.servers@.len(),
                forall|a: int| 0 <= a < r@.len() ==> exists|b: int|
                    0 <= b < i && (#[trigger] r@[a])@ == (#[trigger] self.servers@[b])@.flag,
                forall|b: int| 0 <= b < i ==> exists|a: int|
                    0 <= a < r@.len() && (#[trigger] self.servers@[b])@.flag == r@[a]@,
                forall|a: int, b: int| 0 <= a < b < r@.len() ==> r@[a]@ != r@[b]@,
            decreases self.servers@.len() - i,
        {
            let flag = &self.servers[i].flag;
            let mut seen = false;
            let mut j: usize = 0;
            while j < r.len()
                invariant
                    j <= r@.len(),
                    i < self.servers@.len(),
                    flag@ == self.servers@[i as int]@.flag,
                    seen <==> exists|a: int| 0 <= a < j && (#[trigger] r@[a])@ == flag@,
                decreases r@.len() - j,
            {
                if r[j] == *flag {
                    proof {
                        assert(r@[j as int]@ == flag@);
                    }
                    seen = true;
                }
                j += 1;
            }
            let ghost prev_r = r@;
            if !seen {
                r.push(flag.clone());
            }
            proof {
                if !seen {
                    assert(r@.len() == prev_r.len() + 1);
                    assert(r@[prev_r.len() as int]@ == flag@);
                }
                assert forall|a: int, b: int| 0 <= a < b < r@.len() implies r@[a]@ != r@[b]@ by {
                    if !seen && b == r@.len() - 1 {
                        assert(r@[a] == prev_r[a]);
                        assert(!(exists|x: int| 0 <= x < prev_r.len() && (#[trigger] prev_r[x])@
                            == flag@));
                        assert(prev_r[a]@ != flag@);
                    } else {
                        assert(r@[a] == prev_r[a]);
                        assert(r@[b] == prev_r[b]);
                    }
                }
                assert forall|a: int| 0 <= a < r@.len() implies exists|b: int|
                    0 <= b < i + 1 && (#[trigger] r@[a])@ == self.servers@[b]@.flag by {
                    if !seen && a == r@.len() - 1 {
                        assert(r@[a]@ == self.servers@[i as int]@.flag);
                    } else {
                        assert(r@[a] == prev_r[a]);
                        let b = choose|b: int|
                            0 <= b < i && prev_r[a]@ == (#[trigger] self.servers@[b])@.flag;
                        assert(r@[a]@ == self.servers@[b]@.flag);
                    }
                }
                assert forall|b: int| 0 <= b < i + 1 implies exists|a: int|
                    0 <= a < r@.len() && (#[trigger] self.servers@[b])@.flag == r@[a]@ by {
                    if b == i {
                        if seen {
                            let a = choose|a: int|
                                0 <= a < prev_r.len() && (#[trigger] prev_r[a])@ == flag@;
                            assert(r@[a] == prev_r[a]);
                            assert(self.servers@[b]@.flag == r@[a]@);
                        } else {
                            assert(self.servers@[b]@.flag == r@[r@.len() - 1]@);
                        }
                    } else {
                        let a = choose|a: int|
                            0 <= a < prev_r.len() && self.servers@[b]@.flag == (
                            #[trigger] prev_r[a])@;
                        assert(r@[a] == prev_r[a]);
                        assert(self.servers@[b]@.flag == r@[a]@);
                    }
                }
            }
            i += 1;
        }
        proof {
            let rmapped = r@.map_values(|s: String| s@);
            let fmapped = self.servers@.map_values(|s: Server| s@.flag);
            let rset = rmapped.to_set();
            let fset = fmapped.to_set();
            assert forall|y: Seq<char>| rset.contains(y) implies fset.contains(y) by {
                let a = choose|a: int| 0 <= a < rmapped.len() && (#[trigger] rmapped[a]) == y;
                let b = choose|b: int|
                    0 <= b < self.servers@.len() && (#[trigger] r@[a])@ == self.servers@[b]@.flag;
                assert(fmapped[b] == y);
            }
            assert forall|y: Seq<char>| fset.contains(y) implies rset.contains(y) by {
                let b = choose|b: int| 0 <= b < fmapped.len() && (#[trigger] fmapped[b]) == y;
                let a = choose|a: int|
                    0 <= a < r@.len() && (#[trigger] self.servers@[b])@.flag == r@[a]@;
                assert(rmapped[a] == y);
            }
            assert(rset =~= fset);
        }
        r
    }

    /// Returns the best server, according to the applied filters and sorters:
    /// the first record of the catalog, or `None` if no server is left.
    pub fn perfect_server(&self) -> (r: Option<Server>)
        ensures
            match r {
                Some(s) => self.servers@.len() > 0 && s@ == self.servers@[0]@,
                None => self.servers@.len() == 0,
            },
    {
        if self.servers.len() == 0 {
            None
        } else {
            Some(self.servers[0].clone())
        }
    }
}

/// All manipulations that will alter the servers.
impl Servers {
    /// Applies the given filter on this serverlist: exactly the servers the
    /// filter accepts stay, in their previous order.
    pub fn filter<F: Filter>(&mut self, filter: &F)
        ensures
            final(self).servers@ == old(self).servers@.filter(accepts_fn(filter)),
    {
        let ghost orig = old(self).servers@;
        let ghost p = accepts_fn(filter);
        let mut tmp: Vec<Server> = Vec::new();
        core::mem::swap(&mut self.servers, &mut tmp);
        let mut kept: Vec<Server> = Vec::new();
        let mut i: usize = 0;
        let n = tmp.len();
        while i < n
            invariant
                i <= n,
                n == orig.len(),
                p == accepts_fn(filter),
                tmp@ == orig.skip(i as int),
                kept@ == orig.take(i as int).filter(p),
            decreases n - i,
        {
            let s = tmp.remove(0);
            proof {
                assert(tmp@ =~= orig.skip(i + 1));
                assert(s == orig[i as int]);
                orig.take(i as int).lemma_filter_push(s, p);
                assert(orig.take(i + 1) =~= orig.take(i as int).push(s));
            }
            if filter.filter(&s) {
                kept.push(s);
            }
            i += 1;
        }
        proof {
            assert(orig.take(n as int) =~= orig);
        }
        self.servers = kept;
    }

    /// Sorts the servers using a Sorter. The sort is unstable: the catalog
    /// afterwards holds the same records, ordered best-first, so that the
    /// record at index 0 is preferred (or equal) to every other record.
    pub fn sort<S: Sorter>(&mut self, sorter: &S)
        requires
            forall|k: int| 0 <= k < old(self).servers@.len() ==> sorter.spec_ready(
                (#[trigger] old(self).servers@[k])@,
            ),
        ensures
            final(self).servers@.to_multiset() == old(self).servers@.to_multiset(),
            forall|a: int, b: int| 0 <= a < b < final(self).servers@.len()
                ==> #[trigger] sorter.spec_leq(
                final(self).servers@[a]@,
                final(self).servers@[b]@,
            ),
            forall|b: int| 0 < b < final(self).servers@.len() ==> sorter.spec_leq(
                final(self).servers@[0]@,
                (#[trigger] final(self).servers@[b])@,
            ),
    {
        let n = self.servers.len();
        if n <= 1 {
            return ;
        }
        let mut i: usize = 1;
        while i < n
            invariant
                1 <= i <= n,
                n == self.servers@.len(),
                self.servers@.to_multiset() == old(self).servers@.to_multiset(),
                forall|k: int| 0 <= k < self.servers@.len() ==> sorter.spec_ready(
                    (#[trigger] self.servers@[k])@,
                ),
                forall|a: int, b: int| 0 <= a < b < i ==> #[trigger] sorter.spec_leq(
                    self.servers@[a]@,
                    self.servers@[b]@,
                ),
            decreases n - i,
        {
            let ghost orig = self.servers@;
            // find where the record at index i belongs in the sorted prefix
            let mut j: usize = 0;
            while j < i
                invariant_except_break
                    j <= i,
                    i < self.servers@.len(),
                    self.servers@ == orig,
                    forall|k: int| 0 <= k < self.servers@.len() ==> sorter.spec_ready(
                        (#[trigger] self.servers@[k])@,
                    ),
                    forall|k: int| 0 <= k < j ==> sorter.spec_leq(
                        (#[trigger] self.servers@[k])@,
                        self.servers@[i as int]@,
                    ),
                ensures
                    j <= i,
                    i < self.servers@.len(),
                    self.servers@ == orig,
                    forall|k: int| 0 <= k < j ==> sorter.spec_leq(
                        (#[trigger] self.servers@[k])@,
                        self.servers@[i as int]@,
                    ),
                    j < i ==> !sorter.spec_leq(
                        self.servers@[j as int]@,
                        self.servers@[i as int]@,
                    ),
                decreases i - j,
            {
                let ord = sorter.sort(&self.servers[j], &self.servers[i]);
                if matches!(ord, core::cmp::Ordering::Greater) {
                    break ;
                }
                j += 1;
            }
            let x = self.servers.remove(i);
            proof {
                orig.to_multiset_ensures();
            }
            self.servers.insert(j, x);
            proof {
                let now = self.servers@;
                lemma_to_multiset_insert(orig.remove(i as int), j as int, x);
                assert(orig.remove(i as int).to_multiset() =~= orig.to_multiset().remove(x));
                assert(orig.to_multiset().count(x) > 0) by {
                    assert(orig[i as int] == x);
                    assert(orig.contains(x));
                }
                assert(now.to_multiset() =~= orig.to_multiset()) by {
                    assert(now.to_multiset() =~= orig.to_multiset().remove(x).insert(x));
                }
                // every record of the new order is one of the old order
                assert forall|k: int| 0 <= k < now.len() implies sorter.spec_ready(
                    (#[trigger] now[k])@,
                ) by {
                    if k < j {
                        assert(now[k] == orig[k]);
                    } else if k == j {
                        assert(now[k] == x);
                    } else if k <= i {
                        assert(now[k] == orig[k - 1]);
                    } else {
                        assert(now[k] == orig[k]);
                    }
                }
                // the prefix one longer is sorted
                if j < i {
                    assert(!sorter.spec_leq(orig[j as int]@, x@));
                    sorter.lemma_order(orig[j as int]@, x@, x@);
                    assert(sorter.spec_leq(x@, orig[j as int]@));
                }
                assert forall|a: int, b: int| 0 <= a < b < i + 1 implies #[trigger]
                    sorter.spec_leq(now[a]@, now[b]@) by {
                    if b < j {
                        assert(now[a] == orig[a] && now[b] == orig[b]);
                    } else if b == j {
                        assert(now[a] == orig[a] && now[b] == x);
                    } else {
                        // b > j, so now[b] is orig[b - 1] for b <= i
                        assert(now[b] == orig[b - 1]);
                        if a < j {
                            assert(now[a] == orig[a]);
                            if j <= b - 1 && b - 1 < i && a < j {
                                if b - 1 == a {
                                } else {
                                    assert(sorter.spec_leq(orig[a]@, orig[b - 1]@));
                                }
                            }
                        } else if a == j {
                            assert(now[a] == x);
                            if j < i {
                                assert(sorter.spec_leq(x@, orig[j as int]@));
                                if b - 1 == j {
                                } else {
                                    assert(sorter.spec_leq(orig[j as int]@, orig[b - 1]@));
                                    sorter.lemma_order(x@, orig[j as int]@, orig[b - 1]@);
                                }
                            }
                        } else {
                            assert(now[a] == orig[a - 1]);
                            assert(sorter.spec_leq(orig[a - 1]@, orig[b - 1]@));
                        }
                    }
                }
            }
            i += 1;
        }
    }

    /// Removes all but the `max` best servers at the moment. Does nothing if
    /// there are fewer servers.
    ///
    /// 'Best' servers are defined by the filters and sorters that should have
    /// been applied before calling this function.
    pub fn cut(&mut self, max: usize)
        ensures
            max <= old(self).servers@.len() ==> final(self).servers@ == old(self).servers@.take(
                max as int,
            ),
            max > old(self).servers@.len() ==> final(self).servers@ == old(self).servers@,
    {
        self.servers.truncate(max);
        proof {
            if max <= old(self).servers@.len() {
                assert(old(self).servers@.subrange(0, max as int) =~= old(self).servers@.take(
                    max as int,
                ));
            }
        }
    }
}

} // verus!
