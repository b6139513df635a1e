//! The decision core behind the command-line front end: resolving filter
//! tokens into filters and applying a list of filters to a catalog.

use crate::filters::region::{spec_region_countries, spec_region_of, Region};
use crate::filters::{
    accepts_fn, lemma_filter_all_accepted, lemma_filter_compose, lemma_filter_ext,
    spec_all_accept, spec_kind_accepts,
    spec_protocol_supported, CategoryFilter, CountriesFilter, CountryFilter, Filter, FilterKind,
    ProtocolFilter,
};
use crate::servers::{Protocol, Server, ServerCategory, Servers, ServerView};
use crate::strutil::{str_eq, to_ascii_upper, upper_seq};
use vstd::prelude::*;

verus! {

/// A filter request that could not be honoured.
#[derive(Debug, PartialEq, Eq)]
pub enum FilterError {
    /// The given token matches no static filter, no region and no known
    /// country.
    UnrecognizedFilter(String),
}

/// Whether a token names a server category.
pub open spec fn spec_is_category_token(t: Seq<char>) -> bool {
    ||| t == "p2p"@
    ||| t == "standard"@
    ||| t == "double"@
    ||| t == "dedicated"@
    ||| t == "tor"@
    ||| t == "obfuscated"@
}

/// The category a category token names.
pub open spec fn spec_category_of_token(t: Seq<char>) -> ServerCategory {
    if t == "p2p"@ {
        ServerCategory::P2P
    } else if t == "standard"@ {
        ServerCategory::Standard
    } else if t == "double"@ {
        ServerCategory::Double
    } else if t == "dedicated"@ {
        ServerCategory::Dedicated
    } else if t == "tor"@ {
        ServerCategory::Tor
    } else {
        ServerCategory::Obfuscated
    }
}

/// Whether a token names a protocol.
pub open spec fn spec_is_protocol_token(t: Seq<char>) -> bool {
    ||| t == "tcp"@
    ||| t == "udp"@
    ||| t == "pptp"@
    ||| t == "l2tp"@
    ||| t == "tcp_xor"@
    ||| t == "udp_xor"@
    ||| t == "socks"@
    ||| t == "cybersecproxy"@
    ||| t == "sslproxy"@
    ||| t == "cybersecsslproxy"@
    ||| t == "proxy"@
    ||| t == "wg_udp"@
}

/// The protocol a protocol token names.
pub open spec fn spec_protocol_of_token(t: Seq<char>) -> Protocol {
    if t == "tcp"@ {
        Protocol::Tcp
    } else if t == "udp"@ {
        Protocol::Udp
    } else if t == "pptp"@ {
        Protocol::Pptp
    } else if t == "l2tp"@ {
        Protocol::L2tp
    } else if t == "tcp_xor"@ {
        Protocol::OpenVPNXTcp
    } else if t == "udp_xor"@ {
        Protocol::OpenVPNXUdp
    } else if t == "socks"@ {
        Protocol::Socks
    } else if t == "cybersecproxy"@ {
        Protocol::CyberSecProxy
    } else if t == "sslproxy"@ {
        Protocol::SslProxy
    } else if t == "cybersecsslproxy"@ {
        Protocol::CyberSecSslProxy
    } else if t == "proxy"@ {
        Protocol::Proxy
    } else {
        Protocol::WireGuardUdp
    }
}

/// Whether a token names a static filter: a category or a protocol.
pub open spec fn spec_is_static_token(t: Seq<char>) -> bool {
    spec_is_category_token(t) || spec_is_protocol_token(t)
}

/// The predicate a static filter token stands for; category tokens take
/// precedence over protocol tokens.
pub open spec fn spec_static_accepts(t: Seq<char>, v: ServerView) -> bool {
    if spec_is_category_token(t) {
        v.categories.contains(spec_category_of_token(t))
    } else {
        spec_protocol_supported(spec_protocol_of_token(t), v.features)
    }
}

/// Resolves a token that names a static filter: a category filter or a
/// protocol filter, by the fixed table of known tokens. Besides the filter,
/// says whether the token named a category. Returns `None` for every token
/// outside the table.
pub fn parse_static_filter(filter: &str) -> (r: Option<(FilterKind, bool)>)
    ensures
        r is Some <==> spec_is_static_token(filter@),
        r matches Some((f, is_category)) ==> {
            &&& is_category == spec_is_category_token(filter@)
            &&& forall|v: ServerView| #[trigger] f.spec_accepts(v) == spec_static_accepts(
                filter@,
                v,
            )
        },
{
    if str_eq(filter, "p2p") {
        Some((FilterKind::Category(CategoryFilter::from(ServerCategory::P2P)), true))
    } else if str_eq(filter, "standard") {
        Some((FilterKind::Category(CategoryFilter::from(ServerCategory::Standard)), true))
    } else if str_eq(filter, "double") {
        Some((FilterKind::Category(CategoryFilter::from(ServerCategory::Double)), true))
    } else if str_eq(filter, "dedicated") {
        Some((FilterKind::Category(CategoryFilter::from(ServerCategory::Dedicated)), true))
    } else if str_eq(filter, "tor") {
        Some((FilterKind::Category(CategoryFilter::from(ServerCategory::Tor)), true))
    } else if str_eq(filter, "obfuscated") {
        Some((FilterKind::Category(CategoryFilter::from(ServerCategory::Obfuscated)), true))
    } else if str_eq(filter, "tcp") {
        Some((FilterKind::Protocol(ProtocolFilter::from(Protocol::Tcp)), false))
    } else if str_eq(filter, "udp") {
        Some((FilterKind::Protocol(ProtocolFilter::from(Protocol::Udp)), false))
    } else if str_eq(filter, "pptp") {
        Some((FilterKind::Protocol(ProtocolFilter::from(Protocol::Pptp)), false))
    } else if str_eq(filter, "l2tp") {
        Some((FilterKind::Protocol(ProtocolFilter::from(Protocol::L2tp)), false))
    } else if str_eq(filter, "tcp_xor") {
        Some((FilterKind::Protocol(ProtocolFilter::from(Protocol::OpenVPNXTcp)), false))
    } else if str_eq(filter, "udp_xor") {
        Some((FilterKind::Protocol(ProtocolFilter::from(Protocol::OpenVPNXUdp)), false))
    } else if str_eq(filter, "socks") {
        Some((FilterKind::Protocol(ProtocolFilter::from(Protocol::Socks)), false))
    } else if str_eq(filter, "cybersecproxy") {
        Some((FilterKind::Protocol(ProtocolFilter::from(Protocol::CyberSecProxy)), false))
    } else if str_eq(filter, "sslproxy") {
        Some((FilterKind::Protocol(ProtocolFilter::from(Protocol::SslProxy)), false))
    } else if str_eq(filter, "cybersecsslproxy") {
        Some((FilterKind::Protocol(ProtocolFilter::from(Protocol::CyberSecSslProxy)), false))
    } else if str_eq(filter, "proxy") {
        Some((FilterKind::Protocol(ProtocolFilter::from(Protocol::Proxy)), false))
    } else if str_eq(filter, "wg_udp") {
        Some((FilterKind::Protocol(ProtocolFilter::from(Protocol::WireGuardUdp)), false))
    } else {
        None
    }
}

/// Whether a plain (un-negated) token is recognized against a set of known
/// country flags: as a static filter, a region code, or a known country.
pub open spec fn spec_plain_recognized(t: Seq<char>, flags: Seq<Seq<char>>) -> bool {
    ||| spec_is_static_token(t)
    ||| spec_region_of(upper_seq(t)) is Some
    ||| flags.contains(upper_seq(t))
}

/// The predicate a recognized plain token stands for: static filters first,
/// then regions, then countries.
pub open spec fn spec_plain_accepts(t: Seq<char>, flags: Seq<Seq<char>>, v: ServerView) -> bool {
    if spec_is_static_token(t) {
        spec_static_accepts(t, v)
    } else if spec_region_of(upper_seq(t)) is Some {
        spec_region_countries(spec_region_of(upper_seq(t))->Some_0).to_set().contains(v.flag)
    } else {
        v.flag == upper_seq(t)
    }
}

/// Whether a token asks for negation: it starts with `'!'`.
pub open spec fn spec_token_negated(t: Seq<char>) -> bool {
    t.len() > 0 && t[0] == '!'
}

/// The token without its negation mark.
pub open spec fn spec_token_body(t: Seq<char>) -> Seq<char> {
    if spec_token_negated(t) {
        t.skip(1)
    } else {
        t
    }
}

/// Whether a filter token is recognized against a set of known country flags.
pub open spec fn spec_token_recognized(t: Seq<char>, flags: Seq<Seq<char>>) -> bool {
    spec_plain_recognized(spec_token_body(t), flags)
}

/// The predicate a recognized filter token stands for.
pub open spec fn spec_token_accepts(t: Seq<char>, flags: Seq<Seq<char>>, v: ServerView) -> bool {
    if spec_token_negated(t) {
        !spec_plain_accepts(spec_token_body(t), flags, v)
    } else {
        spec_plain_accepts(spec_token_body(t), flags, v)
    }
}

/// Resolves one plain token against the known country flags.
fn parse_plain_filter(token: &str, flags: &Vec<String>) -> (r: Result<FilterKind, FilterError>)
    ensures
        r is Ok <==> spec_plain_recognized(token@, flags@.map_values(|s: String| s@)),
        r matches Ok(f) ==> forall|v: ServerView| #[trigger] f.spec_accepts(v)
            == spec_plain_accepts(token@, flags@.map_values(|s: String| s@), v),
        r matches Err(e) ==> e matches FilterError::UnrecognizedFilter(s) && s@ == token@,
{
    let ghost fl = flags@.map_values(|s: String| s@);
    if let Some((filter, _is_category)) = parse_static_filter(token) {
        return Ok(filter);
    }
    let upper = to_ascii_upper(token);
    if let Some(region) = Region::from_str(upper.as_str()) {
        return Ok(FilterKind::Countries(CountriesFilter::from(region)));
    }
    let mut i: usize = 0;
    while i < flags.len()
        invariant
            i <= flags@.len(),
            fl == flags@.map_values(|s: String| s@),
            upper@ == upper_seq(token@),
            !spec_is_static_token(token@),
            spec_region_of(upper_seq(token@)) is None,
            forall|k: int| 0 <= k < i ==> fl[k] != upper@,
        decreases flags@.len() - i,
    {
        if flags[i] == upper {
            proof {
                assert(fl[i as int] == upper@);
                assert(fl.contains(upper_seq(token@)));
            }
            let country = CountryFilter::from(token);
            let r = FilterKind::Country(country);
            proof {
                assert forall|v: ServerView| #[trigger]
                    r.spec_accepts(v) == spec_plain_accepts(token@, fl, v) by {
                    assert(r.spec_accepts(v) == country.spec_accepts(v));
                }
            }
            return Ok(r);
        }
        i += 1;
    }
    proof {
        assert(!fl.contains(upper_seq(token@)));
    }
    Err(FilterError::UnrecognizedFilter(token.to_owned()))
}

/// Resolves a filter token, which can be a static filter (`"p2p"`, `"tcp"`),
/// a region code (`"eu"`), or a country known to the given catalog flags, and
/// may be inverted by a leading `'!'`. An unrecognized token is reported back,
/// naming the offending token.
pub fn parse_filter(token: &str, flags: &Vec<String>) -> (r: Result<FilterKind, FilterError>)
    ensures
        r is Ok <==> spec_token_recognized(token@, flags@.map_values(|s: String| s@)),
        r matches Ok(f) ==> forall|v: ServerView| #[trigger] f.spec_accepts(v)
            == spec_token_accepts(token@, flags@.map_values(|s: String| s@), v),
        r matches Err(e) ==> e matches FilterError::UnrecognizedFilter(s) && s@
            == spec_token_body(token@),
{
    let n = token.unicode_len();
    if n > 0 && token.get_char(0) == '!' {
        let body = token.substring_char(1, n);
        proof {
            assert(body@ =~= spec_token_body(token@));
        }
        let ghost fl = flags@.map_values(|s: String| s@);
        match parse_plain_filter(body, flags) {
            Ok(f) => {
                let ghost gf = f;
                let r = FilterKind::Not(Box::new(f));
                proof {
                    assert forall|v: ServerView| #[trigger]
                        r.spec_accepts(v) == spec_token_accepts(token@, fl, v) by {
                        assert(gf.spec_accepts(v) == spec_plain_accepts(body@, fl, v));
                        assert(r.spec_accepts(v) == !gf.spec_accepts(v));
                    }
                }
                Ok(r)
            },
            Err(e) => Err(e),
        }
    } else {
        proof {
            assert(token@ =~= spec_token_body(token@));
        }
        parse_plain_filter(token, flags)
    }
}

/// Applies each of the given filters to the catalog in turn; a record
/// survives exactly when every filter accepts it.
pub fn apply_filters(filters_to_apply: Vec<FilterKind>, data: &mut Servers)
    ensures
        final(data).servers@ == old(data).servers@.filter(
            (|s: Server| spec_all_accept(filters_to_apply@, s@)),
        ),
{
    let ghost orig = old(data).servers@;
    let ghost fs = filters_to_apply@;
    proof {
        let p0 = |s: Server| spec_all_accept(fs.take(0), s@);
        assert forall|x: Server| #[trigger] p0(x) by {
            assert(fs.take(0).len() == 0);
        }
        lemma_filter_all_accepted(orig, p0);
    }
    let mut i: usize = 0;
    while i < filters_to_apply.len()
        invariant
            i <= fs.len(),
            fs == filters_to_apply@,
            data.servers@ == orig.filter((|s: Server| spec_all_accept(fs.take(i as int), s@))),
        decreases fs.len() - i,
    {
        let ghost pk = |s: Server| spec_all_accept(fs.take(i as int), s@);
        let ghost q = accepts_fn(&fs[i as int]);
        data.filter(&filters_to_apply[i]);
        proof {
            lemma_filter_compose(orig, pk, q);
            let conj = |x: Server| pk(x) && q(x);
            let pk1 = |s: Server| spec_all_accept(fs.take(i + 1), s@);
            assert forall|x: Server| #[trigger] conj(x) == pk1(x) by {
                assert(fs.take(i + 1).drop_last() =~= fs.take(i as int));
                if conj(x) {
                    assert forall|k: int| 0 <= k < fs.take(i + 1).len() implies spec_kind_accepts(
                        #[trigger] fs.take(i + 1)[k],
                        x@,
                    ) by {
                        if k < i {
                            assert(fs.take(i as int)[k] == fs.take(i + 1)[k]);
                            assert(spec_kind_accepts(fs.take(i as int)[k], x@));
                        } else {
                            assert(fs.take(i + 1)[k] == fs[i as int]);
                        }
                    }
                }
                if pk1(x) {
                    assert forall|k: int| 0 <= k < fs.take(i as int).len() implies
                        spec_kind_accepts(#[trigger] fs.take(i as int)[k], x@) by {
                        assert(fs.take(i + 1)[k] == fs.take(i as int)[k]);
                        assert(spec_kind_accepts(fs.take(i + 1)[k], x@));
                    }
                    assert(fs.take(i + 1)[i as int] == fs[i as int]);
                    assert(spec_kind_accepts(fs.take(i + 1)[i as int], x@));
                }
            }
            lemma_filter_ext(orig, conj, pk1);
        }
        i += 1;
    }
    proof {
        let pn = |s: Server| spec_all_accept(fs.take(fs.len() as int), s@);
        let pall = |s: Server| spec_all_accept(fs, s@);
        assert(fs.take(fs.len() as int) =~= fs);
        assert forall|x: Server| #[trigger] pn(x) == pall(x) by {}
        lemma_filter_ext(orig, pn, pall);
    }
}

} // verus!
