//! Where the server may fetch from: the check that every address it is sent to has to pass.

use vstd::prelude::*;

use crate::ip::{
    all_wf, any_contains, in_any, is_non_public_ip, literal_octets, non_public, parse_literal_ip,
    Cidr,
};
use crate::text::{chars_of, is_text, lower_all, owned_text, to_lower_all};

verus! {

/// What `url` reads in an absolute URL: the scheme and the host, if it has one.
pub uninterp spec fn url_parts(url: Seq<char>) -> Option<(Seq<char>, Option<Seq<char>>)>;

/// Names that stand for the inside of the deployment, whatever their addresses.
pub open spec fn blocked_hosts() -> Seq<Seq<char>> {
    seq![
        "host.docker.internal"@,
        "metadata.google.internal"@,
        "metadata"@,
        "authelia"@,
        "caddy"@,
        "homepage"@,
        "vaultwarden"@,
        "siyuan"@,
    ]
}

/// The host is one of the blocked names, in any case.
pub open spec fn is_blocked(host: Seq<char>) -> bool {
    blocked_hosts().contains(lower_all(host))
}

/// A host may be fetched from: it is not a blocked name, and if it is a literal address that
/// is not public, one of the networks holds it.
pub open spec fn host_allowed(host: Seq<char>, nets: Seq<Cidr>) -> bool {
    &&& !is_blocked(host)
    &&& literal_octets(host) matches Some(o) ==> !non_public(o) || in_any(nets, o)
}

/// The scheme is `http` or `https`.
pub open spec fn is_web(scheme: Seq<char>) -> bool {
    scheme == "http"@ || scheme == "https"@
}

/// An address that was read as `parts` may be fetched.
pub open spec fn parts_allowed(
    parts: Option<(Seq<char>, Option<Seq<char>>)>,
    nets: Seq<Cidr>,
) -> bool {
    match parts {
        Some((scheme, Some(host))) => is_web(scheme) && host_allowed(host, nets),
        _ => false,
    }
}

/// A URL may be fetched.
pub open spec fn url_allowed(url: Seq<char>, nets: Seq<Cidr>) -> bool {
    parts_allowed(url_parts(url), nets)
}

/// The host is a literal address that is not public and that one of the networks holds.
pub open spec fn lan_literal(host: Seq<char>, nets: Seq<Cidr>) -> bool {
    literal_octets(host) matches Some(o) && non_public(o) && in_any(nets, o)
}

/// An address that was read as `parts` names such a host.
pub open spec fn parts_lan_literal(
    parts: Option<(Seq<char>, Option<Seq<char>>)>,
    nets: Seq<Cidr>,
) -> bool {
    match parts {
        Some((_, Some(host))) => lan_literal(host, nets),
        _ => false,
    }
}

/// A literal address that is not public and that no network holds is never fetched from.
pub proof fn law_private_needs_network(host: Seq<char>, nets: Seq<Cidr>)
    requires
        literal_octets(host) is Some,
        non_public(literal_octets(host)->0),
        !in_any(nets, literal_octets(host)->0),
    ensures
        !host_allowed(host, nets),
        !lan_literal(host, nets),
{
}

/// With no network configured, a literal address that is not public is never fetched from, and
/// no host is spared the strict certificate checks.
pub proof fn law_nothing_configured_nothing_private(host: Seq<char>)
    ensures
        host_allowed(host, seq![]) ==> (literal_octets(host) matches Some(o) ==> !non_public(o)),
        !lan_literal(host, seq![]),
{
}

/// A name that is not blocked and a public address are fetched from whatever the networks are,
/// and never with relaxed certificate checks.
pub proof fn law_public_needs_no_network(host: Seq<char>, nets: Seq<Cidr>)
    requires
        !is_blocked(host),
        literal_octets(host) matches Some(o) ==> !non_public(o),
    ensures
        host_allowed(host, nets),
        !lan_literal(host, nets),
{
}

/// A blocked name is refused whatever the networks are.
pub proof fn law_blocked_always_refused(
    scheme: Seq<char>,
    host: Seq<char>,
    nets: Seq<Cidr>,
)
    requires
        is_blocked(host),
    ensures
        !parts_allowed(Some((scheme, Some(host))), nets),
{
}

/// More networks never refuse what fewer allowed.
pub proof fn law_more_networks_allow_more(host: Seq<char>, nets: Seq<Cidr>, more: Seq<Cidr>)
    requires
        host_allowed(host, nets),
    ensures
        host_allowed(host, nets + more),
{
    if let Some(o) = literal_octets(host) {
        if in_any(nets, o) {
            let i = choose|i: int|
                0 <= i < nets.len() && crate::ip::same_network(
                    (#[trigger] nets[i]).addr.octets(),
                    nets[i].prefix,
                    o,
                );
            assert((nets + more)[i] == nets[i]);
        }
    }
}

/// The names of the deployment's inside are refused in any case of letters, under any scheme and
/// with any networks; no other name is.
pub proof fn law_names_of_the_inside(scheme: Seq<char>, host: Seq<char>, nets: Seq<Cidr>)
    ensures
        ({
            let name = lower_all(host);
            let inside = name == "host.docker.internal"@ || name == "metadata.google.internal"@ || name
                == "metadata"@ || name == "authelia"@ || name == "caddy"@ || name == "homepage"@ || name
                == "vaultwarden"@ || name == "siyuan"@;
            &&& inside ==> !parts_allowed(Some((scheme, Some(host))), nets)
            &&& !inside && literal_octets(host) is None ==> (parts_allowed(
                Some((scheme, Some(host))),
                nets,
            ) <==> scheme == "http"@ || scheme == "https"@)
        }),
{
    let list = blocked_hosts();
    assert(list[0] == "host.docker.internal"@);
    assert(list[1] == "metadata.google.internal"@);
    assert(list[2] == "metadata"@);
    assert(list[3] == "authelia"@);
    assert(list[4] == "caddy"@);
    assert(list[5] == "homepage"@);
    assert(list[6] == "vaultwarden"@);
    assert(list[7] == "siyuan"@);
}

/// A literal address is fetched from under the schemes of the web exactly where it is public or one
/// of the networks holds it, and with relaxed certificate checks exactly where it is not public and
/// one holds it.
pub proof fn law_addresses(scheme: Seq<char>, host: Seq<char>, octets: Seq<u8>, nets: Seq<Cidr>)
    requires
        literal_octets(host) == Some(octets),
    ensures
        ({
            let held = exists|i: int|
                0 <= i < nets.len() && crate::ip::same_network(
                    (#[trigger] nets[i]).addr.octets(),
                    nets[i].prefix,
                    octets,
                );
            &&& parts_allowed(Some((scheme, Some(host))), nets) <==> (scheme == "http"@ || scheme
                == "https"@) && (!non_public(octets) || held)
            &&& parts_lan_literal(Some((scheme, Some(host))), nets) <==> non_public(octets) && held
        }),
{
    lemma_address_is_not_blocked(host);
}

#[verifier::rlimit(50)]
proof fn lemma_address_is_not_blocked(host: Seq<char>)
    requires
        literal_octets(host) is Some,
    ensures
        !is_blocked(host),
{
    if is_blocked(host) {
        reveal_strlit("host.docker.internal");
        reveal_strlit("metadata.google.internal");
        reveal_strlit("metadata");
        reveal_strlit("authelia");
        reveal_strlit("caddy");
        reveal_strlit("homepage");
        reveal_strlit("vaultwarden");
        reveal_strlit("siyuan");
        let list = blocked_hosts();
        let name = lower_all(host);
        let k = choose|k: int| 0 <= k < list.len() && list[k] == name;
        let i: int = if k == 3 {
            1
        } else if k == 4 {
            4
        } else {
            0
        };
        assert(name.len() == host.len());
        assert(list[k].len() > i && !('0' <= list[k][i] <= '9') && 'f' < list[k][i] <= 'z') by {
            assert(list[0] == "host.docker.internal"@ && list[1] == "metadata.google.internal"@);
            assert(list[2] == "metadata"@ && list[3] == "authelia"@ && list[4] == "caddy"@);
            assert(list[5] == "homepage"@ && list[6] == "vaultwarden"@ && list[7] == "siyuan"@);
        }
        assert(name[i] == crate::text::lower(host[i]));
        let marks = seq!['.', ':', '[', ']', '+'];
        if marks.contains(host[i]) {
            assert(crate::text::lower(host[i]) == host[i]);
        }
        crate::notation::law_names_are_no_addresses(host, i);
    }
}

/// A URL is judged by the parts that are read in it.
pub proof fn law_urls_are_judged_by_their_parts(url: Seq<char>, nets: Seq<Cidr>)
    ensures
        url_allowed(url, nets) <==> parts_allowed(url_parts(url), nets),
{
}

/// What is no URL or has no host is never fetched, and no host is spared the strict checks there.
pub proof fn law_no_host_no_fetch(scheme: Seq<char>, nets: Seq<Cidr>)
    ensures
        !parts_allowed(None, nets),
        !parts_allowed(Some((scheme, None)), nets),
        !parts_lan_literal(None, nets),
        !parts_lan_literal(Some((scheme, None)), nets),
{
}

/// `url::Url::parse`, then `scheme` and `host_str` of what it read; `None` where it gives an
/// error.
#[verifier::external_body]
pub(crate) fn read_url(url: &str) -> (r: Option<(String, Option<String>)>)
    ensures
        r is Some == url_parts(url@) is Some,
        r matches Some(parts) ==> url_parts(url@) == Some(
            (parts.0@, owned_text(parts.1)),
        ),
{
    match url::Url::parse(url) {
        Ok(u) => Some((u.scheme().to_string(), u.host_str().map(|h| h.to_string()))),
        Err(_) => None,
    }
}

/// Whether the characters are those of one of the blocked names.
fn blocked(host: &str) -> (r: bool)
    ensures
        r == is_blocked(host@),
{
    let a = chars_of(host);
    let low = to_lower_all(a.as_slice());
    let names: [&str; 8] = [
        "host.docker.internal",
        "metadata.google.internal",
        "metadata",
        "authelia",
        "caddy",
        "homepage",
        "vaultwarden",
        "siyuan",
    ];
    let ghost list = blocked_hosts();
    assert forall|j: int| 0 <= j < 8 implies (#[trigger] names@[j])@ == list[j] by {
        assert(names@ == seq![
            "host.docker.internal",
            "metadata.google.internal",
            "metadata",
            "authelia",
            "caddy",
            "homepage",
            "vaultwarden",
            "siyuan",
        ]);
    }
    let mut i: usize = 0;
    while i < 8
        invariant
            i <= 8,
            list == blocked_hosts(),
            low@ == lower_all(host@),
            forall|j: int| 0 <= j < 8 ==> (#[trigger] names@[j])@ == list[j],
            forall|j: int| 0 <= j < i ==> list[j] != low@,
        decreases 8 - i,
    {
        if is_text(low.as_slice(), names[i]) {
            assert(list[i as int] == low@);
            return true;
        }
        i = i + 1;
    }
    false
}

/// Whether a host may be fetched from.
pub fn host_may_be_fetched(host: &str, lan_cidrs: &Vec<Cidr>) -> (r: bool)
    requires
        all_wf(lan_cidrs@),
    ensures
        r == host_allowed(host@, lan_cidrs@),
{
    if blocked(host) {
        return false;
    }
    match parse_literal_ip(host) {
        Some(ip) => !is_non_public_ip(&ip) || any_contains(lan_cidrs, &ip),
        None => true,
    }
}

/// Whether an address with this scheme and host may be fetched.
pub fn parts_may_be_fetched(
    scheme: &str,
    host: &Option<String>,
    lan_cidrs: &Vec<Cidr>,
) -> (r: bool)
    requires
        all_wf(lan_cidrs@),
    ensures
        r == parts_allowed(
            Some((scheme@, owned_text(*host))),
            lan_cidrs@,
        ),
{
    let s = chars_of(scheme);
    if !is_text(s.as_slice(), "http") && !is_text(s.as_slice(), "https") {
        return false;
    }
    match host {
        Some(h) => host_may_be_fetched(h.as_str(), lan_cidrs),
        None => false,
    }
}

/// Whether a URL may be fetched: its scheme is `http` or `https`, its host is not one of the
/// names of the deployment's inside, and a literal address that is not public lies in one of
/// the networks that the operator allows.
pub fn egress_allowed(url: &str, lan_cidrs: &Vec<Cidr>) -> (r: Option<()>)
    requires
        all_wf(lan_cidrs@),
    ensures
        r is Some == url_allowed(url@, lan_cidrs@),
{
    match read_url(url) {
        Some((scheme, host)) => if parts_may_be_fetched(scheme.as_str(), &host, lan_cidrs) {
            Some(())
        } else {
            None
        },
        None => None,
    }
}

/// Whether a host is a literal address of the networks that the operator allows. A name and a
/// public address never are.
pub fn host_is_lan_literal(host: &str, lan_cidrs: &Vec<Cidr>) -> (r: bool)
    requires
        all_wf(lan_cidrs@),
    ensures
        r == lan_literal(host@, lan_cidrs@),
{
    match parse_literal_ip(host) {
        Some(ip) => is_non_public_ip(&ip) && any_contains(lan_cidrs, &ip),
        None => false,
    }
}

/// Whether the host of a URL is such a literal address: only there are certificates that no
/// public authority signed accepted.
pub fn is_lan_literal_target(url: &str, lan_cidrs: &Vec<Cidr>) -> (r: bool)
    requires
        all_wf(lan_cidrs@),
    ensures
        r == parts_lan_literal(url_parts(url@), lan_cidrs@),
{
    match read_url(url) {
        Some((_, Some(host))) => host_is_lan_literal(host.as_str(), lan_cidrs),
        _ => false,
    }
}

} // verus!
