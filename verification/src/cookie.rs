//! The session cookie: how it is taken from a request, and to which hosts it goes on.

use vstd::prelude::*;
use vstd::slice::slice_subrange;

use crate::ip::{literal_octets, parse_literal_ip};
use crate::origin::{host_of, host_text};
use crate::text::{
    chars_of, has_prefix, has_suffix, is_white, joined, law_split_is, law_trimmed_is, lower,
    lower_all, owned_text, same, split, split_at_each, string_of, text_of, to_lower_all, trim,
    trimmed,
};

verus! {

/// What a session cookie begins with.
pub open spec fn session_prefix() -> Seq<char> {
    "authelia_session="@
}

/// A cookie is a session cookie with a value that is not empty.
pub open spec fn is_session(cookie: Seq<char>) -> bool {
    session_prefix().is_prefix_of(cookie) && cookie.len() > session_prefix().len()
}

/// The first session cookie among the pieces of a cookie header.
pub open spec fn first_session(pieces: Seq<Seq<char>>) -> Option<Seq<char>>
    decreases pieces.len(),
{
    if pieces.len() == 0 {
        None
    } else if is_session(trimmed(pieces[0])) {
        Some(trimmed(pieces[0]))
    } else {
        first_session(pieces.drop_first())
    }
}

/// The session cookie, name and value, in a cookie header.
pub open spec fn session_cookie(header: Seq<char>) -> Option<Seq<char>> {
    first_session(split(header, ';'))
}

/// `s` without the dots at its front.
pub open spec fn without_dots(s: Seq<char>) -> Seq<char>
    decreases s.len(),
{
    if s.len() > 0 && s.first() == '.' {
        without_dots(s.drop_first())
    } else {
        s
    }
}

/// A host is a domain or ends with a dot and that domain, in any case. The dots at the front of
/// the domain do not count, and an empty domain has no hosts.
pub open spec fn in_domain(host: Seq<char>, domain: Seq<char>) -> bool {
    let base = lower_all(without_dots(domain));
    domain.len() > 0 && (lower_all(host) == base || (seq!['.'] + base).is_suffix_of(
        lower_all(host),
    ))
}

/// A session as a cookie: with its name in front, unless it is there already.
pub open spec fn as_cookie(session: Seq<char>) -> Seq<char> {
    if session_prefix().is_prefix_of(session) {
        session
    } else {
        session_prefix() + session
    }
}

/// The cookie header for a request to `url`: the session, where there is one and the host of
/// the URL is in the domain and is no literal address.
pub open spec fn cookie_text(
    url: Seq<char>,
    session: Option<Seq<char>>,
    domain: Seq<char>,
) -> Option<Seq<char>> {
    match (session, host_text(url)) {
        (Some(session), Some(host)) => if literal_octets(host) is None && in_domain(host, domain) {
            Some(as_cookie(session))
        } else {
            None
        },
        _ => None,
    }
}

/// No cookie goes to a host outside the domain.
pub proof fn law_cookie_stays_in_domain(
    url: Seq<char>,
    session: Option<Seq<char>>,
    domain: Seq<char>,
)
    ensures
        cookie_text(url, session, domain) is Some ==> {
            &&& session is Some
            &&& host_text(url) is Some
            &&& in_domain(host_text(url)->0, domain)
        },
{
}

/// No cookie goes to a literal address, whatever the domain is.
pub proof fn law_no_cookie_to_address(
    url: Seq<char>,
    session: Option<Seq<char>>,
    domain: Seq<char>,
)
    requires
        host_text(url) is Some,
        literal_octets(host_text(url)->0) is Some,
    ensures
        cookie_text(url, session, domain) is None,
{
}

/// With no domain configured no cookie goes anywhere.
pub proof fn law_no_domain_no_cookie(url: Seq<char>, session: Option<Seq<char>>)
    ensures
        cookie_text(url, session, seq![]) is None,
{
}

/// What goes on is the session cookie that came in, name and value.
pub proof fn law_cookie_is_forwarded_unchanged(
    url: Seq<char>,
    header: Seq<char>,
    domain: Seq<char>,
)
    requires
        cookie_text(url, session_cookie(header), domain) is Some,
    ensures
        cookie_text(url, session_cookie(header), domain) == session_cookie(header),
{
    lemma_first_session(split(header, ';'));
}

/// What goes on is a session cookie, and the name is not put in front of it twice.
pub proof fn law_one_name(url: Seq<char>, session: Seq<char>, domain: Seq<char>)
    ensures
        cookie_text(url, Some(session), domain) matches Some(cookie) ==> {
            &&& session_prefix().is_prefix_of(cookie)
            &&& cookie_text(url, Some(cookie), domain) == Some(cookie)
        },
{
    let named = session_prefix() + session;
    assert(named.subrange(0, session_prefix().len() as int) == session_prefix());
}

/// The session taken from a header is a whole piece of it between semicolons, trimmed: the first
/// one that begins with the name and has a value behind it. There is none only where no piece does.
pub proof fn law_session_is_a_whole_piece(header: Seq<char>)
    ensures
        session_cookie(header) matches Some(cookie) ==> exists|i: int|
            {
                &&& 0 <= i < split(header, ';').len()
                &&& cookie == trimmed(#[trigger] split(header, ';')[i])
                &&& "authelia_session="@.is_prefix_of(cookie)
                &&& cookie.len() > 17
                &&& forall|j: int|
                    0 <= j < i ==> !("authelia_session="@.is_prefix_of(
                        trimmed(#[trigger] split(header, ';')[j]),
                    ) && trimmed(split(header, ';')[j]).len() > 17)
            },
        session_cookie(header) is None ==> forall|j: int|
            0 <= j < split(header, ';').len() ==> !("authelia_session="@.is_prefix_of(
                trimmed(#[trigger] split(header, ';')[j]),
            ) && trimmed(split(header, ';')[j]).len() > 17),
{
    reveal_strlit("authelia_session=");
    lemma_whole_piece(split(header, ';'));
}

proof fn lemma_whole_piece(pieces: Seq<Seq<char>>)
    ensures
        first_session(pieces) matches Some(cookie) ==> exists|i: int|
            {
                &&& 0 <= i < pieces.len()
                &&& cookie == trimmed(#[trigger] pieces[i])
                &&& is_session(cookie)
                &&& forall|j: int| 0 <= j < i ==> !is_session(trimmed(#[trigger] pieces[j]))
            },
        first_session(pieces) is None ==> forall|j: int|
            0 <= j < pieces.len() ==> !is_session(trimmed(#[trigger] pieces[j])),
    decreases pieces.len(),
{
    if pieces.len() > 0 {
        if is_session(trimmed(pieces[0])) {
            assert(first_session(pieces) == Some(trimmed(pieces[0])));
        } else {
            let rest = pieces.drop_first();
            lemma_whole_piece(rest);
            assert(forall|j: int| 0 <= j < rest.len() ==> rest[j] == pieces[j + 1]);
            if let Some(cookie) = first_session(rest) {
                let i = choose|i: int|
                    {
                        &&& 0 <= i < rest.len()
                        &&& cookie == trimmed(#[trigger] rest[i])
                        &&& is_session(cookie)
                        &&& forall|j: int| 0 <= j < i ==> !is_session(trimmed(#[trigger] rest[j]))
                    };
                assert(cookie == trimmed(pieces[i + 1]));
                assert forall|j: int| 0 <= j < i + 1 implies !is_session(
                    trimmed(#[trigger] pieces[j]),
                ) by {
                    if j > 0 {
                        assert(pieces[j] == rest[j - 1]);
                    }
                }
            } else {
                assert forall|j: int| 0 <= j < pieces.len() implies !is_session(
                    trimmed(#[trigger] pieces[j]),
                ) by {
                    if j > 0 {
                        assert(pieces[j] == rest[j - 1]);
                    }
                }
            }
        }
    }
}

/// A session cookie between other cookies is found, whatever its value is and however long: its
/// value is everything up to the next semicolon but for white characters at the end.
#[verifier::rlimit(50)]
pub proof fn law_session_is_found(before: Seq<Seq<char>>, value: Seq<char>, after: Seq<Seq<char>>)
    requires
        value.len() > 0,
        !value.contains(';'),
        !is_white(value.last()),
        forall|j: int|
            0 <= j < before.len() ==> !(#[trigger] before[j]).contains(';')
                && !"authelia_session="@.is_prefix_of(trimmed(before[j])),
        forall|j: int| 0 <= j < after.len() ==> !(#[trigger] after[j]).contains(';'),
    ensures
        session_cookie(joined(before + seq!["authelia_session="@ + value] + after, ';')) == Some(
            "authelia_session="@ + value,
        ),
{
    reveal_strlit("authelia_session=");
    let cookie = "authelia_session="@ + value;
    let pieces = before + seq![cookie] + after;
    let n = before.len() as int;
    assert(!cookie.contains(';')) by {
        if cookie.contains(';') {
            let i = choose|i: int| 0 <= i < cookie.len() && cookie[i] == ';';
            if i >= 17 {
                assert(value[i - 17] == ';');
            }
        }
    }
    assert forall|j: int| 0 <= j < pieces.len() implies !(#[trigger] pieces[j]).contains(';') by {
        if j < n {
            assert(pieces[j] == before[j]);
        } else if j > n {
            assert(pieces[j] == after[j - n - 1]);
        }
    }
    law_split_is(pieces, ';');
    let nothing = Seq::<char>::empty();
    assert(nothing + cookie + nothing == cookie);
    law_trimmed_is(nothing, cookie, nothing);
    assert(cookie.subrange(0, 17) == "authelia_session="@);
    let header = joined(pieces, ';');
    law_session_is_a_whole_piece(header);
    assert(pieces[n] == cookie);
    if let Some(found) = session_cookie(header) {
        let i = choose|i: int|
            {
                &&& 0 <= i < pieces.len()
                &&& found == trimmed(#[trigger] pieces[i])
                &&& "authelia_session="@.is_prefix_of(found)
                &&& found.len() > 17
                &&& forall|j: int|
                    0 <= j < i ==> !("authelia_session="@.is_prefix_of(
                        trimmed(#[trigger] pieces[j]),
                    ) && trimmed(pieces[j]).len() > 17)
            };
        if i < n {
            assert(pieces[i] == before[i]);
        } else if i > n {
            assert(trimmed(pieces[n]) == cookie);
        }
    } else {
        assert(trimmed(pieces[n]) == cookie);
    }
}

/// Dots in front of a domain do not count; a host is in the domain where it is the domain itself,
/// or something, a dot and the domain, in any case.
pub proof fn law_hosts_of_a_domain(host: Seq<char>, dots: Seq<char>, base: Seq<char>)
    requires
        forall|i: int| 0 <= i < dots.len() ==> #[trigger] dots[i] == '.',
        base.len() > 0 ==> base.first() != '.',
        dots.len() + base.len() > 0,
    ensures
        in_domain(host, dots + base) <==> (lower_all(host) == lower_all(base) || exists|
            front: Seq<char>,
        |
            lower_all(host) == #[trigger] (front + seq!['.'] + lower_all(base))),
        !in_domain(host, seq![]),
{
    lemma_without_dots(dots, base);
    let h = lower_all(host);
    let low = lower_all(base);
    let tail = seq!['.'] + low;
    if tail.is_suffix_of(h) {
        let front = h.take(h.len() - tail.len());
        assert(h == front + seq!['.'] + low) by {
            assert(h.subrange(h.len() - tail.len(), h.len() as int) == tail);
            assert(h == front + h.subrange(h.len() - tail.len(), h.len() as int));
            assert(front + tail == front + seq!['.'] + low);
        }
    }
    if exists|front: Seq<char>| h == #[trigger] (front + seq!['.'] + low) {
        let front = choose|front: Seq<char>| h == #[trigger] (front + seq!['.'] + low);
        assert(h.subrange(h.len() - tail.len(), h.len() as int) == tail);
    }
}

proof fn lemma_without_dots(dots: Seq<char>, base: Seq<char>)
    requires
        forall|i: int| 0 <= i < dots.len() ==> #[trigger] dots[i] == '.',
        base.len() > 0 ==> base.first() != '.',
    ensures
        without_dots(dots + base) == base,
    decreases dots.len(),
{
    let s = dots + base;
    if dots.len() == 0 {
        assert(s == base);
    } else {
        assert(s.first() == dots[0]);
        assert(s.drop_first() == dots.drop_first() + base);
        lemma_without_dots(dots.drop_first(), base);
    }
}

/// A host of the domain that is no literal address gets the whole session, under its name.
pub proof fn law_cookie_is_given(
    url: Seq<char>,
    host: Seq<char>,
    value: Seq<char>,
    domain: Seq<char>,
)
    requires
        host_text(url) == Some(host),
        literal_octets(host) is None,
        in_domain(host, domain),
    ensures
        cookie_text(url, Some("authelia_session="@ + value), domain) == Some(
            "authelia_session="@ + value,
        ),
        !"authelia_session="@.is_prefix_of(value) ==> cookie_text(url, Some(value), domain) == Some(
            "authelia_session="@ + value,
        ),
        cookie_text(url, None, domain) is None,
{
    let named = "authelia_session="@ + value;
    assert(named.subrange(0, "authelia_session="@.len() as int) == "authelia_session="@);
}

/// What is taken from a header is a session cookie with a value.
pub proof fn law_session_is_not_empty(header: Seq<char>)
    ensures
        session_cookie(header) matches Some(cookie) ==> is_session(cookie),
{
    lemma_first_session(split(header, ';'));
}

proof fn lemma_first_session(pieces: Seq<Seq<char>>)
    ensures
        first_session(pieces) matches Some(cookie) ==> is_session(cookie),
    decreases pieces.len(),
{
    if pieces.len() > 0 && !is_session(trimmed(pieces[0])) {
        lemma_first_session(pieces.drop_first());
    }
}

/// A domain matches at a label boundary only: another text in front of it without a dot between
/// them makes a host of another domain.
pub proof fn law_label_boundary(front: Seq<char>, domain: Seq<char>)
    requires
        front.len() > 0,
        front.last() != '.',
        domain.len() > 0,
        domain.first() != '.',
    ensures
        !in_domain(front + domain, domain),
        in_domain(front + seq!['.'] + domain, domain),
        in_domain(domain, domain),
{
    let base = lower_all(domain);
    let h = lower_all(front + domain);
    assert(h.len() == front.len() + base.len());
    if (seq!['.'] + base).is_suffix_of(h) {
        let n = h.len() as int;
        let m = (seq!['.'] + base).len() as int;
        assert(h.subrange(n - m, n)[0] == '.');
        assert(h[front.len() - 1] == lower(front.last()));
    }
    let g = lower_all(front + seq!['.'] + domain);
    let n = g.len() as int;
    let m = (seq!['.'] + base).len() as int;
    assert(g.subrange(n - m, n) == seq!['.'] + base);
}

/// The upper or lower case of host and domain makes no difference.
pub proof fn law_case_does_not_matter(host: Seq<char>, domain: Seq<char>)
    ensures
        in_domain(lower_all(host), domain) == in_domain(host, domain),
        in_domain(host, lower_all(domain)) == in_domain(host, domain),
{
    assert(lower_all(lower_all(host)) == lower_all(host));
    lemma_dots_and_case(domain);
}

proof fn lemma_dots_and_case(s: Seq<char>)
    ensures
        lower_all(without_dots(lower_all(s))) == lower_all(without_dots(s)),
    decreases s.len(),
{
    assert(lower_all(lower_all(s)) == lower_all(s));
    if s.len() > 0 {
        assert(lower_all(s).first() == lower(s.first()));
        assert(lower_all(s).drop_first() == lower_all(s.drop_first()));
        lemma_dots_and_case(s.drop_first());
    }
}

/// The session cookie in a cookie header, name and value; `None` where there is none or its
/// value is empty.
pub fn extract_authelia_session(raw: &str) -> (r: Option<String>)
    ensures
        owned_text(r) == session_cookie(raw@),
{
    let a = chars_of(raw);
    let pieces = split_at_each(a.as_slice(), ';');
    let ghost texts = split(raw@, ';');
    let mut i: usize = 0;
    assert(texts.skip(0) == texts);
    proof {
        reveal_strlit("authelia_session=");
    }
    while i < pieces.len()
        invariant
            session_prefix().len() == 17,
            texts == split(raw@, ';'),
            i <= pieces@.len(),
            pieces@.len() == texts.len(),
            forall|j: int| 0 <= j < pieces@.len() ==> (#[trigger] pieces@[j])@ == texts[j],
            first_session(texts) == first_session(texts.skip(i as int)),
        decreases pieces@.len() - i,
    {
        let p = trim(pieces[i].as_slice());
        assert(texts.skip(i as int)[0] == pieces@[i as int]@);
        if has_prefix(p, "authelia_session=") && p.len() > 17 {
            return Some(string_of(p));
        }
        assert(texts.skip(i as int).drop_first() == texts.skip(i as int + 1));
        i = i + 1;
    }
    None
}

/// Whether a host belongs to the domain that cookies are forwarded to.
pub fn host_matches_domain(host: &str, cookie_domain: &str) -> (r: bool)
    ensures
        r == in_domain(host@, cookie_domain@),
{
    let d = chars_of(cookie_domain);
    if d.len() == 0 {
        return false;
    }
    let mut k: usize = 0;
    assert(d@.skip(0) == d@);
    while k < d.len() && d[k] == '.'
        invariant
            k <= d@.len(),
            without_dots(d@.skip(k as int)) == without_dots(d@),
        decreases d@.len() - k,
    {
        assert(d@.skip(k as int).drop_first() == d@.skip(k as int + 1));
        k = k + 1;
    }
    let bare = slice_subrange(d.as_slice(), k, d.len());
    assert(bare@ == d@.skip(k as int));
    assert(bare@ == without_dots(d@));
    let base = to_lower_all(bare);
    let a = chars_of(host);
    let h = to_lower_all(a.as_slice());
    if same(h.as_slice(), base.as_slice()) {
        return true;
    }
    let ghost base_text = base@;
    let mut rest = base;
    let mut dotted: Vec<char> = Vec::new();
    dotted.push('.');
    dotted.append(&mut rest);
    assert(dotted@ == seq!['.'] + base_text);
    has_suffix(h.as_slice(), dotted.as_slice())
}

/// The cookie header for a request to `url`, if it gets one: only where a domain is configured,
/// the host of the URL is in it, and there is a session. A literal address never gets one. The
/// session may be given with or without the name of the cookie.
pub fn cookie_for(url: &str, session: Option<&str>, cookie_domain: &str) -> (r: Option<String>)
    ensures
        owned_text(r) == cookie_text(
            url@,
            text_of(session),
            cookie_domain@,
        ),
{
    let value = match session {
        Some(v) => v,
        None => {
            return None;
        },
    };
    let host = match host_of(url) {
        Some(h) => h,
        None => {
            return None;
        },
    };
    if parse_literal_ip(host).is_some() || !host_matches_domain(host, cookie_domain) {
        return None;
    }
    let mut out = String::new();
    let a = chars_of(value);
    if !has_prefix(a.as_slice(), "authelia_session=") {
        out.append("authelia_session=");
    }
    out.append(value);
    assert(out@ == as_cookie(value@));
    Some(out)
}

} // verus!
