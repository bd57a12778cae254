//! The origin and the host in the text of a URL.

use vstd::prelude::*;
use vstd::slice::slice_subrange;

use crate::text::{
    chars_of, find_any, has_prefix, is_white, lemma_find_any, lemma_find_any_unique,
    law_trimmed_ignores_white, owned_text,
    position_any, slice_to_chars, string_of, text_of, trim, trim_end, trim_start, trimmed,
};

verus! {

/// The length of the scheme that the text begins with, with its colon and slashes, or 0.
pub open spec fn scheme_len(s: Seq<char>) -> int {
    if "https://"@.is_prefix_of(s) {
        8
    } else if "http://"@.is_prefix_of(s) {
        7
    } else {
        0
    }
}

/// The characters that end the host and port.
pub open spec fn path_marks() -> Seq<char> {
    seq!['/', '?', '#']
}

/// What follows the last `mark`, or the whole.
pub open spec fn after_last(s: Seq<char>, mark: char) -> Seq<char>
    decreases s.len(),
{
    let k = find_any(s, seq![mark]);
    if 0 <= k < s.len() {
        after_last(s.skip(k + 1), mark)
    } else {
        s
    }
}

/// A host and port without the user before them. A backslash is read as a slash, so what stands
/// behind one names no user; nothing is left where a user stands before no host.
pub open spec fn without_user(authority: Seq<char>) -> Seq<char> {
    let m = find_any(authority, seq!['\\']);
    let front = authority.take(m);
    let host = after_last(front, '@');
    if front.len() > 0 && host.len() == 0 {
        seq![]
    } else {
        host + authority.skip(m)
    }
}

/// The host and port in a text after its scheme: up to the first character of a path, a query or
/// a fragment, without a user.
pub open spec fn site_text(rest: Seq<char>) -> Seq<char> {
    without_user(rest.take(find_any(rest, path_marks())))
}

/// The origin in a text: scheme, host and port, without a user, path, query or fragment. `None`
/// where the scheme is neither `http` nor `https` or the host is empty.
pub open spec fn origin_text(raw: Seq<char>) -> Option<Seq<char>> {
    let s = trimmed(raw);
    let k = scheme_len(s);
    let site = site_text(s.skip(k));
    if k > 0 && site.len() > 0 {
        Some(s.take(k) + site)
    } else {
        None
    }
}

/// The characters that end the authority of a URL; a backslash there is read as a slash.
pub open spec fn authority_marks() -> Seq<char> {
    seq!['/', '\\', '?', '#']
}

/// The host in `host[:port]`, where a host in brackets keeps them.
pub open spec fn without_port(s: Seq<char>) -> Seq<char> {
    let close = find_any(s, seq![']']);
    if s.len() > 0 && s[0] == '[' && close < s.len() && (close + 1 == s.len() || s[close + 1]
        == ':') {
        s.take(close + 1)
    } else {
        s.take(find_any(s, seq![':']))
    }
}

/// The host in the text of a URL: no scheme, no user, no port, no path. `None` where the scheme
/// is neither `http` nor `https` or the host is empty.
pub open spec fn host_text(url: Seq<char>) -> Option<Seq<char>> {
    let k = scheme_len(url);
    let rest = url.skip(k);
    let host = without_port(after_last(rest.take(find_any(rest, authority_marks())), '@'));
    if k > 0 && host.len() > 0 {
        Some(host)
    } else {
        None
    }
}

proof fn lemma_scheme_len(s: Seq<char>)
    ensures
        "https://"@.len() == 8,
        "http://"@.len() == 7,
        0 <= scheme_len(s) <= s.len(),
{
    reveal_strlit("https://");
    reveal_strlit("http://");
}

/// Where the scheme ends; 0 where the text begins with neither of the two.
fn scheme_end(a: &[char]) -> (r: usize)
    ensures
        r as int == scheme_len(a@),
        r <= a@.len(),
{
    proof {
        lemma_scheme_len(a@);
    }
    if has_prefix(a, "https://") {
        8
    } else if has_prefix(a, "http://") {
        7
    } else {
        0
    }
}

/// Where what follows the last `mark` begins.
fn past_last(a: &[char], mark: char) -> (r: usize)
    ensures
        r <= a@.len(),
        a@.skip(r as int) == after_last(a@, mark),
{
    let marks: [char; 1] = [mark];
    assert(marks@ == seq![mark]);
    let mut start: usize = 0;
    assert(a@.skip(0) == a@);
    loop
        invariant
            marks@ == seq![mark],
            start <= a@.len(),
            after_last(a@.skip(start as int), mark) == after_last(a@, mark),
        decreases a@.len() - start,
    {
        let rest = slice_subrange(a, start, a.len());
        assert(rest@ == a@.skip(start as int));
        let k: usize = position_any(rest, marks.as_slice());
        if k == rest.len() {
            return start;
        }
        assert(rest@.skip(k + 1) == a@.skip(start + k + 1));
        start = start + k + 1;
    }
}

/// The origin of a URL; its user, path, query and fragment are dropped.
pub fn parse_origin(raw: &str) -> (r: Option<String>)
    ensures
        owned_text(r) == origin_text(raw@),
{
    let a = chars_of(raw);
    let s = trim(a.as_slice());
    let k: usize = scheme_end(s);
    if k == 0 {
        return None;
    }
    let rest = slice_subrange(s, k, s.len());
    assert(rest@ == s@.skip(k as int));
    let marks: [char; 3] = ['/', '?', '#'];
    assert(marks@ == path_marks());
    let end: usize = position_any(rest, marks.as_slice());
    let authority = slice_subrange(rest, 0, end);
    assert(authority@ == rest@.take(end as int));
    let slash: [char; 1] = ['\\'];
    assert(slash@ == seq!['\\']);
    let m: usize = position_any(authority, slash.as_slice());
    let front = slice_subrange(authority, 0, m);
    assert(front@ == authority@.take(m as int));
    let skipped: usize = past_last(front, '@');
    if m > 0 && skipped == m {
        assert(front@.skip(skipped as int).len() == 0);
        return None;
    }
    let site = slice_subrange(authority, skipped, end);
    assert(front@.skip(skipped as int) + authority@.skip(m as int) == site@);
    assert(site@ == site_text(rest@));
    if site.len() == 0 {
        return None;
    }
    let scheme = slice_subrange(s, 0, k);
    assert(scheme@ == s@.take(k as int));
    let mut origin = slice_to_chars(scheme);
    let mut tail = slice_to_chars(site);
    origin.append(&mut tail);
    assert(origin@ == s@.take(k as int) + site@);
    Some(string_of(origin.as_slice()))
}

/// The host of a URL: only the host, without the scheme and the port.
pub fn host_of(url: &str) -> (r: Option<&str>)
    ensures
        text_of(r) == host_text(url@),
{
    let a = chars_of(url);
    let k: usize = scheme_end(a.as_slice());
    if k == 0 {
        return None;
    }
    let rest = slice_subrange(a.as_slice(), k, a.len());
    assert(rest@ == url@.skip(k as int));
    let marks: [char; 4] = ['/', '\\', '?', '#'];
    assert(marks@ == authority_marks());
    let end: usize = position_any(rest, marks.as_slice());
    let authority = slice_subrange(rest, 0, end);
    assert(authority@ == rest@.take(end as int));
    let skipped: usize = past_last(authority, '@');
    let site = slice_subrange(authority, skipped, end);
    assert(site@ == authority@.skip(skipped as int));
    let bracket: [char; 1] = [']'];
    assert(bracket@ == seq![']']);
    let close: usize = position_any(site, bracket.as_slice());
    let colon: [char; 1] = [':'];
    assert(colon@ == seq![':']);
    let len: usize = if site.len() > 0 && site[0] == '[' && close < site.len() && (close + 1
        == site.len() || site[close + 1] == ':') {
        close + 1
    } else {
        position_any(site, colon.as_slice())
    };
    assert(site@.take(len as int) == without_port(site@));
    if len == 0 {
        return None;
    }
    let start: usize = k + skipped;
    let host = url.substring_char(start, start + len);
    assert(host@ == site@.take(len as int));
    Some(host)
}

proof fn lemma_trim_start_keeps(s: Seq<char>)
    requires
        s.len() > 0,
        !is_white(s.first()),
    ensures
        trim_start(s) == s,
{
}

/// Trimming the back of a text stops at the last character that is not white.
proof fn lemma_trim_end_stops(front: Seq<char>, back: Seq<char>)
    requires
        front.len() > 0,
        !is_white(front.last()),
    ensures
        front.is_prefix_of(trim_end(front + back)),
    decreases back.len(),
{
    if back.len() == 0 {
        assert(front + back == front);
    } else if is_white(back.last()) {
        assert((front + back).drop_last() == front + back.drop_last());
        lemma_trim_end_stops(front, back.drop_last());
    } else {
        assert((front + back).last() == back.last());
    }
}

/// What follows the last mark holds none, and is the end of the whole.
proof fn lemma_after_last(s: Seq<char>, mark: char)
    ensures
        after_last(s, mark).len() <= s.len(),
        after_last(s, mark) == s.skip(s.len() - after_last(s, mark).len()),
        !after_last(s, mark).contains(mark),
    decreases s.len(),
{
    let k = find_any(s, seq![mark]);
    lemma_find_any(s, seq![mark]);
    if k < s.len() {
        let rest = s.skip(k + 1);
        lemma_after_last(rest, mark);
        let m = after_last(rest, mark).len();
        assert(rest.skip(rest.len() - m) == s.skip(s.len() - m));
    } else {
        assert(s.skip(0) == s);
        if s.contains(mark) {
            let i = choose|i: int| 0 <= i < s.len() && s[i] == mark;
            assert(seq![mark][0] == mark);
            assert(!seq![mark].contains(s[i]));
        }
    }
}

/// What follows a mark and holds none is what follows the last one.
proof fn lemma_after_last_is(front: Seq<char>, back: Seq<char>, mark: char)
    requires
        front.len() == 0 || front.last() == mark,
        !back.contains(mark),
    ensures
        after_last(front + back, mark) == back,
    decreases front.len(),
{
    let s = front + back;
    let k = find_any(s, seq![mark]);
    lemma_find_any(s, seq![mark]);
    assert(seq![mark][0] == mark);
    if front.len() == 0 {
        assert(s == back);
        if k < s.len() {
            assert(back.contains(s[k]));
        }
    } else {
        let last = front.len() - 1;
        assert(s[last] == mark);
        assert(seq![mark].contains(s[last]));
        assert(k <= last);
        let rest = front.skip(k + 1);
        assert(s.skip(k + 1) == rest + back);
        lemma_after_last_is(rest, back, mark);
    }
}

/// What is left without a user is the end of the whole, and no user is left in it.
proof fn lemma_without_user(authority: Seq<char>)
    ensures
        ({
            let site = without_user(authority);
            &&& site.len() <= authority.len()
            &&& site.len() > 0 ==> site == authority.skip(authority.len() - site.len())
            &&& !site.take(find_any(site, seq!['\\'])).contains('@')
        }),
{
    let slash = seq!['\\'];
    let m = find_any(authority, slash);
    lemma_find_any(authority, slash);
    let front = authority.take(m);
    let host = after_last(front, '@');
    lemma_after_last(front, '@');
    let site = without_user(authority);
    if site.len() > 0 {
        let h = host.len() as int;
        assert(site == host + authority.skip(m));
        assert(site == authority.skip(m - h));
        assert forall|i: int| 0 <= i < h implies !slash.contains(#[trigger] site[i]) by {
            assert(site[i] == authority[m - h + i]);
        }
        if h < site.len() {
            assert(site[h] == authority[m]);
        }
        lemma_find_any_unique(site, slash, h);
        assert(site.take(h) == host);
    } else {
        lemma_find_any(site, slash);
        assert(site.take(find_any(site, slash)).len() == 0);
    }
}

/// What stands before the host is dropped, and nothing else.
proof fn lemma_without_user_is(user: Seq<char>, host: Seq<char>)
    requires
        user.len() == 0 || user.last() == '@',
        !user.contains('\\'),
        host.len() > 0,
        user.len() > 0 ==> host.first() != '\\',
        !host.take(find_any(host, seq!['\\'])).contains('@'),
    ensures
        without_user(user + host) == host,
{
    let authority = user + host;
    let slash = seq!['\\'];
    assert(slash[0] == '\\');
    let h = find_any(host, slash);
    lemma_find_any(host, slash);
    let m = user.len() + h;
    assert forall|i: int| 0 <= i < m implies !slash.contains(#[trigger] authority[i]) by {
        if i < user.len() {
            assert(authority[i] == user[i]);
            assert(user.contains(user[i]));
        } else {
            assert(authority[i] == host[i - user.len()]);
        }
    }
    if m < authority.len() {
        assert(authority[m] == host[h]);
    }
    lemma_find_any_unique(authority, slash, m);
    let front = host.take(h);
    assert(authority.take(m) == user + front);
    lemma_after_last_is(user, front, '@');
    if h == 0 && user.len() > 0 {
        assert(slash.contains(host[0]));
    }
    assert(authority.skip(m) == host.skip(h));
    assert(front + host.skip(h) == host);
}

/// Whatever user stands before the host, and whatever path, query or fragment follows it, the
/// origin of a URL is the scheme with the host and port.
#[verifier::rlimit(50)]
pub proof fn law_origin_drops_the_rest(
    scheme: Seq<char>,
    user: Seq<char>,
    host: Seq<char>,
    tail: Seq<char>,
)
    requires
        scheme == "http://"@ || scheme == "https://"@,
        user.len() == 0 || user.last() == '@',
        forall|i: int| 0 <= i < user.len() ==> !seq!['/', '?', '#'].contains(#[trigger] user[i]),
        !user.contains('\\'),
        host.len() > 0,
        user.len() > 0 ==> host.first() != '\\',
        !host.take(find_any(host, seq!['\\'])).contains('@'),
        forall|i: int| 0 <= i < host.len() ==> !seq!['/', '?', '#'].contains(#[trigger] host[i]),
        tail.len() > 0 ==> seq!['/', '?', '#'].contains(tail.first()),
        tail.len() == 0 ==> !is_white(host.last()),
    ensures
        origin_text(scheme + user + host + tail) == Some(scheme + host),
{
    reveal_strlit("https://");
    reveal_strlit("http://");
    assert(path_marks() == seq!['/', '?', '#']);
    let raw = scheme + user + host + tail;
    let authority = user + host;
    let front = if tail.len() > 0 {
        scheme + authority + seq![tail.first()]
    } else {
        scheme + authority
    };
    let back = if tail.len() > 0 {
        tail.drop_first()
    } else {
        tail
    };
    assert(raw == front + back);
    assert(front.last() == (if tail.len() > 0 {
        tail.first()
    } else {
        host.last()
    }));
    lemma_trim_start_keeps(raw);
    lemma_trim_end_stops(front, back);
    let s = trimmed(raw);
    assert(front.is_prefix_of(s));
    assert forall|i: int| 0 <= i < front.len() implies #[trigger] s[i] == front[i] by {
        assert(s.subrange(0, front.len() as int)[i] == front[i]);
    }
    if tail.len() == 0 {
        assert(raw == front);
        assert(s == front);
    }
    let k = scheme.len() as int;
    assert(scheme_len(s) == k) by {
        if scheme == "https://"@ {
            assert(s.subrange(0, 8) == scheme);
        } else {
            assert(s.subrange(0, 7) == scheme);
            if "https://"@.is_prefix_of(s) {
                assert(s.subrange(0, 8)[4] == 's');
                assert(s[4] == front[4]);
            }
        }
    }
    let rest = s.skip(k);
    let n = authority.len() as int;
    assert forall|i: int| 0 <= i < n implies #[trigger] rest[i] == authority[i] by {
        assert(rest[i] == s[k + i]);
        assert(s[k + i] == front[k + i]);
    }
    assert forall|i: int| 0 <= i < n implies !path_marks().contains(#[trigger] rest[i]) by {
        if i < user.len() {
            assert(rest[i] == user[i]);
        } else {
            assert(rest[i] == host[i - user.len()]);
        }
    }
    if tail.len() > 0 {
        assert(rest[n] == s[k + n]);
        assert(s[k + n] == front[k + n]);
    }
    lemma_find_any_unique(rest, path_marks(), n);
    assert(rest.take(n) == authority);
    lemma_without_user_is(user, host);
    assert(s.take(k) == scheme);
}

/// The origin of an origin is itself.
#[verifier::rlimit(50)]
pub proof fn law_origin_of_origin(raw: Seq<char>)
    requires
        origin_text(raw) is Some,
        !is_white((origin_text(raw)->0).last()),
    ensures
        origin_text(origin_text(raw)->0) == origin_text(raw),
{
    reveal_strlit("https://");
    reveal_strlit("http://");
    let s = trimmed(raw);
    let k = scheme_len(s);
    let rest = s.skip(k);
    lemma_find_any(rest, path_marks());
    let end = find_any(rest, path_marks());
    let authority = rest.take(end);
    let site = site_text(rest);
    lemma_without_user(authority);
    let gone = authority.len() - site.len();
    assert forall|i: int| 0 <= i < site.len() implies !path_marks().contains(#[trigger] site[i]) by {
        assert(site[i] == authority[gone + i]);
        assert(authority[gone + i] == rest[gone + i]);
    }
    let scheme = s.take(k);
    assert(scheme == "https://"@ || scheme == "http://"@) by {
        assert(s.subrange(0, k) == scheme);
    }
    let nothing = Seq::<char>::empty();
    assert((scheme + site).last() == site.last());
    law_origin_drops_the_rest(scheme, nothing, site, nothing);
    assert(scheme + nothing + site + nothing == scheme + site);
}

/// A text that does not begin with one of the two schemes, white characters in front of it aside,
/// has no origin, and a URL that does not begin with one has no host.
pub proof fn law_scheme_is_needed(raw: Seq<char>, url: Seq<char>)
    ensures
        !"http://"@.is_prefix_of(trimmed(raw)) && !"https://"@.is_prefix_of(trimmed(raw))
            ==> origin_text(raw) is None,
        !"http://"@.is_prefix_of(url) && !"https://"@.is_prefix_of(url) ==> host_text(url) is None,
{
}

/// A scheme with nothing behind it, or with a path, a query, a fragment or a user alone, has no
/// origin.
#[verifier::rlimit(50)]
pub proof fn law_host_is_needed(scheme: Seq<char>, user: Seq<char>, tail: Seq<char>)
    requires
        scheme == "http://"@ || scheme == "https://"@,
        user.len() == 0 || user.last() == '@',
        !user.contains('\\'),
        forall|i: int| 0 <= i < user.len() ==> !seq!['/', '?', '#'].contains(#[trigger] user[i]),
        tail.len() > 0 ==> seq!['/', '?', '#'].contains(tail.first()),
    ensures
        origin_text(scheme + user + tail) is None,
{
    reveal_strlit("https://");
    reveal_strlit("http://");
    assert(path_marks() == seq!['/', '?', '#']);
    let raw = scheme + user + tail;
    let front = if tail.len() > 0 {
        scheme + user + seq![tail.first()]
    } else {
        scheme + user
    };
    let back = if tail.len() > 0 {
        tail.drop_first()
    } else {
        tail
    };
    assert(raw == front + back);
    assert(front.last() == (if tail.len() > 0 {
        tail.first()
    } else if user.len() > 0 {
        user.last()
    } else {
        scheme.last()
    }));
    lemma_trim_start_keeps(raw);
    lemma_trim_end_stops(front, back);
    let s = trimmed(raw);
    if tail.len() == 0 {
        assert(raw == front);
    }
    assert forall|i: int| 0 <= i < front.len() implies #[trigger] s[i] == front[i] by {
        assert(s.subrange(0, front.len() as int)[i] == front[i]);
    }
    let k = scheme.len() as int;
    assert(scheme_len(s) == k) by {
        if scheme == "https://"@ {
            assert(s.subrange(0, 8) == scheme);
        } else {
            assert(s.subrange(0, 7) == scheme);
            if "https://"@.is_prefix_of(s) {
                assert(s.subrange(0, 8)[4] == 's');
                assert(s[4] == 's');
                assert(front[4] == ':');
            }
        }
    }
    let rest = s.skip(k);
    let n = user.len() as int;
    assert forall|i: int| 0 <= i < n implies !path_marks().contains(#[trigger] rest[i]) by {
        assert(rest[i] == s[k + i]);
        assert(s[k + i] == front[k + i]);
        assert(front[k + i] == user[i]);
    }
    if tail.len() > 0 {
        assert(rest[n] == s[k + n]);
        assert(s[k + n] == front[k + n]);
    }
    lemma_find_any_unique(rest, path_marks(), n);
    assert(rest.take(n) == user) by {
        assert forall|i: int| 0 <= i < n implies rest.take(n)[i] == user[i] by {
            assert(rest[i] == s[k + i]);
            assert(s[k + i] == front[k + i]);
        }
    }
    let slash = seq!['\\'];
    assert forall|i: int| 0 <= i < n implies !slash.contains(#[trigger] user[i]) by {
        assert(user.contains(user[i]));
    }
    lemma_find_any_unique(user, slash, n);
    assert(user.take(n) == user);
    let nothing = Seq::<char>::empty();
    assert(user + nothing == user);
    lemma_after_last_is(user, nothing, '@');
    assert(user.skip(n) == nothing);
    assert(nothing + nothing == nothing);
}

/// White characters around a URL make no difference to its origin.
pub proof fn law_origin_ignores_white(a: Seq<char>, raw: Seq<char>, b: Seq<char>)
    requires
        forall|i: int| 0 <= i < a.len() ==> is_white(#[trigger] a[i]),
        forall|i: int| 0 <= i < b.len() ==> is_white(#[trigger] b[i]),
    ensures
        origin_text(a + raw + b) == origin_text(raw),
{
    law_trimmed_ignores_white(a, raw, b);
}

/// The host of a URL is what stands between the user and the port, whatever these are and whatever
/// follows; a host in brackets keeps them, and may have colons inside.
#[verifier::rlimit(50)]
pub proof fn law_host_of_a_url(
    scheme: Seq<char>,
    user: Seq<char>,
    host: Seq<char>,
    port: Seq<char>,
    tail: Seq<char>,
)
    requires
        scheme == "http://"@ || scheme == "https://"@,
        user.len() == 0 || user.last() == '@',
        forall|i: int| 0 <= i < user.len() ==> !seq!['/', '\\', '?', '#'].contains(#[trigger] user[i]),
        host.len() > 0,
        !host.contains('@'),
        forall|i: int| 0 <= i < host.len() ==> !seq!['/', '\\', '?', '#'].contains(#[trigger] host[i]),
        (host.first() != '[' && !host.contains(':')) || (host.first() == '[' && host.last() == ']'
            && !host.drop_last().contains(']')),
        port.len() > 0 ==> port.first() == ':',
        !port.contains('@'),
        forall|i: int| 0 <= i < port.len() ==> !seq!['/', '\\', '?', '#'].contains(#[trigger] port[i]),
        tail.len() > 0 ==> seq!['/', '\\', '?', '#'].contains(tail.first()),
    ensures
        host_text(scheme + user + host + port + tail) == Some(host),
{
    reveal_strlit("https://");
    reveal_strlit("http://");
    assert(authority_marks() == seq!['/', '\\', '?', '#']);
    let url = scheme + user + host + port + tail;
    let k = scheme.len() as int;
    let authority = user + host + port;
    let rest = authority + tail;
    assert(url.skip(k) == rest);
    assert(scheme_len(url) == k) by {
        assert(url.subrange(0, k) == scheme);
        if scheme == "http://"@ && "https://"@.is_prefix_of(url) {
            assert(url.subrange(0, 8)[4] == 's');
            assert(url[4] == scheme[4]);
        }
    }
    let n = authority.len() as int;
    assert forall|i: int| 0 <= i < n implies !authority_marks().contains(#[trigger] rest[i]) by {
        if i < user.len() {
            assert(rest[i] == user[i]);
        } else if i < user.len() + host.len() {
            assert(rest[i] == host[i - user.len()]);
        } else {
            assert(rest[i] == port[i - user.len() - host.len()]);
        }
    }
    if tail.len() > 0 {
        assert(rest[n] == tail.first());
    }
    lemma_find_any_unique(rest, authority_marks(), n);
    assert(rest.take(n) == authority);
    let site = host + port;
    assert(!site.contains('@')) by {
        if site.contains('@') {
            let i = choose|i: int| 0 <= i < site.len() && site[i] == '@';
            if i < host.len() {
                assert(host[i] == '@');
            } else {
                assert(port[i - host.len()] == '@');
            }
        }
    }
    assert(authority == user + site);
    lemma_after_last_is(user, site, '@');
    lemma_host_and_port(host, port);
}

proof fn lemma_host_and_port(host: Seq<char>, port: Seq<char>)
    requires
        host.len() > 0,
        (host.first() != '[' && !host.contains(':')) || (host.first() == '[' && host.last() == ']'
            && !host.drop_last().contains(']')),
        port.len() > 0 ==> port.first() == ':',
    ensures
        without_port(host + port) == host,
{
    let site = host + port;
    let n = host.len() as int;
    let bracket = seq![']'];
    let colon = seq![':'];
    assert(bracket[0] == ']' && colon[0] == ':');
    if host.first() == '[' && host.last() == ']' && !host.drop_last().contains(']') {
        assert forall|i: int| 0 <= i < n - 1 implies !bracket.contains(#[trigger] site[i]) by {
            assert(site[i] == host.drop_last()[i]);
            assert(host.drop_last().contains(host.drop_last()[i]));
        }
        assert(site[n - 1] == ']');
        lemma_find_any_unique(site, bracket, n - 1);
        if port.len() > 0 {
            assert(site[n] == ':');
        }
        assert(site.take(n) == host);
    } else {
        assert(site[0] == host.first());
        assert forall|i: int| 0 <= i < n implies !colon.contains(#[trigger] site[i]) by {
            assert(site[i] == host[i]);
            assert(host.contains(host[i]));
        }
        if port.len() > 0 {
            assert(site[n] == ':');
        }
        lemma_find_any_unique(site, colon, n);
        assert(site.take(n) == host);
    }
}

/// An origin names no user: no `@` stands before its end or the backslash that ends its host.
pub proof fn law_origin_has_no_user(raw: Seq<char>)
    ensures
        origin_text(raw) matches Some(origin) ==> !origin.take(
            find_any(origin, seq!['\\']),
        ).contains('@'),
{
    reveal_strlit("https://");
    reveal_strlit("http://");
    let s = trimmed(raw);
    let k = scheme_len(s);
    let rest = s.skip(k);
    lemma_find_any(rest, path_marks());
    lemma_without_user(rest.take(find_any(rest, path_marks())));
    if let Some(origin) = origin_text(raw) {
        let slash = seq!['\\'];
        assert(slash[0] == '\\');
        let site = site_text(rest);
        let m = find_any(origin, slash);
        lemma_find_any(origin, slash);
        lemma_find_any(site, slash);
        let h = find_any(site, slash);
        let front = origin.take(m);
        if front.contains('@') {
            let i = choose|i: int| 0 <= i < front.len() && front[i] == '@';
            if i < k {
                assert(s.subrange(0, k)[i] == '@');
            } else {
                assert(origin[i] == site[i - k]);
                if h < site.len() {
                    assert(origin[k + h] == site[h]);
                    assert(slash.contains(origin[k + h]));
                }
                assert(site.take(h)[i - k] == '@');
            }
        }
    }
}

} // verus!
