//! Addresses written as text, and that every one of them is read back as itself.

use vstd::prelude::*;

use crate::ip::{
    all_digits, decimal, digit_value, group_text, groups_text, hex_number, hex_value, is_digit,
    is_dotted_char, law_brackets, lemma_hex_chars, lemma_pair_at, lemma_v4_chars, lemma_v6_chars,
    lemma_v6_has_colon, literal_octets, number, octet_text, pair_at, side_text, u32_text,
    v4_octets, v4_text, v6_text,
};
use crate::text::{
    joined, law_pieces_are_parted, law_split, law_split_is, lemma_find_any_unique, split,
};

verus! {

// ---- Numbers ----

/// The character of a decimal digit.
pub open spec fn digit_char(d: nat) -> char {
    (48 + d) as u8 as char
}

/// A number in decimal digits, without zeros in front.
pub open spec fn decimal_text(n: nat) -> Seq<char>
    decreases n,
{
    if n < 10 {
        seq![digit_char(n)]
    } else {
        decimal_text(n / 10).push(digit_char(n % 10))
    }
}

/// The character of a hexadecimal digit.
pub open spec fn hex_char(d: nat) -> char {
    if d < 10 {
        (48 + d) as u8 as char
    } else {
        (87 + d) as u8 as char
    }
}

/// A number in lower-case hexadecimal digits, without zeros in front.
pub open spec fn hex_digits(n: nat) -> Seq<char>
    decreases n,
{
    if n < 16 {
        seq![hex_char(n)]
    } else {
        hex_digits(n / 16).push(hex_char(n % 16))
    }
}

// ---- Addresses ----

/// A dotted address.
pub open spec fn dotted_text(o: Seq<u8>) -> Seq<char> {
    decimal_text(o[0] as nat) + seq!['.'] + (decimal_text(o[1] as nat) + seq!['.'] + (decimal_text(
        o[2] as nat,
    ) + seq!['.'] + decimal_text(o[3] as nat)))
}

/// Group `i` of sixteen octets.
pub open spec fn group_at(o: Seq<u8>, i: int) -> nat {
    (256 * o[2 * i] + o[2 * i + 1]) as nat
}

/// The groups from `a` up to `b`, with colons between them.
pub open spec fn groups_written(o: Seq<u8>, a: int, b: int) -> Seq<char>
    decreases b - a,
{
    if a >= b {
        seq![]
    } else if a + 1 == b {
        hex_digits(group_at(o, a))
    } else {
        hex_digits(group_at(o, a)) + seq![':'] + groups_written(o, a + 1, b)
    }
}

/// How many groups from `i` on are zero.
pub open spec fn zeros_from(o: Seq<u8>, i: int) -> nat
    decreases 8 - i,
{
    if 0 <= i < 8 && group_at(o, i) == 0 {
        1 + zeros_from(o, i + 1)
    } else {
        0
    }
}

/// Where the longest row of zero groups among those from `i` on begins; the first of equals.
pub open spec fn longest_zeros(o: Seq<u8>, i: int) -> int
    decreases 8 - i,
{
    if i >= 7 {
        i
    } else if zeros_from(o, i) >= zeros_from(o, longest_zeros(o, i + 1)) {
        i
    } else {
        longest_zeros(o, i + 1)
    }
}

/// A dotted address in the place that colon addresses have for them.
pub open spec fn is_mapped(o: Seq<u8>) -> bool {
    (forall|i: int| 0 <= i < 10 ==> o[i] == 0) && o[10] == 0xff && o[11] == 0xff
}

/// A colon address with the groups from `a` up to `b` left out.
pub open spec fn shortened(o: Seq<u8>, a: int, b: int) -> Seq<char> {
    groups_written(o, 0, a) + seq![':', ':'] + groups_written(o, b, 8)
}

/// A colon address: the longest row of two or more zero groups is left out, and a mapped dotted
/// address is written with dots.
pub open spec fn colon_text(o: Seq<u8>) -> Seq<char> {
    let start = longest_zeros(o, 0);
    let len = zeros_from(o, start);
    if is_mapped(o) {
        seq![':', ':', 'f', 'f', 'f', 'f', ':'] + dotted_text(o.skip(12))
    } else if len >= 2 {
        shortened(o, start, start + len)
    } else {
        groups_written(o, 0, 8)
    }
}

/// An address as text, by its four or sixteen octets.
pub open spec fn address_text(o: Seq<u8>) -> Seq<char> {
    if o.len() == 4 {
        dotted_text(o)
    } else {
        colon_text(o)
    }
}

// ---- Laws ----

/// Every address is read back from its text.
pub proof fn law_address_reads_back(o: Seq<u8>)
    requires
        o.len() == 4 || o.len() == 16,
    ensures
        literal_octets(address_text(o)) == Some(o),
{
    if o.len() == 4 {
        lemma_dotted(o);
    } else {
        let start = longest_zeros(o, 0);
        lemma_longest_zeros(o, 0);
        lemma_zeros_from(o, start);
        if is_mapped(o) {
            lemma_mapped(o);
        } else if zeros_from(o, start) >= 2 {
            lemma_shortened(o, start, start + zeros_from(o, start));
        } else {
            lemma_all_groups(o);
        }
        law_brackets(colon_text(o));
    }
}

/// Every colon address is read back whichever row of zero groups is left out, and also where none
/// is.
pub proof fn law_zeros_may_be_left_out(o: Seq<u8>, a: int, b: int)
    requires
        o.len() == 16,
        0 <= a < b <= 8,
        forall|i: int| a <= i < b ==> #[trigger] group_at(o, i) == 0,
    ensures
        literal_octets(shortened(o, a, b)) == Some(o),
        literal_octets(groups_written(o, 0, 8)) == Some(o),
{
    lemma_shortened(o, a, b);
    law_brackets(shortened(o, a, b));
    lemma_all_groups(o);
    law_brackets(groups_written(o, 0, 8));
}

/// Every number below 2^32 in decimal is read as the dotted address with that number, and no
/// larger one is read as an address.
pub proof fn law_number_is_an_address(n: nat)
    ensures
        n <= u32::MAX ==> literal_octets(decimal_text(n)) == Some(v4_octets(n as u32)),
        n > u32::MAX ==> literal_octets(decimal_text(n)) is None,
{
    let s = decimal_text(n);
    lemma_decimal_text(n);
    assert(is_digit(s[0]));
    assert forall|i: int| 0 <= i < s.len() implies s[i] != '.' by {
        assert(is_digit(s[i]));
    }
    lemma_split_none(s, '.');
    if v6_text(s) is Some {
        lemma_v6_has_colon(s);
        let i = choose|i: int| 0 <= i < s.len() && s[i] == ':';
        assert(is_digit(s[i]));
    }
}

/// A number below 2^32 is read from its decimal digits with any zeros before them and with or
/// without a plus sign, and is what is read; a larger one is not read.
pub proof fn law_number_reads_back(n: nat, zeros: nat)
    ensures
        ({
            let digits = zeros_text(zeros) + decimal_text(n);
            &&& n <= u32::MAX ==> u32_text(digits) == Some(n as u32) && u32_text(seq!['+'] + digits)
                == Some(n as u32)
            &&& n > u32::MAX ==> u32_text(digits) is None && u32_text(seq!['+'] + digits) is None
        }),
{
    let digits = zeros_text(zeros) + decimal_text(n);
    lemma_decimal_text(n);
    lemma_leading_zeros(zeros, decimal_text(n));
    assert forall|i: int| 0 <= i < digits.len() implies is_digit(#[trigger] digits[i]) by {
        if i >= zeros {
            assert(digits[i] == decimal_text(n)[i - zeros]);
        }
    }
    assert(is_digit(digits[0]));
    assert((seq!['+'] + digits).drop_first() == digits);
}

/// What is read as a number is written with its decimal digits, zeros before them, and possibly a
/// plus sign, and with nothing else.
pub proof fn law_only_numbers_are_read(s: Seq<char>)
    ensures
        u32_text(s) matches Some(n) ==> exists|zeros: nat|
            s == #[trigger] zeros_text(zeros) + decimal_text(n as nat) || s == seq!['+'] + (
            zeros_text(zeros) + decimal_text(n as nat)),
{
    if let Some(n) = u32_text(s) {
        let d = if s.len() > 0 && s[0] == '+' {
            s.drop_first()
        } else {
            s
        };
        lemma_digits_are_decimal(d);
        let zeros = choose|zeros: nat| d == #[trigger] zeros_text(zeros) + decimal_text(decimal(d));
        assert(d == zeros_text(zeros) + decimal_text(n as nat));
        if s.len() > 0 && s[0] == '+' {
            assert(s == seq!['+'] + d);
        }
    }
}

/// That many zeros.
pub open spec fn zeros_text(n: nat) -> Seq<char> {
    Seq::new(n, |i: int| '0')
}

proof fn lemma_leading_zeros(zeros: nat, s: Seq<char>)
    ensures
        decimal(zeros_text(zeros) + s) == decimal(s),
    decreases s.len(), zeros,
{
    let all = zeros_text(zeros) + s;
    if s.len() > 0 {
        assert(all.drop_last() == zeros_text(zeros) + s.drop_last());
        assert(all.last() == s.last());
        lemma_leading_zeros(zeros, s.drop_last());
    } else if zeros > 0 {
        assert(all.drop_last() == zeros_text((zeros - 1) as nat) + s);
        assert(all.last() == '0');
        lemma_leading_zeros((zeros - 1) as nat, s);
    } else {
        assert(all == s);
    }
}

proof fn lemma_digits_are_decimal(d: Seq<char>)
    requires
        d.len() > 0,
        all_digits(d),
    ensures
        exists|zeros: nat| d == #[trigger] zeros_text(zeros) + decimal_text(decimal(d)),
    decreases d.len(),
{
    let front = d.drop_last();
    let v = digit_value(d.last());
    assert(is_digit(d[d.len() - 1]));
    assert(digit_char(v) == d.last());
    if front.len() == 0 {
        assert(decimal(front) == 0);
        assert(decimal(d) == v);
        assert(d == zeros_text(0) + decimal_text(v));
    } else {
        assert forall|i: int| 0 <= i < front.len() implies is_digit(#[trigger] front[i]) by {
            assert(front[i] == d[i]);
        }
        lemma_digits_are_decimal(front);
        let m = decimal(front);
        let z = choose|z: nat| front == #[trigger] zeros_text(z) + decimal_text(m);
        let n = decimal(d);
        assert(n == 10 * m + v);
        if m == 0 {
            assert(decimal_text(0) == seq!['0']);
            assert(n < 10);
            assert(decimal_text(n) == seq![d.last()]);
            assert(d == front.push(d.last()));
            assert(zeros_text(z) + seq!['0'] == zeros_text(z + 1));
            assert(front == zeros_text(z + 1));
            assert(d == zeros_text(z + 1) + decimal_text(n));
        } else {
            assert(n / 10 == m && n % 10 == v);
            assert(decimal_text(n) == decimal_text(m).push(d.last()));
            assert(d == front.push(d.last()));
            assert(front.push(d.last()) == zeros_text(z) + decimal_text(m).push(d.last()));
            assert(d == zeros_text(z) + decimal_text(n));
        }
    }
}

/// The four octets of a number write that number.
pub proof fn law_octets_of_a_number(n: u32)
    ensures
        v4_octets(n).len() == 4,
        number(v4_octets(n)) == n,
{
    let o = v4_octets(n);
    assert(o.drop_last() == seq![o[0], o[1], o[2]]);
    assert(o.drop_last().drop_last() == seq![o[0], o[1]]);
    assert(o.drop_last().drop_last().drop_last() == seq![o[0]]);
    assert(o.drop_last().drop_last().drop_last().drop_last() == Seq::<u8>::empty());
    reveal_with_fuel(number, 5);
    assert(number(o) == 256 * (256 * (256 * o[0] + o[1]) + o[2]) + o[3]);
}

/// A text is read as a dotted address exactly where it is the four numbers in decimal with dots
/// between them.
#[verifier::rlimit(50)]
pub proof fn law_dotted_addresses(s: Seq<char>, o: Seq<u8>)
    ensures
        v4_text(s) == Some(o) <==> o.len() == 4 && s == dotted_text(o),
{
    if o.len() == 4 && s == dotted_text(o) {
        lemma_dotted(o);
    }
    if v4_text(s) == Some(o) {
        let p = split(s, '.');
        law_split(s, '.');
        assert(p == seq![p[0], p[1], p[2], p[3]]);
        lemma_octet_is_decimal(p[0], o[0]);
        lemma_octet_is_decimal(p[1], o[1]);
        lemma_octet_is_decimal(p[2], o[2]);
        lemma_octet_is_decimal(p[3], o[3]);
        let q = p.drop_first();
        let r = q.drop_first();
        let t = r.drop_first();
        assert(joined(t, '.') == p[3]);
        assert(joined(r, '.') == p[2] + seq!['.'] + p[3]);
        assert(joined(q, '.') == p[1] + seq!['.'] + (p[2] + seq!['.'] + p[3]));
    }
}

proof fn lemma_octet_is_decimal(s: Seq<char>, n: u8)
    requires
        octet_text(s) == Some(n),
    ensures
        s == decimal_text(n as nat),
{
    lemma_digits_are_decimal(s);
    let zeros = choose|zeros: nat| s == #[trigger] zeros_text(zeros) + decimal_text(decimal(s));
    lemma_decimal_text(n as nat);
    if zeros > 0 {
        assert(s[0] == '0');
        assert(s.len() > 1);
    } else {
        assert(s == decimal_text(n as nat));
    }
}

/// Every text that is read as a number is read as the dotted address with that number.
pub proof fn law_every_number_is_an_address(host: Seq<char>, n: u32)
    requires
        u32_text(host) == Some(n),
    ensures
        literal_octets(host) == Some(v4_octets(n)),
{
    let d = if host[0] == '+' {
        host.drop_first()
    } else {
        host
    };
    assert forall|i: int| 0 <= i < host.len() implies host[i] != '.' && host[i] != ':' && host[i]
        != '[' by {
        if host[0] == '+' {
            if i > 0 {
                assert(is_digit(d[i - 1]));
            }
        } else {
            assert(is_digit(d[i]));
        }
    }
    lemma_split_none(host, '.');
    if v6_text(host) is Some {
        lemma_v6_has_colon(host);
    }
}

/// What a text gives that is read as an address: the four octets of a dotted address or of one
/// number, or sixteen octets.
pub proof fn law_kinds_of_addresses(host: Seq<char>)
    ensures
        literal_octets(host) matches Some(o) ==> {
            ||| o.len() == 4 && host == dotted_text(o)
            ||| o.len() == 4 && u32_text(host) == Some(number(o) as u32)
            ||| o.len() == 16 && (v6_text(host) == Some(o) || exists|inner: Seq<char>|
                v6_text(inner) == Some(o) && host == #[trigger] (seq!['['] + inner + seq![']']))
        },
{
    if let Some(o) = literal_octets(host) {
        if host.len() >= 2 && host.first() == '[' && host.last() == ']' {
            let inner = host.subrange(1, host.len() - 1);
            assert(host == seq!['['] + inner + seq![']']);
            assert(v6_text(inner) == Some(o));
        } else if v4_text(host) is Some {
            law_dotted_addresses(host, o);
        } else if v6_text(host) is Some {
        } else {
            law_octets_of_a_number(u32_text(host)->0);
        }
    }
}

/// The octets of groups given by their texts.
pub open spec fn octets_of(texts: Seq<Seq<char>>) -> Seq<u8>
    decreases texts.len(),
{
    if texts.len() == 0 {
        seq![]
    } else {
        seq![
            (hex_number(texts[0])->0 / 256) as u8,
            (hex_number(texts[0])->0 % 256) as u8,
        ] + octets_of(texts.drop_first())
    }
}

/// A text is one to four hexadecimal digits, in either case and with zeros in front or not.
pub open spec fn is_group(text: Seq<char>) -> bool {
    1 <= text.len() <= 4 && forall|i: int|
        0 <= i < text.len() ==> hex_value(#[trigger] text[i]) is Some
}

/// Groups of hexadecimal digits with colons between them are an address exactly where there are
/// eight of them.
pub proof fn law_eight_groups(texts: Seq<Seq<char>>)
    requires
        texts.len() > 0,
        forall|j: int| 0 <= j < texts.len() ==> is_group(#[trigger] texts[j]),
    ensures
        v6_text(joined(texts, ':')) == (if texts.len() == 8 {
            Some(octets_of(texts))
        } else {
            None
        }),
{
    let s = joined(texts, ':');
    lemma_joined_groups(texts);
    lemma_pair_is(s, s.len() as int);
    lemma_octets_of(texts, true);
    lemma_groups_have_no_colon(texts);
    law_split_is(texts, ':');
}

/// Groups on the two sides of a pair of colons are an address exactly where there are at most seven
/// of them: the ones before it, zeros, and the ones behind it.
#[verifier::rlimit(50)]
pub proof fn law_groups_around_a_pair(head: Seq<Seq<char>>, tail: Seq<Seq<char>>)
    requires
        forall|j: int| 0 <= j < head.len() ==> is_group(#[trigger] head[j]),
        forall|j: int| 0 <= j < tail.len() ==> is_group(#[trigger] tail[j]),
    ensures
        v6_text(joined(head, ':') + seq![':', ':'] + joined(tail, ':')) == (if head.len() + tail.len()
            <= 7 {
            Some(
                octets_of(head) + Seq::new(
                    (16 - 2 * head.len() - 2 * tail.len()) as nat,
                    |i: int| 0u8,
                ) + octets_of(tail),
            )
        } else {
            None
        }),
{
    let x = joined(head, ':');
    let y = joined(tail, ':');
    let s = x + seq![':', ':'] + y;
    let k = x.len() as int;
    if head.len() > 0 {
        lemma_joined_groups(head);
        lemma_groups_have_no_colon(head);
        law_split_is(head, ':');
    }
    if tail.len() > 0 {
        lemma_joined_groups(tail);
        lemma_groups_have_no_colon(tail);
        law_split_is(tail, ':');
    }
    assert(s[k] == ':' && s[k + 1] == ':');
    assert forall|i: int| 0 <= i < k && i + 1 < s.len() implies !(#[trigger] s[i] == ':' && s[i + 1]
        == ':') by {
        assert(s[i] == x[i]);
        if i + 1 < k {
            assert(s[i + 1] == x[i + 1]);
        } else {
            assert(x.last() != ':');
        }
    }
    lemma_pair_is(s, k);
    assert(s.take(k) == x);
    assert(s.skip(k + 2) == y);
    lemma_octets_of(head, false);
    lemma_octets_of(tail, true);
}

/// A dotted address may stand for the last two groups, with or without a pair of colons before it,
/// where as many groups are left for it.
#[verifier::rlimit(50)]
pub proof fn law_dotted_end(head: Seq<Seq<char>>, tail: Seq<Seq<char>>, o: Seq<u8>)
    requires
        forall|j: int| 0 <= j < head.len() ==> is_group(#[trigger] head[j]),
        forall|j: int| 0 <= j < tail.len() ==> is_group(#[trigger] tail[j]),
        o.len() == 4,
    ensures
        v6_text(joined(head, ':') + seq![':', ':'] + joined(tail.push(dotted_text(o)), ':')) == (
        if head.len() + tail.len() <= 5 {
            Some(
                octets_of(head) + Seq::new(
                    (12 - 2 * head.len() - 2 * tail.len()) as nat,
                    |i: int| 0u8,
                ) + (octets_of(tail) + o),
            )
        } else {
            None
        }),
{
    let d = dotted_text(o);
    let all = tail.push(d);
    let x = joined(head, ':');
    let y = joined(all, ':');
    let s = x + seq![':', ':'] + y;
    let k = x.len() as int;
    lemma_dotted(o);
    if head.len() > 0 {
        lemma_joined_groups(head);
        lemma_groups_have_no_colon(head);
        law_split_is(head, ':');
    }
    lemma_groups_have_no_colon(tail);
    assert forall|j: int| 0 <= j < all.len() implies !(#[trigger] all[j]).contains(':') by {
        if j < tail.len() {
            assert(all[j] == tail[j]);
        }
    }
    law_split_is(all, ':');
    assert(y.len() > 0) by {
        if y.len() == 0 {
            lemma_split_none(y, ':');
            assert(all[all.len() - 1] == d);
            assert(d.len() > 0);
        }
    }
    assert(s[k] == ':' && s[k + 1] == ':');
    assert forall|i: int| 0 <= i < k && i + 1 < s.len() implies !(#[trigger] s[i] == ':' && s[i + 1]
        == ':') by {
        assert(s[i] == x[i]);
        if i + 1 < k {
            assert(s[i + 1] == x[i + 1]);
        } else {
            assert(x.last() != ':');
        }
    }
    lemma_pair_is(s, k);
    assert(s.take(k) == x);
    assert(s.skip(k + 2) == y);
    lemma_octets_of(head, false);
    lemma_groups_then_dotted(tail, o);
    lemma_octets_of(tail, true);
}

/// Six groups and a dotted address are an address.
#[verifier::rlimit(50)]
pub proof fn law_six_groups_and_dots(texts: Seq<Seq<char>>, o: Seq<u8>)
    requires
        texts.len() > 0,
        forall|j: int| 0 <= j < texts.len() ==> is_group(#[trigger] texts[j]),
        o.len() == 4,
    ensures
        v6_text(joined(texts.push(dotted_text(o)), ':')) == (if texts.len() == 6 {
            Some(octets_of(texts) + o)
        } else {
            None
        }),
{
    let d = dotted_text(o);
    let all = texts.push(d);
    let s = joined(all, ':');
    lemma_dotted(o);
    lemma_groups_have_no_colon(texts);
    assert forall|j: int| 0 <= j < all.len() implies !(#[trigger] all[j]).contains(':') by {
        if j < texts.len() {
            assert(all[j] == texts[j]);
        }
    }
    law_split_is(all, ':');
    lemma_joined_nonempty(all);
    lemma_pair_is(s, s.len() as int);
    lemma_groups_then_dotted(texts, o);
    lemma_octets_of(texts, true);
}

/// In texts without colons that are not empty, joined with colons, no two colons stand together.
proof fn lemma_joined_nonempty(texts: Seq<Seq<char>>)
    requires
        texts.len() > 0,
        forall|j: int|
            0 <= j < texts.len() ==> (#[trigger] texts[j]).len() > 0 && !texts[j].contains(':'),
    ensures
        ({
            let s = joined(texts, ':');
            &&& s.len() > 0
            &&& s.first() != ':'
            &&& forall|i: int| 0 <= i < s.len() - 1 ==> !(#[trigger] s[i] == ':' && s[i + 1] == ':')
        }),
    decreases texts.len(),
{
    let s = joined(texts, ':');
    let x = texts[0];
    assert(x.len() > 0);
    assert forall|i: int| 0 <= i < x.len() implies x[i] != ':' by {
        assert(x.contains(x[i]));
    }
    if texts.len() > 1 {
        let rest = texts.drop_first();
        assert forall|j: int| 0 <= j < rest.len() implies (#[trigger] rest[j]).len() > 0
            && !rest[j].contains(':') by {
            assert(rest[j] == texts[j + 1]);
        }
        lemma_joined_nonempty(rest);
        let y = joined(rest, ':');
        let n = x.len() as int;
        assert(s == x + seq![':'] + y);
        assert(s.first() == x[0]);
        assert forall|i: int| 0 <= i < s.len() - 1 implies !(#[trigger] s[i] == ':' && s[i + 1]
            == ':') by {
            if i < n {
                assert(s[i] == x[i]);
            } else if i == n {
                assert(s[i + 1] == y[0]);
            } else {
                assert(s[i] == y[i - n - 1]);
                assert(s[i + 1] == y[i - n]);
            }
        }
    }
}

proof fn lemma_groups_then_dotted(texts: Seq<Seq<char>>, o: Seq<u8>)
    requires
        forall|j: int| 0 <= j < texts.len() ==> is_group(#[trigger] texts[j]),
        o.len() == 4,
    ensures
        groups_text(texts.push(dotted_text(o)), true) == Some(octets_of(texts) + o),
    decreases texts.len(),
{
    let all = texts.push(dotted_text(o));
    lemma_dotted(o);
    if texts.len() == 0 {
        assert(all[0] == dotted_text(o));
        assert(octets_of(texts) + o == o);
    } else {
        assert(is_group(texts[0]));
        assert(all[0] == texts[0]);
        lemma_hex_is_number(texts[0]);
        let rest = texts.drop_first();
        assert forall|j: int| 0 <= j < rest.len() implies is_group(#[trigger] rest[j]) by {
            assert(rest[j] == texts[j + 1]);
        }
        lemma_groups_then_dotted(rest, o);
        assert(all.drop_first() == rest.push(dotted_text(o)));
        assert(group_text(texts[0])->0 + (octets_of(rest) + o) == octets_of(texts) + o);
    }
}

proof fn lemma_groups_have_no_colon(texts: Seq<Seq<char>>)
    requires
        forall|j: int| 0 <= j < texts.len() ==> is_group(#[trigger] texts[j]),
    ensures
        forall|j: int| 0 <= j < texts.len() ==> !(#[trigger] texts[j]).contains(':'),
{
    assert forall|j: int| 0 <= j < texts.len() implies !(#[trigger] texts[j]).contains(':') by {
        assert(is_group(texts[j]));
        if texts[j].contains(':') {
            let i = choose|i: int| 0 <= i < texts[j].len() && texts[j][i] == ':';
            assert(hex_value(texts[j][i]) is Some);
        }
    }
}

proof fn lemma_hex_is_number(s: Seq<char>)
    requires
        forall|i: int| 0 <= i < s.len() ==> hex_value(#[trigger] s[i]) is Some,
    ensures
        hex_number(s) is Some,
    decreases s.len(),
{
    if s.len() > 0 {
        assert forall|i: int| 0 <= i < s.len() - 1 implies hex_value(
            #[trigger] s.drop_last()[i],
        ) is Some by {
            assert(s.drop_last()[i] == s[i]);
        }
        lemma_hex_is_number(s.drop_last());
        assert(hex_value(s[s.len() - 1]) is Some);
    }
}

proof fn lemma_octets_of(texts: Seq<Seq<char>>, dotted: bool)
    requires
        forall|j: int| 0 <= j < texts.len() ==> is_group(#[trigger] texts[j]),
    ensures
        groups_text(texts, dotted) == Some(octets_of(texts)),
        octets_of(texts).len() == 2 * texts.len(),
    decreases texts.len(),
{
    if texts.len() > 0 {
        assert(is_group(texts[0]));
        lemma_hex_is_number(texts[0]);
        let rest = texts.drop_first();
        assert forall|j: int| 0 <= j < rest.len() implies is_group(#[trigger] rest[j]) by {
            assert(rest[j] == texts[j + 1]);
        }
        lemma_octets_of(rest, dotted);
    }
}

/// In the text of groups no two colons stand together, and none at its ends.
proof fn lemma_joined_groups(texts: Seq<Seq<char>>)
    requires
        texts.len() > 0,
        forall|j: int| 0 <= j < texts.len() ==> is_group(#[trigger] texts[j]),
    ensures
        ({
            let s = joined(texts, ':');
            &&& s.len() > 0
            &&& s.first() != ':'
            &&& s.last() != ':'
            &&& forall|i: int| 0 <= i < s.len() - 1 ==> !(#[trigger] s[i] == ':' && s[i + 1] == ':')
        }),
    decreases texts.len(),
{
    let s = joined(texts, ':');
    let x = texts[0];
    assert(is_group(x));
    assert forall|i: int| 0 <= i < x.len() implies x[i] != ':' by {
        assert(hex_value(x[i]) is Some);
    }
    if texts.len() > 1 {
        let rest = texts.drop_first();
        assert forall|j: int| 0 <= j < rest.len() implies is_group(#[trigger] rest[j]) by {
            assert(rest[j] == texts[j + 1]);
        }
        lemma_joined_groups(rest);
        let y = joined(rest, ':');
        let n = x.len() as int;
        assert(s == x + seq![':'] + y);
        assert(s.first() == x[0]);
        assert(s.last() == y.last());
        assert forall|i: int| 0 <= i < s.len() - 1 implies !(#[trigger] s[i] == ':' && s[i + 1]
            == ':') by {
            if i < n {
                assert(s[i] == x[i]);
            } else if i == n {
                assert(s[i + 1] == y[0]);
            } else {
                assert(s[i] == y[i - n - 1]);
                assert(s[i + 1] == y[i - n]);
            }
        }
    }
}

/// What is read as a colon address has nothing between its colons but one to four hexadecimal digits,
/// nothing at all, or at its end a dotted address.
pub proof fn law_pieces_of_a_colon_address(s: Seq<char>, j: int)
    requires
        v6_text(s) is Some,
        0 <= j < split(s, ':').len(),
    ensures
        ({
            let piece = split(s, ':')[j];
            ||| piece.len() == 0
            ||| is_group(piece)
            ||| j == split(s, ':').len() - 1 && v4_text(piece) is Some
        }),
{
    let k = pair_at(s);
    lemma_pair_at(s);
    if k + 2 <= s.len() {
        let x = s.take(k);
        let y = s.skip(k + 2);
        let tail = seq![':'] + y;
        let nothing = Seq::<char>::empty();
        assert(s == x + seq![':'] + tail);
        law_pieces_are_parted(x, ':', tail);
        assert(tail == nothing + seq![':'] + y);
        law_pieces_are_parted(nothing, ':', y);
        lemma_split_none(nothing, ':');
        let p = split(x, ':');
        let q = split(y, ':');
        assert(split(s, ':') == p + (seq![nothing] + q));
        if j < p.len() {
            lemma_pieces_of_a_side(x, false, j);
        } else if j > p.len() {
            lemma_pieces_of_a_side(y, true, j - p.len() - 1);
        }
    } else {
        lemma_pieces_of_a_side(s, true, j);
    }
}

proof fn lemma_pieces_of_a_side(s: Seq<char>, dotted: bool, j: int)
    requires
        side_text(s, dotted) is Some,
        0 <= j < split(s, ':').len(),
    ensures
        ({
            let piece = split(s, ':')[j];
            ||| piece.len() == 0
            ||| is_group(piece)
            ||| dotted && j == split(s, ':').len() - 1 && v4_text(piece) is Some
        }),
{
    if s.len() == 0 {
        lemma_split_none(s, ':');
    } else {
        lemma_pieces_of_groups(split(s, ':'), dotted, j);
    }
}

proof fn lemma_pieces_of_groups(p: Seq<Seq<char>>, dotted: bool, j: int)
    requires
        groups_text(p, dotted) is Some,
        0 <= j < p.len(),
    ensures
        is_group(p[j]) || (dotted && j == p.len() - 1 && v4_text(p[j]) is Some),
    decreases p.len(),
{
    if group_text(p[0]) is Some {
        if j == 0 {
            lemma_hex_chars(p[0]);
        } else {
            lemma_pieces_of_groups(p.drop_first(), dotted, j - 1);
        }
    }
}

/// A hexadecimal digit is one in either case, and one more digit makes the number sixteen times as
/// large and adds its own value: `0` to `9` and then `a` to `f` are the values from 0 to 15.
pub proof fn law_hexadecimal(s: Seq<char>, v: nat, d: int)
    requires
        hex_number(s) == Some(v),
        0 <= d < 16,
    ensures
        hex_number(s.push("0123456789abcdef"@[d])) == Some((16 * v + d) as nat),
        hex_number(s.push("0123456789ABCDEF"@[d])) == Some((16 * v + d) as nat),
        hex_number(seq![]) == Some(0nat),
{
    reveal_strlit("0123456789abcdef");
    reveal_strlit("0123456789ABCDEF");
    let a = s.push("0123456789abcdef"@[d]);
    let b = s.push("0123456789ABCDEF"@[d]);
    assert(a.drop_last() == s && b.drop_last() == s);
    assert(hex_value(a.last()) == Some(d as nat));
    assert(hex_value(b.last()) == Some(d as nat));
}

/// A text with a character that no address has is no address: so a name with a letter after `f` is
/// none.
#[verifier::rlimit(50)]
pub proof fn law_names_are_no_addresses(host: Seq<char>, i: int)
    requires
        0 <= i < host.len(),
        hex_value(host[i]) is None,
        !seq!['.', ':', '[', ']', '+'].contains(host[i]),
    ensures
        literal_octets(host) is None,
{
    let marks = seq!['.', ':', '[', ']', '+'];
    assert(marks[0] == '.' && marks[1] == ':' && marks[2] == '[' && marks[3] == ']' && marks[4]
        == '+');
    assert(host[i] != '.' && host[i] != ':' && host[i] != '[' && host[i] != ']' && host[i] != '+');
    assert(!is_digit(host[i]));
    if host.len() >= 2 && host.first() == '[' && host.last() == ']' {
        let inner = host.subrange(1, host.len() - 1);
        if v6_text(inner) is Some {
            lemma_v6_chars(inner);
            assert(inner[i - 1] == host[i]);
        }
    } else {
        if v4_text(host) is Some {
            lemma_v4_chars(host);
        }
        if v6_text(host) is Some {
            lemma_v6_chars(host);
        }
        if u32_text(host) is Some {
            if host[0] == '+' {
                assert(is_digit(host.drop_first()[i - 1]));
            } else {
                assert(is_digit(host[i]));
            }
        }
    }
}

// ---- Splitting ----

proof fn lemma_split_none(s: Seq<char>, sep: char)
    requires
        forall|i: int| 0 <= i < s.len() ==> s[i] != sep,
    ensures
        split(s, sep) == seq![s],
{
    assert forall|i: int| 0 <= i < s.len() implies !seq![sep].contains(#[trigger] s[i]) by {
        assert(s[i] != sep);
    }
    lemma_find_any_unique(s, seq![sep], s.len() as int);
}

proof fn lemma_split_one(x: Seq<char>, y: Seq<char>, sep: char)
    requires
        forall|i: int| 0 <= i < x.len() ==> x[i] != sep,
    ensures
        split(x + seq![sep] + y, sep) == seq![x] + split(y, sep),
{
    let s = x + seq![sep] + y;
    let k = x.len() as int;
    assert forall|i: int| 0 <= i < k implies !seq![sep].contains(#[trigger] s[i]) by {
        assert(s[i] == x[i]);
    }
    assert(seq![sep][0] == sep);
    assert(s[k] == sep);
    assert(seq![sep].contains(s[k]));
    lemma_find_any_unique(s, seq![sep], k);
    assert(s.take(k) == x);
    assert(s.skip(k + 1) == y);
}

// ---- Proofs on numbers ----

proof fn lemma_decimal_text(n: nat)
    ensures
        decimal_text(n).len() >= 1,
        all_digits(decimal_text(n)),
        decimal(decimal_text(n)) == n,
        n > 0 ==> decimal_text(n)[0] != '0',
        n < 10 ==> decimal_text(n).len() == 1,
        n < 100 ==> decimal_text(n).len() <= 2,
        n < 1000 ==> decimal_text(n).len() <= 3,
    decreases n,
{
    let s = decimal_text(n);
    if n < 10 {
        assert(s.drop_last() == Seq::<char>::empty());
        assert(decimal(s.drop_last()) == 0);
        assert(digit_value(s.last()) == n);
    } else {
        lemma_decimal_text(n / 10);
        let front = decimal_text(n / 10);
        assert(s.drop_last() == front);
        assert(digit_value(s.last()) == n % 10);
        assert(s[0] == front[0]);
        assert forall|i: int| 0 <= i < s.len() implies is_digit(#[trigger] s[i]) by {
            if i < front.len() {
                assert(s[i] == front[i]);
            }
        }
    }
}

/// A number in decimal holds digits alone.
pub proof fn lemma_decimal_digits(n: nat)
    ensures
        forall|i: int|
            0 <= i < decimal_text(n).len() ==> '0' <= (#[trigger] decimal_text(n)[i]) <= '9',
{
    lemma_decimal_text(n);
    assert forall|i: int| 0 <= i < decimal_text(n).len() implies '0' <= (#[trigger] decimal_text(
        n,
    )[i]) <= '9' by {
        assert(is_digit(decimal_text(n)[i]));
    }
}

proof fn lemma_octet(n: u8)
    ensures
        octet_text(decimal_text(n as nat)) == Some(n),
        forall|i: int|
            0 <= i < decimal_text(n as nat).len() ==> is_digit(#[trigger] decimal_text(n as nat)[i]),
{
    lemma_decimal_text(n as nat);
}

proof fn lemma_hex_digits(n: nat)
    ensures
        hex_digits(n).len() >= 1,
        hex_number(hex_digits(n)) == Some(n),
        forall|i: int|
            0 <= i < hex_digits(n).len() ==> hex_value(#[trigger] hex_digits(n)[i]) is Some,
        n < 0x10 ==> hex_digits(n).len() == 1,
        n < 0x100 ==> hex_digits(n).len() <= 2,
        n < 0x1000 ==> hex_digits(n).len() <= 3,
        n < 0x1_0000 ==> hex_digits(n).len() <= 4,
    decreases n,
{
    let s = hex_digits(n);
    if n < 16 {
        assert(s.drop_last() == Seq::<char>::empty());
        assert(hex_number(s.drop_last()) == Some(0nat));
        assert(hex_value(s.last()) == Some(n));
    } else {
        lemma_hex_digits(n / 16);
        let front = hex_digits(n / 16);
        assert(s.drop_last() == front);
        assert(hex_value(s.last()) == Some(n % 16));
        assert forall|i: int| 0 <= i < s.len() implies hex_value(#[trigger] s[i]) is Some by {
            if i < front.len() {
                assert(s[i] == front[i]);
            }
        }
    }
}

/// The text of one group gives its two octets.
proof fn lemma_group(o: Seq<u8>, i: int)
    requires
        o.len() == 16,
        0 <= i < 8,
    ensures
        group_text(hex_digits(group_at(o, i))) == Some(seq![o[2 * i], o[2 * i + 1]]),
{
    let n = group_at(o, i);
    lemma_hex_digits(n);
    assert(n / 256 == o[2 * i] as nat && n % 256 == o[2 * i + 1] as nat) by (nonlinear_arith)
        requires
            n == 256 * o[2 * i] + o[2 * i + 1],
            o[2 * i + 1] < 256,
    ;
}

// ---- Proofs on dotted addresses ----

#[verifier::rlimit(50)]
proof fn lemma_dotted(o: Seq<u8>)
    requires
        o.len() == 4,
    ensures
        v4_text(dotted_text(o)) == Some(o),
        literal_octets(dotted_text(o)) == Some(o),
        hex_number(dotted_text(o)) is None,
        forall|i: int| 0 <= i < dotted_text(o).len() ==> dotted_text(o)[i] != ':',
{
    let a = decimal_text(o[0] as nat);
    let b = decimal_text(o[1] as nat);
    let c = decimal_text(o[2] as nat);
    let d = decimal_text(o[3] as nat);
    lemma_octet(o[0]);
    lemma_octet(o[1]);
    lemma_octet(o[2]);
    lemma_octet(o[3]);
    lemma_decimal_text(o[0] as nat);
    assert forall|i: int| 0 <= i < a.len() implies a[i] != '.' by {
        assert(is_digit(a[i]));
    }
    assert forall|i: int| 0 <= i < b.len() implies b[i] != '.' by {
        assert(is_digit(b[i]));
    }
    assert forall|i: int| 0 <= i < c.len() implies c[i] != '.' by {
        assert(is_digit(c[i]));
    }
    assert forall|i: int| 0 <= i < d.len() implies d[i] != '.' by {
        assert(is_digit(d[i]));
    }
    lemma_split_none(d, '.');
    lemma_split_one(c, d, '.');
    lemma_split_one(b, c + seq!['.'] + d, '.');
    lemma_split_one(a, b + seq!['.'] + (c + seq!['.'] + d), '.');
    let s = dotted_text(o);
    let p = split(s, '.');
    assert(p == seq![a, b, c, d]);
    assert(v4_text(s)->0 == o);
    assert(s[0] == a[0]);
    assert(is_digit(a[0]));
    lemma_v4_chars(s);
    assert(s[a.len() as int] == '.');
    if hex_number(s) is Some {
        lemma_hex_chars(s);
        assert(hex_value(s[a.len() as int]) is Some);
    }
    assert forall|i: int| 0 <= i < s.len() implies s[i] != ':' by {
        assert(is_dotted_char(s[i]));
    }
}

// ---- Proofs on colon addresses ----

/// The texts of the groups from `a` up to `b`.
spec fn group_texts(o: Seq<u8>, a: int, b: int) -> Seq<Seq<char>>
    decreases b - a,
{
    if a >= b {
        seq![]
    } else {
        seq![hex_digits(group_at(o, a))] + group_texts(o, a + 1, b)
    }
}

proof fn lemma_group_texts(o: Seq<u8>, a: int, b: int, dotted: bool)
    requires
        o.len() == 16,
        0 <= a <= b <= 8,
    ensures
        groups_text(group_texts(o, a, b), dotted) == Some(o.subrange(2 * a, 2 * b)),
    decreases b - a,
{
    let p = group_texts(o, a, b);
    if a < b {
        lemma_group_texts(o, a + 1, b, dotted);
        lemma_group(o, a);
        assert(p.drop_first() == group_texts(o, a + 1, b));
        assert(seq![o[2 * a], o[2 * a + 1]] + o.subrange(2 * (a + 1), 2 * b) == o.subrange(
            2 * a,
            2 * b,
        ));
    } else {
        assert(o.subrange(2 * a, 2 * b) == Seq::<u8>::empty());
    }
}

/// The text of groups: it is split into them, no two colons stand together in it, and none at
/// its ends.
proof fn lemma_groups_written(o: Seq<u8>, a: int, b: int)
    requires
        o.len() == 16,
        0 <= a < b <= 8,
    ensures
        ({
            let s = groups_written(o, a, b);
            &&& split(s, ':') == group_texts(o, a, b)
            &&& s.len() > 0
            &&& s.first() != ':'
            &&& s.last() != ':'
            &&& forall|i: int| 0 <= i < s.len() - 1 ==> !(#[trigger] s[i] == ':' && s[i + 1] == ':')
        }),
    decreases b - a,
{
    let s = groups_written(o, a, b);
    let x = hex_digits(group_at(o, a));
    lemma_hex_digits(group_at(o, a));
    assert forall|i: int| 0 <= i < x.len() implies x[i] != ':' by {
        assert(hex_value(x[i]) is Some);
    }
    if a + 1 == b {
        lemma_split_none(s, ':');
        assert(group_texts(o, a + 1, b) == Seq::<Seq<char>>::empty());
        assert(group_texts(o, a, b) == seq![x]);
        assert(s == x);
    } else {
        let y = groups_written(o, a + 1, b);
        lemma_groups_written(o, a + 1, b);
        lemma_split_one(x, y, ':');
        assert(s == x + seq![':'] + y);
        let n = x.len() as int;
        assert(s.first() == x[0]);
        assert(s.last() == y.last());
        assert forall|i: int| 0 <= i < s.len() - 1 implies !(#[trigger] s[i] == ':' && s[i + 1]
            == ':') by {
            if i < n {
                assert(s[i] == x[i]);
            } else if i == n {
                assert(s[i + 1] == y[0]);
            } else {
                assert(s[i] == y[i - n - 1]);
                assert(s[i + 1] == y[i - n]);
            }
        }
    }
}

/// The groups from `a` up to `b`, or none, are read from their text.
proof fn lemma_side(o: Seq<u8>, a: int, b: int, dotted: bool)
    requires
        o.len() == 16,
        0 <= a <= b <= 8,
    ensures
        side_text(groups_written(o, a, b), dotted) == Some(o.subrange(2 * a, 2 * b)),
{
    if a < b {
        lemma_groups_written(o, a, b);
        lemma_group_texts(o, a, b, dotted);
    } else {
        assert(o.subrange(2 * a, 2 * b) == Seq::<u8>::empty());
    }
}

/// The first pair of colons is where no pair stands before it.
proof fn lemma_pair_is(s: Seq<char>, k: int)
    requires
        0 <= k <= s.len(),
        k + 2 <= s.len() ==> s[k] == ':' && s[k + 1] == ':',
        k + 2 > s.len() ==> k == s.len(),
        forall|i: int| 0 <= i < k && i + 1 < s.len() ==> !(#[trigger] s[i] == ':' && s[i + 1] == ':'),
    ensures
        pair_at(s) == k,
    decreases s.len(),
{
    if s.len() > 0 && k > 0 {
        let t = s.drop_first();
        assert(s.len() >= 2 ==> !(s[0] == ':' && s[1] == ':'));
        assert forall|i: int| 0 <= i < k - 1 && i + 1 < t.len() implies !(#[trigger] t[i] == ':'
            && t[i + 1] == ':') by {
            assert(t[i] == s[i + 1]);
            assert(t[i + 1] == s[i + 2]);
        }
        lemma_pair_is(t, k - 1);
    }
}

/// Eight groups are read from their text.
proof fn lemma_all_groups(o: Seq<u8>)
    requires
        o.len() == 16,
    ensures
        v6_text(groups_written(o, 0, 8)) == Some(o),
{
    let s = groups_written(o, 0, 8);
    lemma_groups_written(o, 0, 8);
    lemma_pair_is(s, s.len() as int);
    lemma_side(o, 0, 8, true);
    assert(o.subrange(0, 16) == o);
}

/// An address is read from the text that leaves a row of zero groups out.
#[verifier::rlimit(50)]
proof fn lemma_shortened(o: Seq<u8>, a: int, b: int)
    requires
        o.len() == 16,
        0 <= a < b <= 8,
        forall|i: int| a <= i < b ==> #[trigger] group_at(o, i) == 0,
    ensures
        v6_text(shortened(o, a, b)) == Some(o),
{
    let x = groups_written(o, 0, a);
    let y = groups_written(o, b, 8);
    let s = shortened(o, a, b);
    let k = x.len() as int;
    if a > 0 {
        lemma_groups_written(o, 0, a);
    }
    assert(s[k] == ':' && s[k + 1] == ':');
    assert forall|i: int| 0 <= i < k && i + 1 < s.len() implies !(#[trigger] s[i] == ':' && s[i + 1]
        == ':') by {
        assert(s[i] == x[i]);
        if i + 1 < k {
            assert(s[i + 1] == x[i + 1]);
        } else {
            assert(x.last() != ':');
        }
    }
    lemma_pair_is(s, k);
    assert(s.take(k) == x);
    assert(s.skip(k + 2) == y);
    lemma_side(o, 0, a, false);
    lemma_side(o, b, 8, true);
    let head = o.subrange(0, 2 * a);
    let tail = o.subrange(2 * b, 16);
    let zeros = Seq::new((16 - head.len() - tail.len()) as nat, |i: int| 0u8);
    assert forall|i: int| 2 * a <= i < 2 * b implies o[i] == 0 by {
        assert(group_at(o, i / 2) == 0);
        assert(i == 2 * (i / 2) || i == 2 * (i / 2) + 1);
    }
    assert(head + zeros + tail == o);
}

proof fn lemma_four_f()
    ensures
        group_text(seq!['f', 'f', 'f', 'f']) == Some(seq![0xffu8, 0xff]),
{
    let f = seq!['f', 'f', 'f', 'f'];
    assert(f.drop_last() == seq!['f', 'f', 'f']);
    assert(seq!['f', 'f', 'f'].drop_last() == seq!['f', 'f']);
    assert(seq!['f', 'f'].drop_last() == seq!['f']);
    assert(seq!['f'].drop_last() == Seq::<char>::empty());
    assert(hex_number(Seq::<char>::empty()) == Some(0nat));
    assert(hex_number(seq!['f']) == Some(0xfnat));
    assert(hex_number(seq!['f', 'f']) == Some(0xffnat));
    assert(hex_number(seq!['f', 'f', 'f']) == Some(0xfffnat));
    assert(hex_number(f) == Some(0xffffnat));
}

/// A mapped dotted address is read from its text.
#[verifier::rlimit(50)]
proof fn lemma_mapped(o: Seq<u8>)
    requires
        o.len() == 16,
        is_mapped(o),
    ensures
        v6_text(colon_text(o)) == Some(o),
{
    let q = o.skip(12);
    let d = dotted_text(q);
    lemma_dotted(q);
    let s = colon_text(o);
    let f = seq!['f', 'f', 'f', 'f'];
    lemma_pair_is(s, 0);
    assert(s.take(0) == Seq::<char>::empty());
    let tail = s.skip(2);
    assert(tail == f + seq![':'] + d);
    lemma_split_one(f, d, ':');
    lemma_split_none(d, ':');
    let p = split(tail, ':');
    assert(p == seq![f, d]);
    lemma_four_f();
    assert(p.drop_first() == seq![d]);
    assert(group_text(d) is None);
    assert(groups_text(seq![d], true) == Some(q));
    assert(groups_text(p, true) == Some(seq![0xffu8, 0xff] + q));
    let zeros = Seq::new(10, |i: int| 0u8);
    assert(Seq::<u8>::empty() + zeros + (seq![0xffu8, 0xff] + q) == o);
}

proof fn lemma_zeros_from(o: Seq<u8>, i: int)
    requires
        0 <= i <= 8,
    ensures
        i + zeros_from(o, i) <= 8,
        forall|j: int| i <= j < i + zeros_from(o, i) ==> #[trigger] group_at(o, j) == 0,
    decreases 8 - i,
{
    if i < 8 && group_at(o, i) == 0 {
        lemma_zeros_from(o, i + 1);
    }
}

proof fn lemma_longest_zeros(o: Seq<u8>, i: int)
    requires
        0 <= i <= 7,
    ensures
        i <= longest_zeros(o, i) <= 7,
    decreases 8 - i,
{
    if i < 7 {
        lemma_longest_zeros(o, i + 1);
    }
}

} // verus!
