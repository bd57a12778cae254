//! IP addresses and networks: the text of an address, which addresses are not public,
//! and the networks that an operator lets the server reach.

use vstd::arithmetic::power2::pow2;
use vstd::prelude::*;
use vstd::slice::slice_subrange;

use crate::text::{
    chars_of, find_any, is_white, lemma_find_any, split, split_at_each, string_of, trim, trimmed,
};

verus! {

/// An IP address by its octets, most significant first.
#[derive(Clone, Copy)]
pub enum IpAddress {
    V4([u8; 4]),
    V6([u8; 16]),
}

impl IpAddress {
    /// The four or sixteen octets.
    pub open spec fn octets(self) -> Seq<u8> {
        match self {
            IpAddress::V4(o) => o@,
            IpAddress::V6(o) => o@,
        }
    }
}

/// A network: the addresses that share the first `prefix` bits of `addr`.
#[derive(Clone, Copy)]
pub struct Cidr {
    pub addr: IpAddress,
    pub prefix: u8,
}

impl Cidr {
    /// The prefix is no longer than the address.
    pub open spec fn wf(self) -> bool {
        self.prefix <= 8 * self.addr.octets().len()
    }
}

/// The networks of a list are all well formed.
pub open spec fn all_wf(nets: Seq<Cidr>) -> bool {
    forall|i: int| 0 <= i < nets.len() ==> (#[trigger] nets[i]).wf()
}

// ---- Numbers in text ----

/// A decimal digit.
pub open spec fn is_digit(c: char) -> bool {
    '0' <= c <= '9'
}

/// The value of a decimal digit.
pub open spec fn digit_value(c: char) -> nat {
    (c as nat - '0' as nat) as nat
}

/// There are decimal digits only.
pub open spec fn all_digits(s: Seq<char>) -> bool {
    forall|i: int| 0 <= i < s.len() ==> is_digit(#[trigger] s[i])
}

/// The number that a text of decimal digits writes.
pub open spec fn decimal(s: Seq<char>) -> nat
    decreases s.len(),
{
    if s.len() == 0 {
        0
    } else {
        10 * decimal(s.drop_last()) + digit_value(s.last())
    }
}

/// The number that a text writes with at least one decimal digit, after an optional plus
/// sign, where it is below 2^32.
pub open spec fn u32_text(s: Seq<char>) -> Option<u32> {
    let d = if s.len() > 0 && s[0] == '+' {
        s.drop_first()
    } else {
        s
    };
    if d.len() > 0 && all_digits(d) && decimal(d) <= u32::MAX {
        Some(decimal(d) as u32)
    } else {
        None
    }
}

/// The value of a hexadecimal digit in either case.
pub open spec fn hex_value(c: char) -> Option<nat> {
    if '0' <= c <= '9' {
        Some((c as nat - '0' as nat) as nat)
    } else if 'a' <= c <= 'f' {
        Some((c as nat - 'a' as nat + 10) as nat)
    } else if 'A' <= c <= 'F' {
        Some((c as nat - 'A' as nat + 10) as nat)
    } else {
        None
    }
}

/// The number that a text of hexadecimal digits writes.
pub open spec fn hex_number(s: Seq<char>) -> Option<nat>
    decreases s.len(),
{
    if s.len() == 0 {
        Some(0)
    } else {
        match (hex_number(s.drop_last()), hex_value(s.last())) {
            (Some(n), Some(d)) => Some(16 * n + d),
            _ => None,
        }
    }
}

// ---- Addresses in text ----

/// One part of a dotted address: one to three digits, no leading zero, at most 255.
pub open spec fn octet_text(s: Seq<char>) -> Option<u8> {
    if 1 <= s.len() <= 3 && all_digits(s) && (s.len() > 1 ==> s[0] != '0') && decimal(s) <= 255 {
        Some(decimal(s) as u8)
    } else {
        None
    }
}

/// A dotted address: four parts with a dot between them.
pub open spec fn v4_text(s: Seq<char>) -> Option<Seq<u8>> {
    let p = split(s, '.');
    if p.len() == 4 && octet_text(p[0]) is Some && octet_text(p[1]) is Some && octet_text(
        p[2],
    ) is Some && octet_text(p[3]) is Some {
        Some(
            seq![
                octet_text(p[0])->0,
                octet_text(p[1])->0,
                octet_text(p[2])->0,
                octet_text(p[3])->0,
            ],
        )
    } else {
        None
    }
}

/// One group of a colon address: one to four hexadecimal digits, as two octets.
pub open spec fn group_text(s: Seq<char>) -> Option<Seq<u8>> {
    if 1 <= s.len() <= 4 && hex_number(s) is Some {
        Some(seq![(hex_number(s)->0 / 256) as u8, (hex_number(s)->0 % 256) as u8])
    } else {
        None
    }
}

/// Groups one after the other; where `dotted` is set, the last may be a dotted address.
pub open spec fn groups_text(p: Seq<Seq<char>>, dotted: bool) -> Option<Seq<u8>>
    decreases p.len(),
{
    if p.len() == 0 {
        Some(seq![])
    } else if group_text(p[0]) is Some {
        match groups_text(p.drop_first(), dotted) {
            Some(rest) => Some(group_text(p[0])->0 + rest),
            None => None,
        }
    } else if dotted && p.len() == 1 {
        v4_text(p[0])
    } else {
        None
    }
}

/// Groups with a colon between them, or nothing.
pub open spec fn side_text(s: Seq<char>, dotted: bool) -> Option<Seq<u8>> {
    if s.len() == 0 {
        Some(seq![])
    } else {
        groups_text(split(s, ':'), dotted)
    }
}

/// The position of the first pair of colons, or the length.
pub open spec fn pair_at(s: Seq<char>) -> int
    decreases s.len(),
{
    if s.len() == 0 {
        0
    } else if s.len() >= 2 && s[0] == ':' && s[1] == ':' {
        0
    } else {
        1 + pair_at(s.drop_first())
    }
}

/// A colon address: eight groups, or fewer with one pair of colons for the zeros left out.
pub open spec fn v6_text(s: Seq<char>) -> Option<Seq<u8>> {
    let k = pair_at(s);
    if k + 2 <= s.len() {
        match (side_text(s.take(k), false), side_text(s.skip(k + 2), true)) {
            (Some(head), Some(tail)) => if head.len() + tail.len() <= 14 {
                Some(
                    head + Seq::new((16 - head.len() - tail.len()) as nat, |i: int| 0u8) + tail,
                )
            } else {
                None
            },
            _ => None,
        }
    } else {
        match side_text(s, true) {
            Some(all) => if all.len() == 16 {
                Some(all)
            } else {
                None
            },
            None => None,
        }
    }
}

/// The octets of a 32-bit number, most significant first.
pub open spec fn v4_octets(n: u32) -> Seq<u8> {
    seq![
        (n / 0x100_0000) as u8,
        ((n / 0x1_0000) % 256) as u8,
        ((n / 256) % 256) as u8,
        (n % 256) as u8,
    ]
}

/// The octets of the address that a host writes: a colon address with or without its
/// brackets, a dotted address, or a dotted address as one decimal number.
pub open spec fn literal_octets(host: Seq<char>) -> Option<Seq<u8>> {
    if host.len() >= 2 && host.first() == '[' && host.last() == ']' {
        v6_text(host.subrange(1, host.len() - 1))
    } else if v4_text(host) is Some {
        v4_text(host)
    } else if v6_text(host) is Some {
        v6_text(host)
    } else {
        match u32_text(host) {
            Some(n) => Some(v4_octets(n)),
            None => None,
        }
    }
}

// ---- Which addresses are not public ----

/// Private, loopback, link local, unspecified, broadcast, documentation, shared (100.64/10),
/// multicast or reserved.
pub open spec fn non_public_v4(o: Seq<u8>) -> bool {
    ||| o[0] == 10
    ||| o[0] == 172 && 16 <= o[1] <= 31
    ||| o[0] == 192 && o[1] == 168
    ||| o[0] == 127
    ||| o[0] == 169 && o[1] == 254
    ||| o[0] == 0 && o[1] == 0 && o[2] == 0 && o[3] == 0
    ||| o[0] == 192 && o[1] == 0 && o[2] == 2
    ||| o[0] == 198 && o[1] == 51 && o[2] == 100
    ||| o[0] == 203 && o[1] == 0 && o[2] == 113
    ||| o[0] == 100 && 64 <= o[1] <= 127
    ||| o[0] >= 224
}

/// Loopback, unspecified, link local (fe80::/10), unique local (fc00::/7) or multicast.
pub open spec fn non_public_v6(o: Seq<u8>) -> bool {
    ||| (forall|i: int| 0 <= i < 15 ==> o[i] == 0) && o[15] <= 1
    ||| o[0] == 0xfe && 0x80 <= o[1] <= 0xbf
    ||| o[0] == 0xfc
    ||| o[0] == 0xfd
    ||| o[0] == 0xff
}

/// The address is not a public one.
pub open spec fn non_public(octets: Seq<u8>) -> bool {
    if octets.len() == 4 {
        non_public_v4(octets)
    } else {
        non_public_v6(octets)
    }
}

// ---- Networks ----

/// The number that octets write, most significant first.
pub open spec fn number(octets: Seq<u8>) -> nat
    decreases octets.len(),
{
    if octets.len() == 0 {
        0
    } else {
        256 * number(octets.drop_last()) + octets.last() as nat
    }
}

/// The two octet sequences are of one family and agree in their first `prefix` bits.
pub open spec fn same_network(net: Seq<u8>, prefix: u8, octets: Seq<u8>) -> bool {
    &&& net.len() == octets.len()
    &&& number(net) / pow2((8 * net.len() - prefix) as nat) == number(octets) / pow2(
        (8 * net.len() - prefix) as nat,
    )
}

/// The address with these octets lies in one of the networks.
pub open spec fn in_any(nets: Seq<Cidr>, octets: Seq<u8>) -> bool {
    exists|i: int|
        0 <= i < nets.len() && same_network(
            (#[trigger] nets[i]).addr.octets(),
            nets[i].prefix,
            octets,
        )
}

/// What `ipnet` reads in the text of a network: the octets of the address and the prefix.
pub uninterp spec fn net_text(text: Seq<char>) -> Option<(Seq<u8>, u8)>;

/// The pieces of a comma-separated list, trimmed, without the empty ones.
pub open spec fn list_items(pieces: Seq<Seq<char>>) -> Seq<Seq<char>>
    decreases pieces.len(),
{
    if pieces.len() == 0 {
        seq![]
    } else {
        let rest = list_items(pieces.drop_last());
        let item = trimmed(pieces.last());
        if item.len() == 0 {
            rest
        } else {
            rest.push(item)
        }
    }
}

/// The networks among the items, in order; an item that is no network is passed over.
pub open spec fn nets_of(items: Seq<Seq<char>>) -> Seq<(Seq<u8>, u8)>
    decreases items.len(),
{
    if items.len() == 0 {
        seq![]
    } else {
        let rest = nets_of(items.drop_last());
        match net_text(items.last()) {
            Some(net) => rest.push(net),
            None => rest,
        }
    }
}

/// The octets of an address are those it is made of.
pub proof fn law_octets_of_an_address(four: [u8; 4], sixteen: [u8; 16])
    ensures
        IpAddress::V4(four).octets() == four@,
        IpAddress::V6(sixteen).octets() == sixteen@,
{
}

/// An address always lies in the network of any prefix length around itself.
pub proof fn law_network_of_itself(octets: Seq<u8>, prefix: u8)
    requires
        prefix <= 8 * octets.len(),
    ensures
        same_network(octets, prefix, octets),
{
}

/// No address lies in an empty list of networks.
pub proof fn law_no_nets_no_address(octets: Seq<u8>)
    ensures
        !in_any(seq![], octets),
{
}

/// A text without items configures no networks.
pub proof fn law_blank_list_is_empty(raw: Seq<char>)
    requires
        forall|i: int| 0 <= i < raw.len() ==> raw[i] == ',' || is_white(#[trigger] raw[i]),
    ensures
        nets_of(list_items(split(raw, ','))).len() == 0,
{
    lemma_blank_pieces(raw);
    lemma_no_items(split(raw, ','));
}

proof fn lemma_blank_pieces(raw: Seq<char>)
    requires
        forall|i: int| 0 <= i < raw.len() ==> raw[i] == ',' || is_white(#[trigger] raw[i]),
    ensures
        forall|j: int|
            0 <= j < split(raw, ',').len() ==> trimmed(
                #[trigger] split(raw, ',')[j],
            ).len() == 0,
    decreases raw.len(),
{
    let pieces = split(raw, ',');
    let k = find_any(raw, seq![',']);
    lemma_find_any(raw, seq![',']);
    let head = raw.take(k);
    assert forall|i: int| 0 <= i < head.len() implies is_white(#[trigger] head[i]) by {
        assert(head[i] == raw[i]);
        assert(!seq![','].contains(raw[i]));
        assert(seq![','][0] == ',');
    }
    lemma_white_is_trimmed(head);
    if k < raw.len() {
        let rest = raw.skip(k + 1);
        lemma_blank_pieces(rest);
        assert forall|j: int| 0 <= j < pieces.len() implies trimmed(
            #[trigger] pieces[j],
        ).len() == 0 by {
            if j > 0 {
                assert(pieces[j] == split(rest, ',')[j - 1]);
            }
        }
    } else {
        assert(head == raw);
    }
}

proof fn lemma_white_is_trimmed(s: Seq<char>)
    requires
        forall|i: int| 0 <= i < s.len() ==> is_white(#[trigger] s[i]),
    ensures
        trimmed(s).len() == 0,
    decreases s.len(),
{
    if s.len() > 0 {
        assert(is_white(s[0]));
        lemma_white_is_trimmed(s.drop_first());
    }
}

proof fn lemma_no_items(pieces: Seq<Seq<char>>)
    requires
        forall|j: int|
            0 <= j < pieces.len() ==> trimmed(#[trigger] pieces[j]).len() == 0,
    ensures
        list_items(pieces).len() == 0,
    decreases pieces.len(),
{
    if pieces.len() > 0 {
        assert(trimmed(pieces[pieces.len() - 1]).len() == 0);
        lemma_no_items(pieces.drop_last());
    }
}

/// The brackets around a colon address make no difference.
pub proof fn law_brackets(inner: Seq<char>)
    requires
        v6_text(inner) is Some,
    ensures
        literal_octets(seq!['['] + inner + seq![']']) == v6_text(inner),
        literal_octets(inner) == v6_text(inner),
{
    let b = seq!['['] + inner + seq![']'];
    assert(b.subrange(1, b.len() - 1) == inner);
    assert(b.last() == ']');
    lemma_v6_chars(inner);
    lemma_v6_has_colon(inner);
    let i = choose|i: int| 0 <= i < inner.len() && inner[i] == ':';
    assert(is_colon_char(inner[0]));
    if v4_text(inner) is Some {
        lemma_v4_chars(inner);
        assert(is_dotted_char(inner[i]));
    }
}

/// A digit or a dot.
pub open spec fn is_dotted_char(c: char) -> bool {
    is_digit(c) || c == '.'
}

/// A character of a colon address.
pub open spec fn is_colon_char(c: char) -> bool {
    hex_value(c) is Some || c == '.' || c == ':'
}

/// What holds of the separator and of every character of every piece holds of every character.
proof fn lemma_split_chars(s: Seq<char>, sep: char, ok: spec_fn(char) -> bool)
    requires
        ok(sep),
        forall|j: int, i: int|
            0 <= j < split(s, sep).len() && 0 <= i < split(
                s,
                sep,
            )[j].len() ==> ok(#[trigger] split(s, sep)[j][i]),
    ensures
        forall|i: int| 0 <= i < s.len() ==> ok(#[trigger] s[i]),
    decreases s.len(),
{
    let pieces = split(s, sep);
    let k = find_any(s, seq![sep]);
    lemma_find_any(s, seq![sep]);
    if k < s.len() {
        let rest = s.skip(k + 1);
        let tail = split(rest, sep);
        assert forall|j: int, i: int| 0 <= j < tail.len() && 0 <= i < tail[j].len() implies ok(
            #[trigger] tail[j][i],
        ) by {
            assert(tail[j] == pieces[j + 1]);
            assert(ok(pieces[j + 1][i]));
        }
        lemma_split_chars(rest, sep, ok);
        assert forall|i: int| 0 <= i < s.len() implies ok(#[trigger] s[i]) by {
            if i < k {
                assert(pieces[0][i] == s[i]);
            } else if i > k {
                assert(rest[i - k - 1] == s[i]);
            } else {
                assert(seq![sep].contains(s[k]));
            }
        }
    } else {
        assert forall|i: int| 0 <= i < s.len() implies ok(#[trigger] s[i]) by {
            assert(pieces[0][i] == s[i]);
        }
    }
}

/// A dotted address holds digits and dots alone.
pub proof fn lemma_v4_chars(s: Seq<char>)
    requires
        v4_text(s) is Some,
    ensures
        forall|i: int| 0 <= i < s.len() ==> is_dotted_char(#[trigger] s[i]),
{
    let p = split(s, '.');
    let ok = |c: char| is_dotted_char(c);
    assert forall|j: int, i: int| 0 <= j < p.len() && 0 <= i < p[j].len() implies ok(
        #[trigger] p[j][i],
    ) by {
        assert(octet_text(p[j]) is Some);
        assert(is_digit(p[j][i]));
    }
    lemma_split_chars(s, '.', ok);
    assert forall|i: int| 0 <= i < s.len() implies is_dotted_char(#[trigger] s[i]) by {
        assert(ok(s[i]));
    }
}

/// A hexadecimal number holds hexadecimal digits alone.
pub proof fn lemma_hex_chars(s: Seq<char>)
    requires
        hex_number(s) is Some,
    ensures
        forall|i: int| 0 <= i < s.len() ==> hex_value(#[trigger] s[i]) is Some,
    decreases s.len(),
{
    if s.len() > 0 {
        lemma_hex_chars(s.drop_last());
        assert forall|i: int| 0 <= i < s.len() implies hex_value(#[trigger] s[i]) is Some by {
            if i < s.len() - 1 {
                assert(s[i] == s.drop_last()[i]);
            }
        }
    }
}

proof fn lemma_groups_chars(p: Seq<Seq<char>>, dotted: bool)
    requires
        groups_text(p, dotted) is Some,
    ensures
        forall|j: int, i: int|
            0 <= j < p.len() && 0 <= i < p[j].len() ==> is_colon_char(#[trigger] p[j][i]),
    decreases p.len(),
{
    if p.len() > 0 {
        if group_text(p[0]) is Some {
            lemma_hex_chars(p[0]);
            lemma_groups_chars(p.drop_first(), dotted);
            assert forall|j: int, i: int| 0 <= j < p.len() && 0 <= i < p[j].len() implies
                is_colon_char(#[trigger] p[j][i]) by {
                if j > 0 {
                    assert(p.drop_first()[j - 1][i] == p[j][i]);
                }
            }
        } else {
            lemma_v4_chars(p[0]);
            assert forall|j: int, i: int| 0 <= j < p.len() && 0 <= i < p[j].len() implies
                is_colon_char(#[trigger] p[j][i]) by {
                assert(is_dotted_char(p[0][i]));
            }
        }
    }
}

proof fn lemma_side_chars(s: Seq<char>, dotted: bool)
    requires
        side_text(s, dotted) is Some,
    ensures
        forall|i: int| 0 <= i < s.len() ==> is_colon_char(#[trigger] s[i]),
{
    if s.len() > 0 {
        let ok = |c: char| is_colon_char(c);
        let p = split(s, ':');
        lemma_groups_chars(p, dotted);
        assert forall|j: int, i: int| 0 <= j < p.len() && 0 <= i < p[j].len() implies ok(
            #[trigger] p[j][i],
        ) by {
            assert(is_colon_char(p[j][i]));
        }
        lemma_split_chars(s, ':', ok);
        assert forall|i: int| 0 <= i < s.len() implies is_colon_char(#[trigger] s[i]) by {
            assert(ok(s[i]));
        }
    }
}

/// A colon address holds hexadecimal digits, dots and colons alone.
pub proof fn lemma_v6_chars(s: Seq<char>)
    requires
        v6_text(s) is Some,
    ensures
        forall|i: int| 0 <= i < s.len() ==> is_colon_char(#[trigger] s[i]),
{
    let k = pair_at(s);
    lemma_pair_at(s);
    if k + 2 <= s.len() {
        lemma_side_chars(s.take(k), false);
        lemma_side_chars(s.skip(k + 2), true);
        assert forall|i: int| 0 <= i < s.len() implies is_colon_char(#[trigger] s[i]) by {
            if i < k {
                assert(s.take(k)[i] == s[i]);
            } else if i >= k + 2 {
                assert(s.skip(k + 2)[i - k - 2] == s[i]);
            }
        }
    } else {
        lemma_side_chars(s, true);
    }
}

/// A colon address has a colon.
pub proof fn lemma_v6_has_colon(s: Seq<char>)
    requires
        v6_text(s) is Some,
    ensures
        exists|i: int| 0 <= i < s.len() && s[i] == ':',
{
    let k = pair_at(s);
    lemma_pair_at(s);
    if k + 2 <= s.len() {
        assert(s[k] == ':');
    } else {
        let m = find_any(s, seq![':']);
        lemma_find_any(s, seq![':']);
        if m < s.len() {
            assert(s[m] == ':');
        } else {
            let p = split(s, ':');
            assert(p == seq![s]);
            assert(p.drop_first() == Seq::<Seq<char>>::empty());
            reveal_with_fuel(groups_text, 2);
        }
    }
}

// ---- Reading ----

proof fn lemma_decimal_grows(s: Seq<char>, i: int)
    requires
        0 <= i <= s.len(),
    ensures
        decimal(s.take(i)) <= decimal(s),
    decreases s.len() - i,
{
    if i < s.len() {
        lemma_decimal_grows(s.drop_last(), i);
        assert(s.drop_last().take(i) == s.take(i));
    } else {
        assert(s.take(i) == s);
    }
}

/// The number of a text of decimal digits below 2^32, or `None`.
fn read_decimal(a: &[char]) -> (r: Option<u32>)
    ensures
        r == (if all_digits(a@) && decimal(a@) <= u32::MAX {
            Some(decimal(a@) as u32)
        } else {
            None::<u32>
        }),
{
    let mut value: u32 = 0;
    let mut i: usize = 0;
    while i < a.len()
        invariant
            i <= a@.len(),
            all_digits(a@.take(i as int)),
            value == decimal(a@.take(i as int)),
        decreases a@.len() - i,
    {
        let c: char = a[i];
        if !('0' <= c && c <= '9') {
            assert(!is_digit(a@[i as int]));
            return None;
        }
        let d: u64 = (c as u32 - '0' as u32) as u64;
        let next: u64 = 10 * (value as u64) + d;
        assert(a@.take(i as int + 1).drop_last() == a@.take(i as int));
        assert(next == decimal(a@.take(i as int + 1)));
        if next > 0xffff_ffff {
            proof {
                lemma_decimal_grows(a@, i as int + 1);
            }
            return None;
        }
        value = next as u32;
        i = i + 1;
    }
    assert(a@.take(i as int) == a@);
    Some(value)
}

/// The number that a text writes with an optional plus sign, where it is below 2^32.
pub fn parse_u32(a: &[char]) -> (r: Option<u32>)
    ensures
        r == u32_text(a@),
{
    if a.len() > 0 && a[0] == '+' {
        let rest = slice_subrange(a, 1, a.len());
        assert(rest@ == a@.drop_first());
        if rest.len() == 0 {
            return None;
        }
        read_decimal(rest)
    } else {
        if a.len() == 0 {
            return None;
        }
        read_decimal(a)
    }
}

fn parse_octet(a: &[char]) -> (r: Option<u8>)
    ensures
        r == octet_text(a@),
{
    if a.len() == 0 || a.len() > 3 || (a.len() > 1 && a[0] == '0') {
        return None;
    }
    match read_decimal(a) {
        Some(n) => if n <= 255 {
            Some(n as u8)
        } else {
            None
        },
        None => {
            proof {
                if all_digits(a@) {
                    reveal_with_fuel(decimal, 4);
                    assert(decimal(a@) <= 999);
                }
            }
            None
        },
    }
}

/// The octets of a dotted address.
fn parse_v4(a: &[char]) -> (r: Option<[u8; 4]>)
    ensures
        r is Some == v4_text(a@) is Some,
        r matches Some(o) ==> v4_text(a@) == Some(o@),
{
    let p = split_at_each(a, '.');
    if p.len() != 4 {
        return None;
    }
    assert(p@[0]@ == split(a@, '.')[0]);
    assert(p@[1]@ == split(a@, '.')[1]);
    assert(p@[2]@ == split(a@, '.')[2]);
    assert(p@[3]@ == split(a@, '.')[3]);
    match (
        parse_octet(p[0].as_slice()),
        parse_octet(p[1].as_slice()),
        parse_octet(p[2].as_slice()),
        parse_octet(p[3].as_slice()),
    ) {
        (Some(w), Some(x), Some(y), Some(z)) => {
            let out: [u8; 4] = [w, x, y, z];
            assert(out@ == seq![w, x, y, z]);
            Some(out)
        },
        _ => None,
    }
}

fn read_hex_digit(c: char) -> (r: Option<u32>)
    ensures
        r is Some == hex_value(c) is Some,
        r matches Some(d) ==> hex_value(c) == Some(d as nat) && d < 16,
{
    if '0' <= c && c <= '9' {
        Some(c as u32 - '0' as u32)
    } else if 'a' <= c && c <= 'f' {
        Some(c as u32 - 'a' as u32 + 10)
    } else if 'A' <= c && c <= 'F' {
        Some(c as u32 - 'A' as u32 + 10)
    } else {
        None
    }
}

proof fn lemma_hex_number_prefix(s: Seq<char>, i: int)
    requires
        0 <= i <= s.len(),
        hex_number(s.take(i)) is None,
    ensures
        hex_number(s) is None,
    decreases s.len() - i,
{
    if i < s.len() {
        assert(s.drop_last().take(i) == s.take(i));
        lemma_hex_number_prefix(s.drop_last(), i);
    } else {
        assert(s.take(i) == s);
    }
}

/// The two octets of a group.
fn parse_group(a: &[char]) -> (r: Option<(u8, u8)>)
    ensures
        r is Some == group_text(a@) is Some,
        r matches Some(g) ==> group_text(a@) == Some(seq![g.0, g.1]),
{
    if a.len() == 0 || a.len() > 4 {
        return None;
    }
    let mut value: u32 = 0;
    let mut bound: u32 = 1;
    let mut i: usize = 0;
    while i < a.len()
        invariant
            i <= a@.len() <= 4,
            hex_number(a@.take(i as int)) == Some(value as nat),
            value < bound,
            bound == (if i == 0 {
                1u32
            } else if i == 1 {
                16
            } else if i == 2 {
                256
            } else if i == 3 {
                4096
            } else {
                65536
            }),
        decreases a@.len() - i,
    {
        assert(a@.take(i as int + 1).drop_last() == a@.take(i as int));
        match read_hex_digit(a[i]) {
            Some(d) => {
                value = 16 * value + d;
                bound = 16 * bound;
            },
            None => {
                proof {
                    lemma_hex_number_prefix(a@, i as int + 1);
                }
                return None;
            },
        }
        i = i + 1;
    }
    assert(a@.take(i as int) == a@);
    Some(((value / 256) as u8, (value % 256) as u8))
}

/// The octets of groups one after the other.
fn parse_groups(p: &Vec<Vec<char>>, dotted: bool) -> (r: Option<Vec<u8>>)
    ensures
        ({
            let texts = Seq::new(p@.len(), |i: int| p@[i]@);
            &&& r is Some == groups_text(texts, dotted) is Some
            &&& r matches Some(o) ==> groups_text(texts, dotted) == Some(o@)
        }),
{
    let ghost texts = Seq::new(p@.len(), |i: int| p@[i]@);
    let mut out: Vec<u8> = Vec::new();
    let mut i: usize = 0;
    assert(texts.skip(0) == texts);
    proof {
        if groups_text(texts, dotted) is Some {
            assert(out@ + groups_text(texts, dotted)->0 == groups_text(texts, dotted)->0);
        }
    }
    while i < p.len()
        invariant
            i <= p@.len(),
            texts == Seq::new(p@.len(), |i: int| p@[i]@),
            groups_text(texts, dotted) is Some == groups_text(texts.skip(i as int), dotted) is Some,
            groups_text(texts.skip(i as int), dotted) matches Some(rest) ==> groups_text(
                texts,
                dotted,
            ) == Some(out@ + rest),
        decreases p@.len() - i,
    {
        let ghost rest = texts.skip(i as int);
        assert(rest[0] == p@[i as int]@);
        assert(rest.drop_first() == texts.skip(i as int + 1));
        match parse_group(p[i].as_slice()) {
            Some(g) => {
                let ghost before = out@;
                out.push(g.0);
                out.push(g.1);
                proof {
                    if groups_text(rest.drop_first(), dotted) is Some {
                        let t = groups_text(rest.drop_first(), dotted)->0;
                        assert(before + (seq![g.0, g.1] + t) == out@ + t);
                    }
                }
            },
            None => {
                if dotted && i + 1 == p.len() {
                    match parse_v4(p[i].as_slice()) {
                        Some(o) => {
                            let ghost before = out@;
                            out.push(o[0]);
                            out.push(o[1]);
                            out.push(o[2]);
                            out.push(o[3]);
                            assert(out@ == before + o@);
                            return Some(out);
                        },
                        None => {
                            return None;
                        },
                    }
                }
                return None;
            },
        }
        i = i + 1;
    }
    assert(texts.skip(i as int) == Seq::<Seq<char>>::empty());
    assert(groups_text(texts.skip(i as int), dotted) == Some(Seq::<u8>::empty()));
    assert(out@ + Seq::<u8>::empty() == out@);
    Some(out)
}

fn parse_side(a: &[char], dotted: bool) -> (r: Option<Vec<u8>>)
    ensures
        r is Some == side_text(a@, dotted) is Some,
        r matches Some(o) ==> side_text(a@, dotted) == Some(o@),
{
    if a.len() == 0 {
        let out: Vec<u8> = Vec::new();
        assert(out@ == Seq::<u8>::empty());
        return Some(out);
    }
    let p = split_at_each(a, ':');
    assert(Seq::new(p@.len(), |i: int| p@[i]@) == split(a@, ':'));
    parse_groups(&p, dotted)
}

/// The first pair of colons is one.
pub proof fn lemma_pair_at(s: Seq<char>)
    ensures
        0 <= pair_at(s) <= s.len(),
        pair_at(s) + 2 <= s.len() ==> s[pair_at(s)] == ':' && s[pair_at(s) + 1] == ':',
    decreases s.len(),
{
    if s.len() > 0 && !(s.len() >= 2 && s[0] == ':' && s[1] == ':') {
        lemma_pair_at(s.drop_first());
    }
}

fn find_pair(a: &[char]) -> (r: usize)
    ensures
        r as int == pair_at(a@),
        r <= a@.len(),
{
    let mut i: usize = 0;
    assert(a@.skip(0) == a@);
    while i < a.len()
        invariant
            i <= a@.len(),
            pair_at(a@) == i + pair_at(a@.skip(i as int)),
        decreases a@.len() - i,
    {
        let ghost rest = a@.skip(i as int);
        if a.len() - i >= 2 && a[i] == ':' && a[i + 1] == ':' {
            return i;
        }
        assert(rest.drop_first() == a@.skip(i as int + 1));
        i = i + 1;
    }
    i
}

/// The octets of a colon address.
fn parse_v6(a: &[char]) -> (r: Option<[u8; 16]>)
    ensures
        r is Some == v6_text(a@) is Some,
        r matches Some(o) ==> v6_text(a@) == Some(o@),
{
    let k: usize = find_pair(a);
    if a.len() - k >= 2 {
        let front = slice_subrange(a, 0, k);
        let back = slice_subrange(a, k + 2, a.len());
        assert(front@ == a@.take(k as int));
        assert(back@ == a@.skip(k + 2));
        match (parse_side(front, false), parse_side(back, true)) {
            (Some(head), Some(tail)) => {
                if head.len() > 14 || tail.len() > 14 - head.len() {
                    return None;
                }
                let mut all: Vec<u8> = head;
                while all.len() < 16 - tail.len()
                    invariant
                        tail@.len() <= 14,
                        head@.len() <= all@.len() <= 16 - tail@.len(),
                        all@ == head@ + Seq::new((all@.len() - head@.len()) as nat, |i: int| 0u8),
                    decreases 16 - all@.len(),
                {
                    all.push(0);
                    assert(all@ == head@ + Seq::new((all@.len() - head@.len()) as nat, |i: int| 0u8));
                }
                let mut i: usize = 0;
                let ghost stem = all@;
                while i < tail.len()
                    invariant
                        i <= tail@.len(),
                        all@ == stem + tail@.take(i as int),
                    decreases tail@.len() - i,
                {
                    all.push(tail[i]);
                    assert(all@ == stem + tail@.take(i as int + 1));
                    i = i + 1;
                }
                assert(tail@.take(i as int) == tail@);
                Some(sixteen(&all))
            },
            _ => None,
        }
    } else {
        match parse_side(a, true) {
            Some(all) => if all.len() == 16 {
                Some(sixteen(&all))
            } else {
                None
            },
            None => None,
        }
    }
}

/// Sixteen octets as an array.
fn sixteen(v: &Vec<u8>) -> (r: [u8; 16])
    requires
        v@.len() == 16,
    ensures
        r@ == v@,
{
    let mut out: [u8; 16] = [0u8;16];
    let mut i: usize = 0;
    while i < 16
        invariant
            i <= 16,
            v@.len() == 16,
            forall|j: int| 0 <= j < i ==> out@[j] == v@[j],
        decreases 16 - i,
    {
        out[i] = v[i];
        i = i + 1;
    }
    assert(out@ == v@);
    out
}

/// The address that a host writes, or `None` where the host is a name.
///
/// A dotted or colon address is read as it stands, a colon address also in the brackets that
/// it has in a URL, and a decimal number below 2^32 as the four octets of a dotted address.
pub fn parse_literal_ip(host: &str) -> (r: Option<IpAddress>)
    ensures
        r is Some == literal_octets(host@) is Some,
        r matches Some(ip) ==> literal_octets(host@) == Some(ip.octets()),
{
    let a = chars_of(host);
    let n: usize = a.len();
    if n >= 2 && a[0] == '[' && a[n - 1] == ']' {
        let inner = slice_subrange(a.as_slice(), 1, n - 1);
        return match parse_v6(inner) {
            Some(o) => Some(IpAddress::V6(o)),
            None => None,
        };
    }
    if let Some(o) = parse_v4(a.as_slice()) {
        return Some(IpAddress::V4(o));
    }
    if let Some(o) = parse_v6(a.as_slice()) {
        return Some(IpAddress::V6(o));
    }
    match parse_u32(a.as_slice()) {
        Some(v) => {
            let out: [u8; 4] = [
                (v / 0x100_0000) as u8,
                ((v / 0x1_0000) % 256) as u8,
                ((v / 256) % 256) as u8,
                (v % 256) as u8,
            ];
            assert(out@ == v4_octets(v));
            Some(IpAddress::V4(out))
        },
        None => None,
    }
}

/// Whether the address is not a public one.
pub fn is_non_public_ip(ip: &IpAddress) -> (r: bool)
    ensures
        r == non_public(ip.octets()),
{
    match ip {
        IpAddress::V4(o) => o[0] == 10 || (o[0] == 172 && 16 <= o[1] && o[1] <= 31) || (o[0] == 192
            && o[1] == 168) || o[0] == 127 || (o[0] == 169 && o[1] == 254) || (o[0] == 0 && o[1]
            == 0 && o[2] == 0 && o[3] == 0) || (o[0] == 192 && o[1] == 0 && o[2] == 2) || (o[0]
            == 198 && o[1] == 51 && o[2] == 100) || (o[0] == 203 && o[1] == 0 && o[2] == 113) || (
        o[0] == 100 && 64 <= o[1] && o[1] <= 127) || o[0] >= 224,
        IpAddress::V6(o) => {
            let mut zeros: usize = 0;
            while zeros < 15 && o[zeros] == 0
                invariant
                    zeros <= 15,
                    forall|i: int| 0 <= i < zeros ==> o@[i] == 0,
                decreases 15 - zeros,
            {
                zeros = zeros + 1;
            }
            (zeros == 15 && o[15] <= 1) || (o[0] == 0xfe && 0x80 <= o[1] && o[1] <= 0xbf) || o[0]
                == 0xfc || o[0] == 0xfd || o[0] == 0xff
        },
    }
}

// ---- Networks ----

/// `ipnet::IpNet::from_str`: the octets of the address and the prefix length that it reads, or
/// `None` where it gives an error. A four-octet address has a prefix of at most 32, a
/// sixteen-octet one of at most 128.
#[verifier::external_body]
fn read_net(text: &str) -> (r: Option<(Vec<u8>, u8)>)
    ensures
        r is Some == net_text(text@) is Some,
        r matches Some(net) ==> net_text(text@) == Some((net.0@, net.1)) && ((net.0@.len() == 4
            && net.1 <= 32) || (net.0@.len() == 16 && net.1 <= 128)),
{
    match text.parse::<ipnet::IpNet>() {
        Ok(ipnet::IpNet::V4(net)) => Some((net.addr().octets().to_vec(), net.prefix_len())),
        Ok(ipnet::IpNet::V6(net)) => Some((net.addr().octets().to_vec(), net.prefix_len())),
        Err(_) => None,
    }
}

/// `ipnet::Ipv4Net::contains`: the address agrees with that of the network in the first
/// `prefix` bits. `Ipv4Net::new_assert` panics on a prefix above 32.
#[verifier::external_body]
fn v4_net_contains(net: [u8; 4], prefix: u8, ip: [u8; 4]) -> (r: bool)
    requires
        prefix <= 32,
    ensures
        r == same_network(net@, prefix, ip@),
{
    ipnet::Ipv4Net::new_assert(net.into(), prefix).contains(
        &ipnet::Ipv4Net::new_assert(ip.into(), 32).addr(),
    )
}

/// `ipnet::Ipv6Net::contains`: the address agrees with that of the network in the first
/// `prefix` bits. `Ipv6Net::new_assert` panics on a prefix above 128.
#[verifier::external_body]
fn v6_net_contains(net: [u8; 16], prefix: u8, ip: [u8; 16]) -> (r: bool)
    requires
        prefix <= 128,
    ensures
        r == same_network(net@, prefix, ip@),
{
    ipnet::Ipv6Net::new_assert(net.into(), prefix).contains(
        &ipnet::Ipv6Net::new_assert(ip.into(), 128).addr(),
    )
}

/// Whether the address lies in the network.
pub fn net_contains(net: &Cidr, ip: &IpAddress) -> (r: bool)
    requires
        net.wf(),
    ensures
        r == same_network(net.addr.octets(), net.prefix, ip.octets()),
{
    match (net.addr, *ip) {
        (IpAddress::V4(n), IpAddress::V4(o)) => v4_net_contains(n, net.prefix, o),
        (IpAddress::V6(n), IpAddress::V6(o)) => v6_net_contains(n, net.prefix, o),
        _ => false,
    }
}

/// Whether the address lies in one of the networks.
pub fn any_contains(nets: &Vec<Cidr>, ip: &IpAddress) -> (r: bool)
    requires
        all_wf(nets@),
    ensures
        r == in_any(nets@, ip.octets()),
{
    let mut i: usize = 0;
    while i < nets.len()
        invariant
            all_wf(nets@),
            i <= nets@.len(),
            forall|j: int|
                0 <= j < i ==> !same_network(
                    (#[trigger] nets@[j]).addr.octets(),
                    nets@[j].prefix,
                    ip.octets(),
                ),
        decreases nets@.len() - i,
    {
        if net_contains(&nets[i], ip) {
            assert(same_network(
                nets@[i as int].addr.octets(),
                nets@[i as int].prefix,
                ip.octets(),
            ));
            return true;
        }
        i = i + 1;
    }
    false
}

/// The network that a text writes, or `None`.
pub fn parse_cidr(text: &str) -> (r: Option<Cidr>)
    ensures
        r is Some == net_text(text@) is Some,
        r matches Some(net) ==> net.wf() && net_text(text@) == Some(
            (net.addr.octets(), net.prefix),
        ),
{
    match read_net(text) {
        Some((o, prefix)) => {
            if o.len() == 4 {
                let four: [u8; 4] = [o[0], o[1], o[2], o[3]];
                assert(four@ == o@);
                Some(Cidr { addr: IpAddress::V4(four), prefix })
            } else {
                Some(Cidr { addr: IpAddress::V6(sixteen(&o)), prefix })
            }
        },
        None => None,
    }
}

/// The items of a comma-separated list: trimmed, without the empty ones.
pub fn split_list(raw: &str) -> (r: Vec<String>)
    ensures
        Seq::new(r@.len(), |i: int| r@[i]@) == list_items(split(raw@, ',')),
{
    let a = chars_of(raw);
    let pieces = split_at_each(a.as_slice(), ',');
    let ghost texts = split(raw@, ',');
    let mut out: Vec<String> = Vec::new();
    let mut i: usize = 0;
    assert(Seq::new(out@.len(), |i: int| out@[i]@) == list_items(texts.take(0)));
    while i < pieces.len()
        invariant
            i <= pieces@.len(),
            pieces@.len() == texts.len(),
            forall|j: int| 0 <= j < pieces@.len() ==> (#[trigger] pieces@[j])@ == texts[j],
            Seq::new(out@.len(), |i: int| out@[i]@) == list_items(texts.take(i as int)),
        decreases pieces@.len() - i,
    {
        let ghost before = Seq::new(out@.len(), |i: int| out@[i]@);
        assert(texts.take(i as int + 1).drop_last() == texts.take(i as int));
        let item = trim(pieces[i].as_slice());
        if item.len() > 0 {
            out.push(string_of(item));
            assert(Seq::new(out@.len(), |i: int| out@[i]@) == before.push(item@));
        }
        i = i + 1;
    }
    assert(texts.take(i as int) == texts);
    out
}

/// The networks of a comma-separated list, in order; an item that is no network is passed over.
pub fn parse_lan_cidrs(raw: &str) -> (r: Vec<Cidr>)
    ensures
        all_wf(r@),
        Seq::new(r@.len(), |i: int| (r@[i].addr.octets(), r@[i].prefix)) == nets_of(
            list_items(split(raw@, ',')),
        ),
{
    let items = split_list(raw);
    let ghost texts = list_items(split(raw@, ','));
    let mut out: Vec<Cidr> = Vec::new();
    let mut i: usize = 0;
    assert(Seq::new(items@.len(), |i: int| items@[i]@).len() == items@.len());
    assert forall|j: int| 0 <= j < items@.len() implies (#[trigger] items@[j])@ == texts[j] by {
        assert(Seq::new(items@.len(), |i: int| items@[i]@)[j] == items@[j]@);
    }
    assert(Seq::new(out@.len(), |i: int| (out@[i].addr.octets(), out@[i].prefix)) == nets_of(
        texts.take(0),
    ));
    while i < items.len()
        invariant
            i <= items@.len(),
            items@.len() == texts.len(),
            forall|j: int| 0 <= j < items@.len() ==> (#[trigger] items@[j])@ == texts[j],
            all_wf(out@),
            Seq::new(out@.len(), |i: int| (out@[i].addr.octets(), out@[i].prefix)) == nets_of(
                texts.take(i as int),
            ),
        decreases items@.len() - i,
    {
        let ghost before = Seq::new(out@.len(), |i: int| (out@[i].addr.octets(), out@[i].prefix));
        assert(texts.take(i as int + 1).drop_last() == texts.take(i as int));
        match parse_cidr(items[i].as_str()) {
            Some(net) => {
                out.push(net);
                assert(Seq::new(out@.len(), |i: int| (out@[i].addr.octets(), out@[i].prefix))
                    == before.push((net.addr.octets(), net.prefix)));
            },
            None => {},
        }
        i = i + 1;
    }
    assert(texts.take(i as int) == texts);
    out
}

} // verus!
