//! What it means for an address to lie in a network, octet by octet and bit by bit, and the
//! networks of which the addresses that are not public consist.

use vstd::arithmetic::div_mod::{lemma_div_denominator, lemma_fundamental_div_mod_converse};
use vstd::arithmetic::power2::{lemma2_to64, lemma_pow2_adds, lemma_pow2_pos, pow2};
use vstd::prelude::*;

use crate::ip::{in_any, list_items, net_text, nets_of, non_public, number, same_network, Cidr};
use crate::text::{joined, law_split_is, split, trimmed};

verus! {

/// The number of octets followed by others.
proof fn lemma_number_of_both(a: Seq<u8>, b: Seq<u8>)
    ensures
        number(a + b) == number(a) * pow2(8 * b.len()) + number(b),
        number(b) < pow2(8 * b.len()),
    decreases b.len(),
{
    lemma2_to64();
    if b.len() == 0 {
        assert(a + b == a);
        assert(8 * b.len() == 0);
        assert(number(a) * pow2(0) == number(a)) by (nonlinear_arith)
            requires
                pow2(0) == 1,
        ;
    } else {
        let front = b.drop_last();
        lemma_number_of_both(a, front);
        assert((a + b).drop_last() == a + front);
        assert((a + b).last() == b.last());
        let p = pow2(8 * front.len());
        lemma_pow2_adds(8 * front.len(), 8);
        assert(8 * front.len() + 8 == 8 * b.len());
        let x = number(a);
        let y = number(front);
        let z = b.last() as nat;
        assert(pow2(8 * b.len()) == p * 256);
        assert(number(a + b) == 256 * (x * p + y) + z);
        assert(256 * (x * p + y) + z == x * (p * 256) + (256 * y + z)) by (nonlinear_arith);
        assert(256 * y + z < p * 256) by (nonlinear_arith)
            requires
                y < p,
                z < 256,
        ;
    }
}

/// The octets that a prefix does not reach do not count.
proof fn lemma_reach(o: Seq<u8>, prefix: u8, k: int)
    requires
        0 <= k <= o.len(),
        prefix <= 8 * k,
    ensures
        number(o) / pow2((8 * o.len() - prefix) as nat) == number(o.take(k)) / pow2(
            (8 * k - prefix) as nat,
        ),
{
    let a = o.take(k);
    let b = o.skip(k);
    assert(a + b == o);
    lemma_number_of_both(a, b);
    let p = pow2(8 * b.len());
    let q = pow2((8 * k - prefix) as nat);
    lemma_pow2_pos(8 * b.len());
    lemma_pow2_pos((8 * k - prefix) as nat);
    lemma_pow2_adds(8 * b.len(), (8 * k - prefix) as nat);
    assert(8 * b.len() + (8 * k - prefix) as nat == (8 * o.len() - prefix) as nat);
    let n = number(o) as int;
    lemma_fundamental_div_mod_converse(n, p as int, number(a) as int, number(b) as int);
    lemma_div_denominator(n, p as int, q as int);
}

proof fn lemma_number_injective(a: Seq<u8>, b: Seq<u8>)
    requires
        a.len() == b.len(),
    ensures
        number(a) == number(b) <==> a == b,
    decreases a.len(),
{
    if a.len() > 0 {
        lemma_number_injective(a.drop_last(), b.drop_last());
        assert(a == a.drop_last().push(a.last()));
        assert(b == b.drop_last().push(b.last()));
    } else {
        assert(a == b);
    }
}

/// An address lies in a network exactly where it is of the same length and agrees with the address
/// of the network in the octets that the prefix covers, and in the first bits of the next one that
/// it covers in part.
#[verifier::rlimit(50)]
pub proof fn law_network_by_bits(net: Seq<u8>, prefix: u8, octets: Seq<u8>)
    requires
        prefix <= 8 * net.len(),
    ensures
        same_network(net, prefix, octets) <==> {
            &&& net.len() == octets.len()
            &&& forall|i: int| 0 <= i < prefix as int / 8 ==> #[trigger] net[i] == octets[i]
            &&& prefix % 8 > 0 ==> net[prefix as int / 8] as nat / pow2((8 - prefix % 8) as nat)
                == octets[prefix as int / 8] as nat / pow2((8 - prefix % 8) as nat)
        },
{
    let whole = prefix as int / 8;
    let bits = prefix as int % 8;
    assert(prefix == 8 * whole + bits);
    lemma2_to64();
    if net.len() == octets.len() {
        let a = net.take(whole);
        let b = octets.take(whole);
        lemma_number_injective(a, b);
        assert(a == b <==> forall|i: int| 0 <= i < whole ==> #[trigger] net[i] == octets[i]) by {
            if a == b {
                assert forall|i: int| 0 <= i < whole implies #[trigger] net[i] == octets[i] by {
                    assert(a[i] == b[i]);
                }
            }
            if forall|i: int| 0 <= i < whole ==> #[trigger] net[i] == octets[i] {
                assert(a == b);
            }
        }
        if bits == 0 {
            lemma_reach(net, prefix, whole);
            lemma_reach(octets, prefix, whole);
            assert((8 * whole - prefix) as nat == 0);
            assert(number(a) / pow2(0) == number(a));
            assert(number(b) / pow2(0) == number(b));
        } else {
            lemma_reach(net, prefix, whole + 1);
            lemma_reach(octets, prefix, whole + 1);
            assert((8 * (whole + 1) - prefix) as nat == (8 - prefix % 8) as nat);
            let x = net.take(whole + 1);
            let y = octets.take(whole + 1);
            assert(x.drop_last() == a && y.drop_last() == b);
            assert(number(x) == 256 * number(a) + net[whole] as nat);
            assert(number(y) == 256 * number(b) + octets[whole] as nat);
            lemma_split_division(number(a), net[whole] as nat, number(b), octets[whole] as nat, bits);
        }
    }
}

proof fn lemma_split_division(a: nat, c: nat, b: nat, d: nat, bits: int)
    requires
        0 < bits < 8,
        c < 256,
        d < 256,
    ensures
        (256 * a + c) / pow2((8 - bits) as nat) == (256 * b + d) / pow2((8 - bits) as nat) <==> a == b
            && c / pow2((8 - bits) as nat) == d / pow2((8 - bits) as nat),
{
    lemma2_to64();
    if bits == 1 {
        assert((256 * a + c) / 128 == 2 * a + c / 128 && (256 * b + d) / 128 == 2 * b + d / 128);
    } else if bits == 2 {
        assert((256 * a + c) / 64 == 4 * a + c / 64 && (256 * b + d) / 64 == 4 * b + d / 64);
    } else if bits == 3 {
        assert((256 * a + c) / 32 == 8 * a + c / 32 && (256 * b + d) / 32 == 8 * b + d / 32);
    } else if bits == 4 {
        assert((256 * a + c) / 16 == 16 * a + c / 16 && (256 * b + d) / 16 == 16 * b + d / 16);
    } else if bits == 5 {
        assert((256 * a + c) / 8 == 32 * a + c / 8 && (256 * b + d) / 8 == 32 * b + d / 8);
    } else if bits == 6 {
        assert((256 * a + c) / 4 == 64 * a + c / 4 && (256 * b + d) / 4 == 64 * b + d / 4);
    } else {
        assert((256 * a + c) / 2 == 128 * a + c / 2 && (256 * b + d) / 2 == 128 * b + d / 2);
    }
}

/// A dotted address is not public exactly where it lies in one of these networks: the private ones,
/// loopback, link local, the unspecified address, the three for documentation, the shared one,
/// multicast, and the reserved one with the broadcast address.
#[verifier::rlimit(50)]
pub proof fn law_networks_that_are_not_public(o: Seq<u8>)
    requires
        o.len() == 4,
    ensures
        non_public(o) <==> {
            ||| same_network(seq![10u8, 0, 0, 0], 8, o)
            ||| same_network(seq![172u8, 16, 0, 0], 12, o)
            ||| same_network(seq![192u8, 168, 0, 0], 16, o)
            ||| same_network(seq![127u8, 0, 0, 0], 8, o)
            ||| same_network(seq![169u8, 254, 0, 0], 16, o)
            ||| same_network(seq![0u8, 0, 0, 0], 32, o)
            ||| same_network(seq![192u8, 0, 2, 0], 24, o)
            ||| same_network(seq![198u8, 51, 100, 0], 24, o)
            ||| same_network(seq![203u8, 0, 113, 0], 24, o)
            ||| same_network(seq![100u8, 64, 0, 0], 10, o)
            ||| same_network(seq![224u8, 0, 0, 0], 4, o)
            ||| same_network(seq![240u8, 0, 0, 0], 4, o)
        },
{
    lemma2_to64();
    lemma_four(seq![10u8, 0, 0, 0], 8, o);
    lemma_four(seq![172u8, 16, 0, 0], 12, o);
    lemma_four(seq![192u8, 168, 0, 0], 16, o);
    lemma_four(seq![127u8, 0, 0, 0], 8, o);
    lemma_four(seq![169u8, 254, 0, 0], 16, o);
    lemma_four(seq![0u8, 0, 0, 0], 32, o);
    lemma_four(seq![192u8, 0, 2, 0], 24, o);
    lemma_four(seq![198u8, 51, 100, 0], 24, o);
    lemma_four(seq![203u8, 0, 113, 0], 24, o);
    lemma_four(seq![100u8, 64, 0, 0], 10, o);
    lemma_four(seq![224u8, 0, 0, 0], 4, o);
    lemma_four(seq![240u8, 0, 0, 0], 4, o);
}

/// The networks of dotted addresses, octet by octet.
proof fn lemma_four(net: Seq<u8>, prefix: u8, o: Seq<u8>)
    requires
        net.len() == 4,
        o.len() == 4,
        prefix <= 32,
    ensures
        prefix == 4 ==> (same_network(net, prefix, o) <==> net[0] / 16 == o[0] / 16),
        prefix == 8 ==> (same_network(net, prefix, o) <==> net[0] == o[0]),
        prefix == 10 ==> (same_network(net, prefix, o) <==> net[0] == o[0] && net[1] / 64 == o[1]
            / 64),
        prefix == 12 ==> (same_network(net, prefix, o) <==> net[0] == o[0] && net[1] / 16 == o[1]
            / 16),
        prefix == 16 ==> (same_network(net, prefix, o) <==> net[0] == o[0] && net[1] == o[1]),
        prefix == 24 ==> (same_network(net, prefix, o) <==> net[0] == o[0] && net[1] == o[1]
            && net[2] == o[2]),
        prefix == 32 ==> (same_network(net, prefix, o) <==> net[0] == o[0] && net[1] == o[1]
            && net[2] == o[2] && net[3] == o[3]),
{
    lemma2_to64();
    law_network_by_bits(net, prefix, o);
}

/// The sixteen octets that begin with these two and are zero but for the last one.
pub open spec fn colon_network(first: u8, second: u8, last: u8) -> Seq<u8> {
    seq![first, second, 0, 0, 0, 0, 0, 0, 0, 0, 0, 0, 0, 0, 0, last]
}

/// A colon address is not public exactly where it lies in one of these networks: loopback, the
/// unspecified address, link local, unique local, and multicast.
#[verifier::rlimit(50)]
pub proof fn law_colon_networks_that_are_not_public(o: Seq<u8>)
    requires
        o.len() == 16,
    ensures
        non_public(o) <==> {
            ||| same_network(colon_network(0, 0, 1), 128, o)
            ||| same_network(colon_network(0, 0, 0), 128, o)
            ||| same_network(colon_network(0xfe, 0x80, 0), 10, o)
            ||| same_network(colon_network(0xfc, 0, 0), 7, o)
            ||| same_network(colon_network(0xff, 0, 0), 8, o)
        },
{
    lemma2_to64();
    law_network_by_bits(colon_network(0, 0, 1), 128, o);
    law_network_by_bits(colon_network(0, 0, 0), 128, o);
    lemma_sixteen(colon_network(0xfe, 0x80, 0), 10, o);
    lemma_sixteen(colon_network(0xfc, 0, 0), 7, o);
    lemma_sixteen(colon_network(0xff, 0, 0), 8, o);
    let zero = colon_network(0, 0, 0);
    let one = colon_network(0, 0, 1);
    assert forall|i: int| 0 <= i < 15 implies #[trigger] zero[i] == 0 && one[i] == 0 by {}
    if (forall|i: int| 0 <= i < 15 ==> o[i] == 0) && o[15] <= 1 {
        if o[15] == 0 {
            assert forall|i: int| 0 <= i < 16 implies #[trigger] zero[i] == o[i] by {}
        } else {
            assert forall|i: int| 0 <= i < 16 implies #[trigger] one[i] == o[i] by {}
        }
    }
    if same_network(zero, 128, o) {
        assert forall|i: int| 0 <= i < 15 implies o[i] == 0 by {
            assert(zero[i] == o[i]);
        }
        assert(zero[15] == o[15]);
    }
    if same_network(one, 128, o) {
        assert forall|i: int| 0 <= i < 15 implies o[i] == 0 by {
            assert(one[i] == o[i]);
        }
        assert(one[15] == o[15]);
    }
}

/// The networks of colon addresses, octet by octet.
proof fn lemma_sixteen(net: Seq<u8>, prefix: u8, o: Seq<u8>)
    requires
        net.len() == 16,
        o.len() == 16,
        prefix <= 128,
    ensures
        prefix == 7 ==> (same_network(net, prefix, o) <==> net[0] / 2 == o[0] / 2),
        prefix == 8 ==> (same_network(net, prefix, o) <==> net[0] == o[0]),
        prefix == 10 ==> (same_network(net, prefix, o) <==> net[0] == o[0] && net[1] / 64 == o[1]
            / 64),
{
    lemma2_to64();
    law_network_by_bits(net, prefix, o);
}

/// A list of networks holds what either of its two parts holds.
pub proof fn law_networks_add_up(a: Seq<Cidr>, b: Seq<Cidr>, octets: Seq<u8>)
    ensures
        in_any(a + b, octets) <==> in_any(a, octets) || in_any(b, octets),
{
    let all = a + b;
    if in_any(a, octets) {
        let i = choose|i: int|
            0 <= i < a.len() && same_network((#[trigger] a[i]).addr.octets(), a[i].prefix, octets);
        assert(all[i] == a[i]);
    }
    if in_any(b, octets) {
        let i = choose|i: int|
            0 <= i < b.len() && same_network((#[trigger] b[i]).addr.octets(), b[i].prefix, octets);
        assert(all[a.len() + i] == b[i]);
    }
    if in_any(all, octets) {
        let i = choose|i: int|
            0 <= i < all.len() && same_network(
                (#[trigger] all[i]).addr.octets(),
                all[i].prefix,
                octets,
            );
        if i < a.len() {
            assert(all[i] == a[i]);
        } else {
            assert(all[i] == b[i - a.len()]);
        }
    }
}

/// A list of one network holds what that network holds.
pub proof fn law_one_network(net: Cidr, octets: Seq<u8>)
    ensures
        in_any(seq![net], octets) <==> same_network(net.addr.octets(), net.prefix, octets),
{
    let all = seq![net];
    assert(all[0] == net);
}

/// The networks of two lists of items, one after the other, are those of the first and then those
/// of the second; an item on its own is its network, or nothing.
pub proof fn law_networks_of_items(a: Seq<Seq<char>>, b: Seq<Seq<char>>, item: Seq<char>)
    ensures
        nets_of(a + b) == nets_of(a) + nets_of(b),
        nets_of(seq![item]) == (match net_text(item) {
            Some(net) => seq![net],
            None => Seq::<(Seq<u8>, u8)>::empty(),
        }),
    decreases b.len(),
{
    let one = seq![item];
    assert(one.drop_last() == Seq::<Seq<char>>::empty());
    assert(nets_of(one.drop_last()) == Seq::<(Seq<u8>, u8)>::empty());
    assert(one.last() == item);
    assert(nets_of(one) == (match net_text(item) {
        Some(net) => seq![net],
        None => Seq::<(Seq<u8>, u8)>::empty(),
    }));
    if b.len() == 0 {
        assert(a + b == a);
        assert(nets_of(b) == Seq::<(Seq<u8>, u8)>::empty());
        assert(nets_of(a) + nets_of(b) == nets_of(a));
    } else {
        law_networks_of_items(a, b.drop_last(), item);
        assert((a + b).drop_last() == a + b.drop_last());
        assert((a + b).last() == b.last());
        assert(nets_of(a + b) == nets_of(a) + nets_of(b));
    }
}

/// The items of pieces: those of the first ones and then those of the others; a piece on its own is
/// what trimming leaves of it, or nothing where that is empty.
pub proof fn law_items_of_pieces(a: Seq<Seq<char>>, b: Seq<Seq<char>>, piece: Seq<char>)
    ensures
        list_items(a + b) == list_items(a) + list_items(b),
        list_items(seq![piece]) == (if trimmed(piece).len() > 0 {
            seq![trimmed(piece)]
        } else {
            Seq::<Seq<char>>::empty()
        }),
    decreases b.len(),
{
    let one = seq![piece];
    assert(one.drop_last() == Seq::<Seq<char>>::empty());
    assert(list_items(one.drop_last()) == Seq::<Seq<char>>::empty());
    assert(one.last() == piece);
    assert(list_items(one) == (if trimmed(piece).len() > 0 {
        seq![trimmed(piece)]
    } else {
        Seq::<Seq<char>>::empty()
    }));
    if b.len() == 0 {
        assert(a + b == a);
        assert(list_items(a) + list_items(b) == list_items(a));
    } else {
        law_items_of_pieces(a, b.drop_last(), piece);
        assert((a + b).drop_last() == a + b.drop_last());
        assert((a + b).last() == b.last());
        assert(list_items(a + b) == list_items(a) + list_items(b));
    }
}

/// A list of items with commas between them, each of which is as trimming leaves it and not empty,
/// gives those items.
pub proof fn law_list_gives_its_items(items: Seq<Seq<char>>)
    requires
        items.len() > 0,
        forall|i: int|
            0 <= i < items.len() ==> (#[trigger] items[i]).len() > 0 && trimmed(items[i]) == items[i]
                && !items[i].contains(','),
    ensures
        list_items(split(joined(items, ','), ',')) == items,
{
    law_split_is(items, ',');
    lemma_items_are_themselves(items);
}

proof fn lemma_items_are_themselves(items: Seq<Seq<char>>)
    requires
        forall|i: int|
            0 <= i < items.len() ==> (#[trigger] items[i]).len() > 0 && trimmed(items[i]) == items[i],
    ensures
        list_items(items) == items,
    decreases items.len(),
{
    if items.len() > 0 {
        lemma_items_are_themselves(items.drop_last());
        assert(items[items.len() - 1].len() > 0);
        assert(items.drop_last().push(items.last()) == items);
    } else {
        assert(items == Seq::<Seq<char>>::empty());
    }
}

} // verus!
