//! SHA-1, used to derive the file name of a cached icon, and lower-case hexadecimal.

use vstd::prelude::*;

use crate::ip::{hex_number, hex_value, number};

verus! {

/// The five chaining words.
#[derive(Clone, Copy)]
pub struct Chain {
    pub a: u32,
    pub b: u32,
    pub c: u32,
    pub d: u32,
    pub e: u32,
}

/// Addition modulo 2^32.
pub open spec fn plus(x: u32, y: u32) -> u32 {
    ((x as int + y as int) % 0x1_0000_0000) as u32
}

/// Rotation to the left by `n` bits, for `n` from 1 to 31.
pub open spec fn rotl(x: u32, n: u32) -> u32 {
    (x << n) | (x >> ((32 - n) as u32))
}

/// The initial chaining words.
pub open spec fn initial() -> Chain {
    Chain { a: 0x67452301, b: 0xEFCDAB89, c: 0x98BADCFE, d: 0x10325476, e: 0xC3D2E1F0 }
}

/// The bytes of a 64-bit number, most significant first.
pub open spec fn be64(v: u64) -> Seq<u8> {
    Seq::new(8, |i: int| (v >> ((56 - 8 * i) as u64)) as u8)
}

/// The bytes of a 32-bit number, most significant first.
pub open spec fn be32(v: u32) -> Seq<u8> {
    Seq::new(4, |i: int| (v >> ((24 - 8 * i) as u32)) as u8)
}

/// How many zero bytes stand between the end mark and the length: the least number that
/// leaves room for exactly the eight length bytes in the last block of 64.
pub open spec fn fill_len(n: nat) -> nat {
    ((119 - n % 64) % 64) as nat
}

/// The message with its end mark, its zero bytes and its length in bits.
pub open spec fn padded(data: Seq<u8>) -> Seq<u8> {
    data + seq![0x80u8] + Seq::new(fill_len(data.len()), |i: int| 0u8) + be64(
        ((data.len() * 8) % 0x1_0000_0000_0000_0000) as u64,
    )
}

/// Word `t` of a block, most significant byte first.
pub open spec fn block_word(block: Seq<u8>, t: int) -> u32 {
    ((block[4 * t] as u32) << 24u32) | ((block[4 * t + 1] as u32) << 16u32) | ((block[4 * t
        + 2] as u32) << 8u32) | (block[4 * t + 3] as u32)
}

/// Word `t` of the message schedule of a block.
pub open spec fn schedule(block: Seq<u8>, t: nat) -> u32
    decreases t,
{
    if t < 16 {
        block_word(block, t as int)
    } else {
        rotl(
            schedule(block, (t - 3) as nat) ^ schedule(block, (t - 8) as nat) ^ schedule(
                block,
                (t - 14) as nat,
            ) ^ schedule(block, (t - 16) as nat),
            1,
        )
    }
}

/// The logical function of round `t`.
pub open spec fn mix(t: nat, b: u32, c: u32, d: u32) -> u32 {
    if t < 20 {
        (b & c) | ((!b) & d)
    } else if t < 40 {
        b ^ c ^ d
    } else if t < 60 {
        (b & c) | (b & d) | (c & d)
    } else {
        b ^ c ^ d
    }
}

/// The constant of round `t`.
pub open spec fn round_constant(t: nat) -> u32 {
    if t < 20 {
        0x5A827999
    } else if t < 40 {
        0x6ED9EBA1
    } else if t < 60 {
        0x8F1BBCDC
    } else {
        0xCA62C1D6
    }
}

/// One round with the schedule word `w`.
pub open spec fn round(s: Chain, t: nat, w: u32) -> Chain {
    Chain {
        a: plus(
            plus(plus(plus(rotl(s.a, 5), mix(t, s.b, s.c, s.d)), s.e), round_constant(t)),
            w,
        ),
        b: s.a,
        c: rotl(s.b, 30),
        d: s.c,
        e: s.d,
    }
}

/// The first `n` rounds on a block.
pub open spec fn rounds(s: Chain, block: Seq<u8>, n: nat) -> Chain
    decreases n,
{
    if n == 0 {
        s
    } else {
        round(rounds(s, block, (n - 1) as nat), (n - 1) as nat, schedule(block, (n - 1) as nat))
    }
}

/// The chaining words after one block.
pub open spec fn absorb(s: Chain, block: Seq<u8>) -> Chain {
    let r = rounds(s, block, 80);
    Chain {
        a: plus(s.a, r.a),
        b: plus(s.b, r.b),
        c: plus(s.c, r.c),
        d: plus(s.d, r.d),
        e: plus(s.e, r.e),
    }
}

/// The chaining words after the first `n` blocks of a padded message.
pub open spec fn absorb_all(message: Seq<u8>, n: nat) -> Chain
    decreases n,
{
    if n == 0 {
        initial()
    } else {
        absorb(
            absorb_all(message, (n - 1) as nat),
            message.subrange(64 * (n - 1), 64 * (n as int)),
        )
    }
}

/// The SHA-1 digest of `data`.
pub open spec fn sha1_digest(data: Seq<u8>) -> Seq<u8> {
    let message = padded(data);
    let r = absorb_all(message, message.len() / 64);
    be32(r.a) + be32(r.b) + be32(r.c) + be32(r.d) + be32(r.e)
}

/// The character of a value below 16.
pub open spec fn hex_digit(v: u8) -> char {
    if v < 10 {
        (v + 48) as u8 as char
    } else {
        (v + 87) as u8 as char
    }
}

/// Two lower-case hexadecimal digits for each byte, the high one first.
pub open spec fn hex_text(bytes: Seq<u8>) -> Seq<char> {
    Seq::new(
        2 * bytes.len(),
        |i: int|
            if i % 2 == 0 {
                hex_digit((bytes[i / 2] / 16) as u8)
            } else {
                hex_digit((bytes[i / 2] % 16) as u8)
            },
    )
}

/// The digest has twenty bytes.
pub proof fn law_digest_len(data: Seq<u8>)
    ensures
        sha1_digest(data).len() == 20,
{
}

/// A padded message is a whole number of blocks.
pub proof fn law_padded_whole_blocks(data: Seq<u8>)
    ensures
        padded(data).len() % 64 == 0,
        padded(data).len() > data.len(),
        data.is_prefix_of(padded(data)),
{
    let n = data.len();
    assert((n + 1 + fill_len(n) + 8) % 64 == 0) by {
        assert(n == 64 * (n / 64) + n % 64);
    }
    assert(padded(data).take(n as int) == data);
}

/// The bytes of a number, most significant first, write that number.
#[verifier::rlimit(50)]
pub proof fn law_bytes_of_numbers(v: u64, w: u32)
    ensures
        be64(v).len() == 8,
        number(be64(v)) == v,
        be32(w).len() == 4,
        number(be32(w)) == w,
{
    let a = be64(v);
    assert((v >> 56u64) == ((v >> 56u64) as u8) && (v >> 48u64) == 256 * (v >> 56u64) + ((v
        >> 48u64) as u8) && (v >> 40u64) == 256 * (v >> 48u64) + ((v >> 40u64) as u8) && (v
        >> 32u64) == 256 * (v >> 40u64) + ((v >> 32u64) as u8) && (v >> 24u64) == 256 * (v
        >> 32u64) + ((v >> 24u64) as u8) && (v >> 16u64) == 256 * (v >> 24u64) + ((v
        >> 16u64) as u8) && (v >> 8u64) == 256 * (v >> 16u64) + ((v >> 8u64) as u8) && (v
        >> 0u64) == 256 * (v >> 8u64) + ((v >> 0u64) as u8) && (v >> 0u64) == v) by (bit_vector);
    lemma_number_of_front(a, 0);
    lemma_number_of_front(a, 1);
    lemma_number_of_front(a, 2);
    lemma_number_of_front(a, 3);
    lemma_number_of_front(a, 4);
    lemma_number_of_front(a, 5);
    lemma_number_of_front(a, 6);
    lemma_number_of_front(a, 7);
    assert(a.take(0) == Seq::<u8>::empty());
    assert(a.take(8) == a);
    let b = be32(w);
    assert((w >> 24u32) == ((w >> 24u32) as u8) && (w >> 16u32) == 256 * (w >> 24u32) + ((w
        >> 16u32) as u8) && (w >> 8u32) == 256 * (w >> 16u32) + ((w >> 8u32) as u8) && (w
        >> 0u32) == 256 * (w >> 8u32) + ((w >> 0u32) as u8) && (w >> 0u32) == w) by (bit_vector);
    lemma_number_of_front(b, 0);
    lemma_number_of_front(b, 1);
    lemma_number_of_front(b, 2);
    lemma_number_of_front(b, 3);
    assert(b.take(0) == Seq::<u8>::empty());
    assert(b.take(4) == b);
}

proof fn lemma_number_of_front(s: Seq<u8>, i: int)
    requires
        0 <= i < s.len(),
    ensures
        number(s.take(i + 1)) == 256 * number(s.take(i)) + s[i] as nat,
{
    assert(s.take(i + 1).drop_last() == s.take(i));
}

/// A padded message is the message, the byte 0x80, zeros, and the number of its bits in eight bytes,
/// modulo 2^64, with as few zeros as make whole blocks of 64 bytes.
pub proof fn law_padding(data: Seq<u8>)
    ensures
        ({
            let p = padded(data);
            let n = data.len() as int;
            &&& p.len() % 64 == 0
            &&& n + 9 <= p.len() < n + 73
            &&& p.take(n) == data
            &&& p[n] == 0x80
            &&& forall|i: int| n < i < p.len() - 8 ==> #[trigger] p[i] == 0
            &&& number(p.skip(p.len() - 8)) == (8 * n) % 0x1_0000_0000_0000_0000
        }),
{
    law_padded_whole_blocks(data);
    let p = padded(data);
    let n = data.len() as int;
    let bits = ((data.len() * 8) % 0x1_0000_0000_0000_0000) as u64;
    law_bytes_of_numbers(bits, 0);
    assert(p.take(n) == data);
    assert(p.skip(p.len() - 8) == be64(bits));
}

/// A word of a block is the number of four of its bytes.
pub proof fn law_words_of_a_block(block: Seq<u8>, t: int)
    requires
        block.len() == 64,
        0 <= t < 16,
    ensures
        schedule(block, t as nat) as nat == number(block.subrange(4 * t, 4 * t + 4)),
{
    let s = block.subrange(4 * t, 4 * t + 4);
    let a = block[4 * t] as u32;
    let b = block[4 * t + 1] as u32;
    let c = block[4 * t + 2] as u32;
    let d = block[4 * t + 3] as u32;
    assert(((a << 24u32) | (b << 16u32) | (c << 8u32) | d) == 256 * (256 * (256 * a + b) + c) + d)
        by (bit_vector)
        requires
            a < 256,
            b < 256,
            c < 256,
            d < 256,
    ;
    lemma_number_of_front(s, 0);
    lemma_number_of_front(s, 1);
    lemma_number_of_front(s, 2);
    lemma_number_of_front(s, 3);
    assert(s.take(0) == Seq::<u8>::empty());
    assert(s.take(4) == s);
}

/// Turning a word to the left multiplies it, and the bits that leave it come in again at its end.
pub proof fn law_turning(x: u32)
    ensures
        rotl(x, 1) == (2 * x) % 0x1_0000_0000 + x / 0x8000_0000,
        rotl(x, 5) == (32 * x) % 0x1_0000_0000 + x / 0x800_0000,
        rotl(x, 30) == (0x4000_0000 * x) % 0x1_0000_0000 + x / 4,
{
    assert(((x << 1u32) | (x >> 31u32)) == (2 * x) % 0x1_0000_0000 + x / 0x8000_0000) by (bit_vector);
    assert(((x << 5u32) | (x >> 27u32)) == (32 * x) % 0x1_0000_0000 + x / 0x800_0000) by (bit_vector);
    assert(((x << 30u32) | (x >> 2u32)) == (0x4000_0000 * x) % 0x1_0000_0000 + x / 4) by (bit_vector);
}

/// From the sixteenth word on, a word turned back by one bit is the sum, bit by bit, of the words 3,
/// 8, 14 and 16 places before it.
pub proof fn law_schedule(block: Seq<u8>, t: nat)
    requires
        t >= 16,
    ensures
        schedule(block, t) == rotl(
            schedule(block, (t - 16) as nat) ^ schedule(block, (t - 14) as nat) ^ schedule(
                block,
                (t - 8) as nat,
            ) ^ schedule(block, (t - 3) as nat),
            1,
        ),
{
    let a = schedule(block, (t - 3) as nat);
    let b = schedule(block, (t - 8) as nat);
    let c = schedule(block, (t - 14) as nat);
    let d = schedule(block, (t - 16) as nat);
    assert(a ^ b ^ c ^ d == d ^ c ^ b ^ a) by (bit_vector);
}

/// The functions of the rounds, bit by bit: the first chooses between `c` and `d` by `b`, the second
/// and the fourth add all three, and the third is what most of the three are.
pub proof fn law_functions(t: nat, b: u32, c: u32, d: u32)
    ensures
        t < 20 ==> mix(t, b, c, d) & b == c & b && mix(t, b, c, d) & !b == d & !b,
        20 <= t < 40 || 60 <= t ==> mix(t, b, c, d) ^ b ^ c ^ d == 0,
        40 <= t < 60 ==> mix(t, b, c, d) & (b ^ c) == d & (b ^ c) && mix(t, b, c, d) & !(b ^ c) == b
            & !(b ^ c),
{
    assert(((b & c) | ((!b) & d)) & b == c & b && ((b & c) | ((!b) & d)) & !b == d & !b)
        by (bit_vector);
    assert((b ^ c ^ d) ^ b ^ c ^ d == 0) by (bit_vector);
    assert(((b & c) | (b & d) | (c & d)) & (b ^ c) == d & (b ^ c) && ((b & c) | (b & d) | (c & d)) & !(
    b ^ c) == b & !(b ^ c)) by (bit_vector);
}

/// The constants of the rounds are the square roots of 2, 3, 5 and 10, times 2^30, without what
/// follows the point.
pub proof fn law_constants(t: nat)
    ensures
        ({
            let k = round_constant(t) as int;
            let root: int = if t < 20 {
                2
            } else if t < 40 {
                3
            } else if t < 60 {
                5
            } else {
                10
            };
            k * k <= root * 0x1000_0000_0000_0000 < (k + 1) * (k + 1)
        }),
{
    assert(0x5A827999int * 0x5A827999 <= 2 * 0x1000_0000_0000_0000 < 0x5A82799Aint * 0x5A82799A);
    assert(0x6ED9EBA1int * 0x6ED9EBA1 <= 3 * 0x1000_0000_0000_0000 < 0x6ED9EBA2int * 0x6ED9EBA2);
    assert(0x8F1BBCDCint * 0x8F1BBCDC <= 5 * 0x1000_0000_0000_0000 < 0x8F1BBCDDint * 0x8F1BBCDD);
    assert(0xCA62C1D6int * 0xCA62C1D6 <= 10 * 0x1000_0000_0000_0000 < 0xCA62C1D7int * 0xCA62C1D7);
}

/// The initial words, least significant byte first, count the hexadecimal digits up, then down, and
/// then once more in turn.
pub proof fn law_initial_words()
    ensures
        number(seq![0x67u8, 0x45, 0x23, 0x01]) == initial().a,
        number(seq![0xefu8, 0xcd, 0xab, 0x89]) == initial().b,
        number(seq![0x98u8, 0xba, 0xdc, 0xfe]) == initial().c,
        number(seq![0x10u8, 0x32, 0x54, 0x76]) == initial().d,
        number(seq![0xc3u8, 0xd2, 0xe1, 0xf0]) == initial().e,
{
    lemma_number_of_four(seq![0x67u8, 0x45, 0x23, 0x01]);
    lemma_number_of_four(seq![0xefu8, 0xcd, 0xab, 0x89]);
    lemma_number_of_four(seq![0x98u8, 0xba, 0xdc, 0xfe]);
    lemma_number_of_four(seq![0x10u8, 0x32, 0x54, 0x76]);
    lemma_number_of_four(seq![0xc3u8, 0xd2, 0xe1, 0xf0]);
}

proof fn lemma_number_of_four(s: Seq<u8>)
    requires
        s.len() == 4,
    ensures
        number(s) == 256 * (256 * (256 * s[0] + s[1]) + s[2]) + s[3],
{
    lemma_number_of_front(s, 0);
    lemma_number_of_front(s, 1);
    lemma_number_of_front(s, 2);
    lemma_number_of_front(s, 3);
    assert(s.take(0) == Seq::<u8>::empty());
    assert(s.take(4) == s);
}

/// A round moves the words on by one place, turns the second one, and puts in front the sum, modulo
/// 2^32, of the turned first word, the function of the round, the last word, the constant of the
/// round and the word of the schedule.
#[verifier::rlimit(50)]
pub proof fn law_round(s: Chain, block: Seq<u8>, n: nat)
    ensures
        ({
            let before = rounds(s, block, n);
            let after = rounds(s, block, n + 1);
            &&& after.a as int == (rotl(before.a, 5) + mix(n, before.b, before.c, before.d) + before.e
                + round_constant(n) + schedule(block, n)) % 0x1_0000_0000
            &&& after.b == before.a
            &&& after.c == rotl(before.b, 30)
            &&& after.d == before.c
            &&& after.e == before.d
        }),
        rounds(s, block, 0) == s,
{
    let before = rounds(s, block, n);
    let after = rounds(s, block, n + 1);
    assert(after == round(before, n, schedule(block, n)));
    lemma_sum(
        rotl(before.a, 5),
        mix(n, before.b, before.c, before.d),
        before.e,
        round_constant(n),
        schedule(block, n),
    );
}

/// Sums modulo 2^32 of five words, one after the other and all at once.
proof fn lemma_sum(x: u32, y: u32, z: u32, u: u32, v: u32)
    ensures
        plus(plus(plus(plus(x, y), z), u), v) as int == (x + y + z + u + v) % 0x1_0000_0000,
{
    let p = plus(x, y);
    let q = plus(p, z);
    let r = plus(q, u);
    assert(p == x + y || p == x + y - 0x1_0000_0000);
    assert(q == p + z || q == p + z - 0x1_0000_0000);
    assert(r == q + u || r == q + u - 0x1_0000_0000);
}

/// A block adds to the words what eighty rounds on it make of them, modulo 2^32.
pub proof fn law_block(s: Chain, block: Seq<u8>)
    ensures
        ({
            let r = rounds(s, block, 80);
            let after = absorb(s, block);
            &&& after.a as int == (s.a + r.a) % 0x1_0000_0000
            &&& after.b as int == (s.b + r.b) % 0x1_0000_0000
            &&& after.c as int == (s.c + r.c) % 0x1_0000_0000
            &&& after.d as int == (s.d + r.d) % 0x1_0000_0000
            &&& after.e as int == (s.e + r.e) % 0x1_0000_0000
        }),
{
}

/// The blocks of a message are absorbed one after the other: one more block changes the words as that
/// block does, and what follows the blocks does not count.
pub proof fn law_blocks(message: Seq<u8>, n: nat, block: Seq<u8>, rest: Seq<u8>)
    requires
        message.len() == 64 * n,
        block.len() == 64,
    ensures
        absorb_all(message + block, n + 1) == absorb(absorb_all(message, n), block),
        absorb_all(message + rest, n) == absorb_all(message, n),
        absorb_all(message, 0) == initial(),
    decreases n,
{
    lemma_blocks_before(message, block, n);
    assert((message + block).subrange(64 * (n as int), 64 * (n as int + 1)) == block);
    lemma_blocks_before(message, rest, n);
}

proof fn lemma_blocks_before(message: Seq<u8>, rest: Seq<u8>, n: nat)
    requires
        64 * n <= message.len(),
    ensures
        absorb_all(message + rest, n) == absorb_all(message, n),
    decreases n,
{
    if n > 0 {
        lemma_blocks_before(message, rest, (n - 1) as nat);
        assert((message + rest).subrange(64 * (n - 1), 64 * (n as int)) == message.subrange(
            64 * (n - 1),
            64 * (n as int),
        ));
    }
}

/// The digest is the five words after all blocks of the padded message, one after the other, each
/// with its most significant byte first.
pub proof fn law_digest(data: Seq<u8>)
    ensures
        ({
            let digest = sha1_digest(data);
            let words = absorb_all(padded(data), padded(data).len() / 64);
            &&& digest.len() == 20
            &&& number(digest.subrange(0, 4)) == words.a
            &&& number(digest.subrange(4, 8)) == words.b
            &&& number(digest.subrange(8, 12)) == words.c
            &&& number(digest.subrange(12, 16)) == words.d
            &&& number(digest.subrange(16, 20)) == words.e
        }),
{
    let digest = sha1_digest(data);
    let w = absorb_all(padded(data), padded(data).len() / 64);
    law_bytes_of_numbers(0, w.a);
    law_bytes_of_numbers(0, w.b);
    law_bytes_of_numbers(0, w.c);
    law_bytes_of_numbers(0, w.d);
    law_bytes_of_numbers(0, w.e);
    assert(digest.subrange(0, 4) == be32(w.a));
    assert(digest.subrange(4, 8) == be32(w.b));
    assert(digest.subrange(8, 12) == be32(w.c));
    assert(digest.subrange(12, 16) == be32(w.d));
    assert(digest.subrange(16, 20) == be32(w.e));
}

/// The hexadecimal text of bytes is the number of the bytes in hexadecimal: two digits for each byte,
/// zeros in front included, and small letters.
pub proof fn law_hex_is_the_number(bytes: Seq<u8>)
    ensures
        hex_text(bytes).len() == 2 * bytes.len(),
        hex_number(hex_text(bytes)) == Some(number(bytes)),
        forall|i: int|
            0 <= i < hex_text(bytes).len() ==> "0123456789abcdef"@.contains(
                #[trigger] hex_text(bytes)[i],
            ),
    decreases bytes.len(),
{
    let s = hex_text(bytes);
    reveal_strlit("0123456789abcdef");
    let digits = "0123456789abcdef"@;
    assert forall|i: int| 0 <= i < s.len() implies digits.contains(#[trigger] s[i]) by {
        let v: int = if i % 2 == 0 {
            (bytes[i / 2] / 16) as int
        } else {
            (bytes[i / 2] % 16) as int
        };
        assert(digits[v] == s[i]);
    }
    if bytes.len() > 0 {
        let front = bytes.drop_last();
        let n = front.len() as int;
        law_hex_is_the_number(front);
        lemma_hex_at(bytes, n);
        let b = bytes.last();
        let most = s.drop_last();
        assert(most.drop_last() == hex_text(front)) by {
            assert forall|i: int| 0 <= i < 2 * n implies most.drop_last()[i] == hex_text(front)[i] by {
                assert(bytes[i / 2] == front[i / 2]);
            }
        }
        assert(most.last() == hex_digit((b / 16) as u8));
        assert(s.last() == hex_digit((b % 16) as u8));
        assert(hex_value(most.last()) == Some((b / 16) as nat));
        assert(hex_value(s.last()) == Some((b % 16) as nat));
        assert(hex_number(most) == Some(16 * number(front) + (b / 16) as nat));
        assert(hex_number(s) == Some(16 * (16 * number(front) + (b / 16) as nat) + (b % 16) as nat));
        assert(number(bytes) == 256 * number(front) + b as nat);
        assert(16 * (b / 16) + b % 16 == b);
    } else {
        assert(s == Seq::<char>::empty());
    }
}

/// Different bytes have different hexadecimal texts.
pub proof fn law_hex_injective(x: Seq<u8>, y: Seq<u8>)
    requires
        hex_text(x) == hex_text(y),
    ensures
        x == y,
{
    assert(hex_text(x).len() == 2 * x.len());
    assert(hex_text(y).len() == 2 * y.len());
    assert forall|i: int| 0 <= i < x.len() implies x[i] == y[i] by {
        lemma_hex_at(x, i);
        lemma_hex_at(y, i);
        lemma_hex_digit((x[i] / 16) as u8, (y[i] / 16) as u8);
        lemma_hex_digit((x[i] % 16) as u8, (y[i] % 16) as u8);
    }
    assert(x == y);
}

proof fn lemma_hex_at(bytes: Seq<u8>, i: int)
    requires
        0 <= i < bytes.len(),
    ensures
        hex_text(bytes)[2 * i] == hex_digit((bytes[i] / 16) as u8),
        hex_text(bytes)[2 * i + 1] == hex_digit((bytes[i] % 16) as u8),
{
    assert((2 * i) / 2 == i && (2 * i) % 2 == 0);
    assert((2 * i + 1) / 2 == i && (2 * i + 1) % 2 == 1);
}

proof fn lemma_hex_digit(u: u8, v: u8)
    requires
        u < 16,
        v < 16,
        hex_digit(u) == hex_digit(v),
    ensures
        u == v,
{
}

/// A hexadecimal text holds digits and the letters `a` to `f` alone.
pub proof fn lemma_hex_is_plain(bytes: Seq<u8>, i: int)
    requires
        0 <= i < hex_text(bytes).len(),
    ensures
        '0' <= hex_text(bytes)[i] <= '9' || 'a' <= hex_text(bytes)[i] <= 'f',
{
}

fn add32(x: u32, y: u32) -> (r: u32)
    ensures
        r == plus(x, y),
{
    x.wrapping_add(y)
}

/// The bytes with the end mark, the zero bytes and the length appended.
fn pad(data: &[u8]) -> (r: Vec<u8>)
    ensures
        r@ == padded(data@),
{
    let len: u64 = data.len() as u64;
    let bits: u64 = len.wrapping_mul(8);
    assert(bits == (data@.len() * 8) % 0x1_0000_0000_0000_0000);
    let mut message: Vec<u8> = vstd::slice::slice_to_vec(data);
    message.push(0x80);
    let ghost mut zeros: nat = 0;
    while message.len() % 64 != 56
        invariant
            zeros <= fill_len(data@.len()),
            message@ == data@ + seq![0x80u8] + Seq::new(zeros, |i: int| 0u8),
        decreases fill_len(data@.len()) - zeros,
    {
        let ghost before = message@;
        let ghost n = data@.len();
        assert(zeros < fill_len(n)) by {
            assert(message@.len() == n + 1 + zeros);
            assert(n == 64 * (n / 64) + n % 64);
        }
        message.push(0);
        proof {
            zeros = zeros + 1;
        }
        assert(message@ == data@ + seq![0x80u8] + Seq::new(zeros, |i: int| 0u8));
    }
    assert(zeros == fill_len(data@.len())) by {
        let n = data@.len();
        assert(message@.len() == n + 1 + zeros);
        assert(n == 64 * (n / 64) + n % 64);
    }
    let ghost stem = message@;
    let mut i: u64 = 0;
    while i < 8
        invariant
            i <= 8,
            message@ == stem + be64(bits).take(i as int),
        decreases 8 - i,
    {
        message.push((bits >> (56 - 8 * i)) as u8);
        assert(message@ == stem + be64(bits).take(i as int + 1));
        i = i + 1;
    }
    assert(be64(bits).take(8) == be64(bits));
    message
}

/// The eighty schedule words of a block.
fn expand(block: &[u8]) -> (r: Vec<u32>)
    requires
        block@.len() == 64,
    ensures
        r@.len() == 80,
        forall|t: int| 0 <= t < 80 ==> #[trigger] r@[t] == schedule(block@, t as nat),
{
    let mut w: Vec<u32> = Vec::new();
    let mut t: usize = 0;
    while t < 16
        invariant
            block@.len() == 64,
            t <= 16,
            w@.len() == t,
            forall|j: int| 0 <= j < t ==> #[trigger] w@[j] == schedule(block@, j as nat),
        decreases 16 - t,
    {
        let word: u32 = ((block[4 * t] as u32) << 24u32) | ((block[4 * t + 1] as u32) << 16u32) | ((
        block[4 * t + 2] as u32) << 8u32) | (block[4 * t + 3] as u32);
        w.push(word);
        t = t + 1;
    }
    while t < 80
        invariant
            16 <= t <= 80,
            w@.len() == t,
            forall|j: int| 0 <= j < t ==> #[trigger] w@[j] == schedule(block@, j as nat),
        decreases 80 - t,
    {
        let x: u32 = w[t - 3] ^ w[t - 8] ^ w[t - 14] ^ w[t - 16];
        let word: u32 = (x << 1u32) | (x >> 31u32);
        assert(word == schedule(block@, t as nat));
        w.push(word);
        t = t + 1;
    }
    w
}

/// One round.
fn step(s: Chain, t: usize, w: u32) -> (r: Chain)
    ensures
        r == round(s, t as nat, w),
{
    let f: u32 = if t < 20 {
        (s.b & s.c) | ((!s.b) & s.d)
    } else if t < 40 {
        s.b ^ s.c ^ s.d
    } else if t < 60 {
        (s.b & s.c) | (s.b & s.d) | (s.c & s.d)
    } else {
        s.b ^ s.c ^ s.d
    };
    let k: u32 = if t < 20 {
        0x5A827999
    } else if t < 40 {
        0x6ED9EBA1
    } else if t < 60 {
        0x8F1BBCDC
    } else {
        0xCA62C1D6
    };
    let turned: u32 = (s.a << 5u32) | (s.a >> 27u32);
    Chain {
        a: add32(add32(add32(add32(turned, f), s.e), k), w),
        b: s.a,
        c: (s.b << 30u32) | (s.b >> 2u32),
        d: s.c,
        e: s.d,
    }
}

/// The chaining words after one block.
fn take_block(s: Chain, block: &[u8]) -> (r: Chain)
    requires
        block@.len() == 64,
    ensures
        r == absorb(s, block@),
{
    let w = expand(block);
    let mut cur: Chain = s;
    let mut t: usize = 0;
    while t < 80
        invariant
            t <= 80,
            w@.len() == 80,
            forall|j: int| 0 <= j < 80 ==> #[trigger] w@[j] == schedule(block@, j as nat),
            cur == rounds(s, block@, t as nat),
        decreases 80 - t,
    {
        cur = step(cur, t, w[t]);
        t = t + 1;
    }
    Chain {
        a: add32(s.a, cur.a),
        b: add32(s.b, cur.b),
        c: add32(s.c, cur.c),
        d: add32(s.d, cur.d),
        e: add32(s.e, cur.e),
    }
}

/// The SHA-1 digest.
pub fn sha1(data: &[u8]) -> (r: [u8; 20])
    ensures
        r@ == sha1_digest(data@),
{
    let message = pad(data);
    let total: usize = message.len();
    let blocks: usize = total / 64;
    let mut h = Chain { a: 0x67452301, b: 0xEFCDAB89, c: 0x98BADCFE, d: 0x10325476, e: 0xC3D2E1F0 };
    let mut i: usize = 0;
    while i < blocks
        invariant
            i <= blocks,
            total == message@.len(),
            blocks == total / 64,
            h == absorb_all(message@, i as nat),
        decreases blocks - i,
    {
        let block = vstd::slice::slice_subrange(message.as_slice(), 64 * i, 64 * i + 64);
        h = take_block(h, block);
        i = i + 1;
    }
    let words: [u32; 5] = [h.a, h.b, h.c, h.d, h.e];
    let mut out: [u8; 20] = [0u8;20];
    let ghost digest = sha1_digest(data@);
    let mut k: usize = 0;
    while k < 20
        invariant
            k <= 20,
            words@ == seq![h.a, h.b, h.c, h.d, h.e],
            digest == be32(h.a) + be32(h.b) + be32(h.c) + be32(h.d) + be32(h.e),
            forall|j: int| 0 <= j < k ==> out@[j] == digest[j],
        decreases 20 - k,
    {
        let shift: u32 = 24 - 8 * ((k % 4) as u32);
        out[k] = (words[k / 4] >> shift) as u8;
        assert(digest[k as int] == be32(words@[k as int / 4])[k as int % 4]);
        k = k + 1;
    }
    assert(out@ == digest);
    out
}

fn digit(v: u8) -> (r: char)
    requires
        v < 16,
    ensures
        r == hex_digit(v),
{
    if v < 10 {
        (v + 48) as char
    } else {
        (v + 87) as char
    }
}

/// Two lower-case hexadecimal digits for each byte.
pub fn hex(bytes: &[u8]) -> (r: String)
    ensures
        r@ == hex_text(bytes@),
{
    let mut out = String::new();
    let mut i: usize = 0;
    while i < bytes.len()
        invariant
            i <= bytes@.len(),
            out@ == hex_text(bytes@).take(2 * i),
        decreases bytes@.len() - i,
    {
        let b: u8 = bytes[i];
        out.push(digit(b / 16));
        proof {
            lemma_hex_at(bytes@, i as int);
        }
        out.push(digit(b % 16));
        assert(out@ == hex_text(bytes@).take(2 * (i + 1)));
        i = i + 1;
    }
    assert(hex_text(bytes@).take(2 * i) == hex_text(bytes@));
    out
}

/// The digest in hexadecimal: forty digits.
pub fn sha1_hex(data: &[u8]) -> (r: String)
    ensures
        r@ == hex_text(sha1_digest(data@)),
        r@.len() == 40,
{
    let digest = sha1(data);
    proof {
        law_digest_len(data@);
    }
    hex(digest.as_slice())
}

} // verus!
