use homepage::sha1::{hex, sha1, sha1_hex};

#[test]
fn digest_of_nothing() {
    assert_eq!(sha1_hex(b""), "da39a3ee5e6b4b0d3255bfef95601890afd80709");
}

#[test]
fn digest_of_three_letters() {
    assert_eq!(sha1_hex(b"abc"), "a9993e364706816aba3e25717850c26c9cd0d89d");
}

#[test]
fn digest_over_two_blocks() {
    assert_eq!(
        sha1_hex(b"abcdbcdecdefdefgefghfghighijhijkijkljklmklmnlmnomnopnopq"),
        "84983e441c3bd26ebaae4aa1f95129e5e54670f1"
    );
}

#[test]
fn digest_at_the_edges_of_a_block() {
    assert_eq!(sha1_hex(&vec![b'a'; 55]), "c1c8bbdc22796e28c0e15163d20899b65621d65a");
    assert_eq!(sha1_hex(&vec![b'a'; 56]), "c2db330f6083854c99d4b5bfb6e8f29f201be699");
    assert_eq!(sha1_hex(&vec![b'a'; 64]), "0098ba824b5c16427bd7a1122a5a442a25ec644d");
}

#[test]
fn digest_of_an_origin() {
    assert_eq!(sha1_hex(b"https://example.com"), "327c3fda87ce286848a574982ddd0b7c7487f816");
}

#[test]
fn digest_has_twenty_bytes() {
    let d = sha1(b"abc");
    assert_eq!(d.len(), 20);
    assert_eq!(d[0], 0xa9);
    assert_eq!(d[19], 0x9d);
}

#[test]
fn hex_writes_two_digits_for_each_byte() {
    assert_eq!(hex(&[0x00, 0x0f, 0xa0, 0xff]), "000fa0ff");
    assert_eq!(hex(&[]), "");
}

#[test]
fn hex_tells_bytes_apart() {
    assert_ne!(hex(&[0x01, 0x10]), hex(&[0x11, 0x00]));
}
