use conject_macro::hash::{fnv, string_key, FNV_OFFSET_BASIS_128};

fn fold(data: &[u8], prime: u128) -> u128 {
    let mut h = FNV_OFFSET_BASIS_128;
    for &b in data {
        h ^= b as u128;
        h = h.wrapping_mul(prime);
    }
    h
}

#[test]
fn fnv_of_nothing_is_the_offset_basis() {
    assert_eq!(fnv(b""), 0x6c62272e07bb014262b821756295c58du128.to_be_bytes());
}

#[test]
fn fnv_uses_the_64_bit_prime() {
    for data in [&b"a"[..], b"lib1::Module", b"my::very::special_crate_123::Module456<Complex>"] {
        assert_eq!(fnv(data), fold(data, 0x00000100000001b3).to_be_bytes());
    }
}

#[test]
fn fnv_of_a_single_byte() {
    let expected = ((0x6c62272e07bb014262b821756295c58du128 ^ 0x61).wrapping_mul(0x100000001b3)).to_be_bytes();
    assert_eq!(fnv(b"a"), expected);
}

#[test]
fn fnv_differs_for_different_inputs() {
    assert_ne!(fnv(b"lib1::Module1"), fnv(b"lib1::Module2"));
}

#[test]
fn string_key_is_fnv1a_128() {
    assert_eq!(string_key(""), 0x6c62272e07bb014262b821756295c58d);
    assert_eq!(string_key("a"), 0xd228cb696f1a8caf78912b704e4a8964);
    assert_eq!(string_key("db_url"), fold(b"db_url", 0x0000000001000000000000000000013B));
}

#[test]
fn string_key_matches_the_hash_crate() {
    for s in ["db_url", "cache_url", "fallback_url", ""] {
        assert_eq!(string_key(s), const_fnv1a_hash::fnv1a_hash_128(s.as_bytes(), None));
    }
}
