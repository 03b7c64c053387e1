use tnt_delivery_bot::schedule::{fnv1a64, is_due, slot};

#[test]
fn hash_is_deterministic() {
    assert_eq!(fnv1a64("3abc128856"), fnv1a64("3abc128856"));
    assert_ne!(fnv1a64("a"), fnv1a64("b"));
}

#[test]
fn slot_in_range() {
    for n in [1u64, 12, 60] {
        let s = slot("3abc128856", 42, n);
        assert!(s < n);
    }
}

#[test]
fn due_exactly_once_per_period() {
    let n = 12;
    let token = "3abc128856";
    let rand = 12345;
    let hits: usize = (0..n).filter(|t| is_due(*t, token, rand, n)).count();
    assert_eq!(hits, 1, "exactly one due tick per period");
}

#[test]
fn random_desynchronizes_tokens() {
    let a = slot("same-token", 1, 12);
    let b = slot("same-token", 7, 12);
    assert_ne!(a, b);
}

#[test]
fn fnv_known_values() {
    // Reference values of 64-bit FNV-1a.
    assert_eq!(fnv1a64(""), 0xcbf2_9ce4_8422_2325);
    assert_eq!(fnv1a64("a"), 0xaf63_dc4c_8601_ec8c);
    assert_eq!(fnv1a64("foobar"), 0x8594_4171_f739_67e8);
}

#[test]
fn fnv_hashes_utf8_bytes() {
    // "é" is two UTF-8 bytes: 0xc3 0xa9.
    let mut h: u64 = 0xcbf2_9ce4_8422_2325;
    for b in [0xc3u8, 0xa9] {
        h ^= b as u64;
        h = h.wrapping_mul(0x0000_0100_0000_01b3);
    }
    assert_eq!(fnv1a64("é"), h);
}

#[test]
fn slot_adds_rand_modulo_two_pow_64() {
    let h = fnv1a64("tok");
    assert_eq!(slot("tok", -1, 1000), h.wrapping_add(u64::MAX) % 1000);
    assert_eq!(slot("tok", 5, 7), h.wrapping_add(5) % 7);
}

#[test]
fn never_due_with_zero_period() {
    for t in 0..50u64 {
        assert!(!is_due(t, "tok", 3, 0));
    }
}

#[test]
fn due_once_in_every_window() {
    let n = 60u64;
    for start in [0u64, 7, 59, 1000, u64::MAX - n + 1] {
        let hits = (0..n).filter(|k| is_due(start + k, "3abc128856", -42, n)).count();
        assert_eq!(hits, 1);
    }
}
