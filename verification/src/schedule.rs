use vstd::prelude::*;
use vstd::utf8::encode_utf8;
use vstd::arithmetic::div_mod::lemma_fundamental_div_mod;

verus! {

/// FNV-1a 64-bit offset basis.
pub const FNV_OFFSET: u64 = 0xcbf2_9ce4_8422_2325;

/// FNV-1a 64-bit prime.
pub const FNV_PRIME: u64 = 0x0000_0100_0000_01b3;

/// FNV-1a over a byte sequence: start at the offset basis, then for every
/// byte xor it in and multiply by the prime, modulo 2^64.
pub open spec fn fnv1a64_bytes(bytes: Seq<u8>) -> u64
    decreases bytes.len(),
{
    if bytes.len() == 0 {
        FNV_OFFSET
    } else {
        (fnv1a64_bytes(bytes.drop_last()) ^ (bytes.last() as u64)).wrapping_mul(FNV_PRIME)
    }
}

/// The hash of a string is the hash of its UTF-8 encoding.
pub open spec fn fnv1a64_spec(s: Seq<char>) -> u64 {
    fnv1a64_bytes(encode_utf8(s))
}

/// The polling slot of a token: its hash shifted by the token's stored random
/// value (both taken modulo 2^64), reduced modulo the period.
pub open spec fn slot_spec(token: Seq<char>, rand: i64, n: u64) -> u64
    recommends
        n > 0,
{
    (fnv1a64_spec(token).wrapping_add(rand as u64)) % n
}

/// A token is due on the ticks whose residue modulo the period is its slot.
pub open spec fn is_due_spec(tick: u64, token: Seq<char>, rand: i64, n: u64) -> bool {
    n != 0 && tick % n == slot_spec(token, rand, n)
}

/// FNV-1a 64-bit hash of the UTF-8 bytes of `s`. Deterministic across runs.
pub fn fnv1a64(s: &str) -> (h: u64)
    ensures
        h == fnv1a64_spec(s@),
{
    let bytes = s.as_bytes();
    let mut h: u64 = FNV_OFFSET;
    let mut i: usize = 0;
    while i < bytes.len()
        invariant
            bytes@ == encode_utf8(s@),
            0 <= i <= bytes@.len(),
            h == fnv1a64_bytes(bytes@.take(i as int)),
        decreases bytes@.len() - i,
    {
        let b = bytes[i];
        assert(bytes@.take(i as int + 1).drop_last() =~= bytes@.take(i as int));
        h = (h ^ (b as u64)).wrapping_mul(FNV_PRIME);
        i = i + 1;
    }
    assert(bytes@.take(i as int) =~= bytes@);
    h
}

/// Slot in `0..n` for a token, de-synchronized by its stored random value.
pub fn slot(token: &str, rand: i64, n: u64) -> (s: u64)
    requires
        n > 0,
    ensures
        s == slot_spec(token@, rand, n),
        s < n,
{
    fnv1a64(token).wrapping_add(rand as u64) % n
}

/// True on exactly one tick per `n` ticks for a given token; never when `n` is 0.
pub fn is_due(tick: u64, token: &str, rand: i64, n: u64) -> (due: bool)
    ensures
        due == is_due_spec(tick, token@, rand, n),
{
    n != 0 && tick % n == slot(token, rand, n)
}

/// The hash, the slot and the due test depend on their arguments alone, and
/// the slot lies in `0..n`.
pub proof fn lemma_slot_in_range(token: Seq<char>, rand: i64, n: u64)
    requires
        n > 0,
    ensures
        slot_spec(token, rand, n) < n,
{
}

/// Every window of `n` consecutive ticks holds exactly one tick on which a
/// token is due.
pub proof fn lemma_due_exactly_once_per_period(token: Seq<char>, rand: i64, n: u64, start: int)
    requires
        n > 0,
        0 <= start,
        start + n <= u64::MAX + 1,
    ensures
        exists|t: u64| start <= t < start + n && is_due_spec(t, token, rand, n),
        forall|t1: u64, t2: u64|
            start <= t1 < start + n && start <= t2 < start + n && is_due_spec(t1, token, rand, n)
                && is_due_spec(t2, token, rand, n) ==> t1 == t2,
{
    let s = slot_spec(token, rand, n) as int;
    let nn = n as int;
    let q = start / nn;
    let r = start % nn;
    lemma_fundamental_div_mod(start, nn);
    assert(0 <= r < nn);
    let t: int = if s >= r { start + (s - r) } else { start + (nn - r) + s };
    assert(start <= t < start + nn);
    let qt: int = if s >= r { q } else { q + 1 };
    assert(t == qt * nn + s) by (nonlinear_arith)
        requires
            start == nn * q + r,
            t == (if s >= r { start + (s - r) } else { start + (nn - r) + s }),
            qt == (if s >= r { q } else { q + 1 }),
    ;
    assert(t % nn == s) by {
        vstd::arithmetic::div_mod::lemma_mod_multiples_vanish(qt, s, nn);
        vstd::arithmetic::div_mod::lemma_small_mod(s as nat, nn as nat);
        assert(nn * qt == qt * nn) by (nonlinear_arith);
    }
    let tt = t as u64;
    assert(is_due_spec(tt, token, rand, n));
    assert forall|t1: u64, t2: u64|
        start <= t1 < start + n && start <= t2 < start + n && is_due_spec(t1, token, rand, n)
            && is_due_spec(t2, token, rand, n) implies t1 == t2 by {
        lemma_fundamental_div_mod(t1 as int, nn);
        lemma_fundamental_div_mod(t2 as int, nn);
        let q1 = (t1 as int) / nn;
        let q2 = (t2 as int) / nn;
        assert(q1 == q2) by (nonlinear_arith)
            requires
                t1 == nn * q1 + s,
                t2 == nn * q2 + s,
                start <= t1 < start + nn,
                start <= t2 < start + nn,
                nn > 0,
        ;
    }
}

} // verus!
