//! The hashing regime shared by every sketch: one deterministic, seeded
//! 64-bit hash, extended to an unbounded stream of per-row hashes by
//! appending a fixed sentinel byte, plus the power-of-two sizing helper.
use vstd::prelude::*;

use core::hash::Hasher;

verus! {

/// The byte appended to a key's bytes once per row to derive the next hash
/// of the restartable hash stream.
pub const SENTINEL: u8 = 123;

/// The 64-bit digest that the outside hash computes for a byte string.
pub uninterp spec fn xxh64(bytes: Seq<u8>) -> u64;

/// Relies on twox_hash::XxHash64 with seed 0: the digest is a function of
/// the hashed bytes alone.
#[verifier::external_body]
pub(crate) fn xxh64_bytes(bytes: &[u8]) -> (r: u64)
    ensures
        r == xxh64(bytes@),
{
    let mut h = twox_hash::XxHash64::with_seed(0);
    h.write(bytes);
    h.finish()
}

/// `k` copies of the sentinel byte.
pub open spec fn sentinels(k: nat) -> Seq<u8>
    decreases k,
{
    if k == 0 {
        Seq::empty()
    } else {
        sentinels((k - 1) as nat).push(SENTINEL)
    }
}

/// The hash that row `k` of a sketch sees for `key`: the digest of the key's
/// bytes followed by `k` sentinel bytes.  Row 0 sees the digest of the key
/// itself.
pub open spec fn row_hash(key: Seq<u8>, k: nat) -> u64 {
    xxh64(key + sentinels(k))
}

/// Whether `n` is a power of two.
pub open spec fn is_pow2(n: nat) -> bool
    decreases n,
{
    if n == 0 {
        false
    } else if n == 1 {
        true
    } else {
        n % 2 == 0 && is_pow2(n / 2)
    }
}

/// The smallest power of two that is at least `n` (and at least 1).
pub fn next_pow2(n: usize) -> (r: usize)
    requires
        n <= usize::MAX / 2 + 1,
    ensures
        is_pow2(r as nat),
        r >= n,
        r == 1 || r / 2 < n,
{
    let mut r: usize = 1;
    while r < n
        invariant
            n <= usize::MAX / 2 + 1,
            1 <= r,
            is_pow2(r as nat),
            r == 1 || r / 2 < n,
        decreases 2 * n - r,
    {
        r = r * 2;
    }
    r
}

/// The exponent of a power of two.
pub proof fn lemma_pow2_exponent(n: nat) -> (e: nat)
    requires
        is_pow2(n),
    ensures
        vstd::arithmetic::power2::pow2(e) == n,
    decreases n,
{
    if n == 1 {
        vstd::arithmetic::power2::lemma2_to64();
        0
    } else {
        let e0 = lemma_pow2_exponent(n / 2);
        vstd::arithmetic::power2::lemma_pow2_unfold(e0 + 1);
        assert(n == 2 * (n / 2));
        e0 + 1
    }
}

/// A quarter of a power of two (floored at one) is a power of two.
pub proof fn lemma_pow2_quarter(n: nat)
    requires
        is_pow2(n),
    ensures
        is_pow2(if n / 4 >= 1 {
            n / 4
        } else {
            1nat
        }),
    decreases n,
{
    if n == 1 || n == 2 {
    } else {
        assert(n % 2 == 0 && is_pow2(n / 2));
        if n / 2 == 1 {
            assert(n == 2);
        } else {
            assert((n / 2) % 2 == 0 && is_pow2(n / 4)) by {
                assert(is_pow2(n / 2));
                assert(n / 2 != 1 && n / 2 != 0);
                assert((n / 2) / 2 == n / 4) by (nonlinear_arith)
                    requires
                        n % 2 == 0,
                ;
            }
            assert(n / 4 >= 1);
        }
    }
}

} // verus!
