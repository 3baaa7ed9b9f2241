//! The prime table: a bit-packed sieve of Eratosthenes over odd numbers.
use vstd::arithmetic::div_mod::*;
use vstd::arithmetic::mul::*;
use vstd::prelude::*;

use crate::bits::{bitmap_bit, lemma_bitmap_set, lemma_index_split, lemma_mask_test};

verus! {

/// `n` is a prime number.
pub open spec fn is_prime(n: int) -> bool {
    n >= 2 && forall|d: int| 2 <= d < n ==> #[trigger] (n % d) != 0
}

/// The odd primes `p` with `3 <= p <= n`, in increasing order.
pub open spec fn odd_primes_upto(n: int) -> Seq<u32>
    decreases n,
{
    if n < 3 {
        seq![]
    } else if n % 2 == 1 && is_prime(n) {
        odd_primes_upto(n - 1).push(n as u32)
    } else {
        odd_primes_upto(n - 1)
    }
}

/// The table that `generate_prime_table(limit)` returns: empty below 2,
/// otherwise `1`, `2`, then every odd prime up to and including `limit`.
pub open spec fn prime_table(limit: int) -> Seq<u32> {
    if limit < 2 {
        seq![]
    } else {
        seq![1u32, 2u32] + odd_primes_upto(limit)
    }
}

/// `q` is a sieving prime factor of the odd number `2 * idx + 1`:
/// it divides it and `q * q` does not exceed it.
pub open spec fn sieved_by(idx: int, q: int) -> bool {
    q * q <= 2 * idx + 1 && (2 * idx + 1) % q == 0
}

/// The least divisor of `n` that is at least `d` (`n` itself when none is smaller).
pub open spec fn least_divisor_from(n: int, d: int) -> int
    decreases n - d,
{
    if d >= n || d <= 0 {
        n
    } else if n % d == 0 {
        d
    } else {
        least_divisor_from(n, d + 1)
    }
}

proof fn lemma_least_divisor_from(n: int, d: int)
    requires
        n >= 2,
        1 <= d <= n,
    ensures
        d <= least_divisor_from(n, d) <= n,
        n % least_divisor_from(n, d) == 0,
        forall|e: int| d <= e < least_divisor_from(n, d) ==> #[trigger] (n % e) != 0,
    decreases n - d,
{
    lemma_mod_self_0(n);
    if d < n && n % d != 0 {
        lemma_least_divisor_from(n, d + 1);
    }
}

proof fn lemma_divides_trans(n: int, q: int, e: int)
    requires
        n > 0,
        q > 0,
        e > 0,
        n % q == 0,
        q % e == 0,
    ensures
        n % e == 0,
{
    lemma_fundamental_div_mod(n, q);
    lemma_fundamental_div_mod(q, e);
    let a = n / q;
    let b = q / e;
    assert(n == e * (b * a)) by {
        lemma_mul_is_associative(e, b, a);
    }
    lemma_mod_multiples_basic(b * a, e);
    lemma_mul_is_commutative(e, b * a);
}

/// Every odd number `n >= 3` that is not prime has an odd prime factor `q`
/// with `q * q <= n`.
pub proof fn lemma_composite_has_small_prime_factor(n: int)
    requires
        n >= 3,
        n % 2 == 1,
        !is_prime(n),
    ensures
        exists|q: int| 3 <= q && is_prime(q) && q * q <= n && #[trigger] (n % q) == 0,
{
    let q = least_divisor_from(n, 2);
    lemma_least_divisor_from(n, 2);
    let e = choose|e: int| 2 <= e < n && #[trigger] (n % e) == 0;
    assert(q <= e);
    assert(q != 2) by {
        if q == 2 {
            assert(n % 2 == 0);
        }
    }
    assert forall|d: int| 2 <= d < q implies #[trigger] (q % d) != 0 by {
        if q % d == 0 {
            lemma_divides_trans(n, q, d);
            assert(n % d != 0);
        }
    }
    assert(is_prime(q));
    let k = n / q;
    lemma_fundamental_div_mod(n, q);
    assert(n == q * k);
    assert(k >= 2) by {
        if k <= 1 {
            lemma_mul_inequality(k, 1, q);
        }
    }
    assert(n % k == 0) by {
        lemma_mod_multiples_basic(q, k);
        lemma_mul_is_commutative(q, k);
    }
    assert(k >= q) by {
        if k < q {
            assert(n % k != 0);
        }
    }
    assert(q * q <= n) by {
        lemma_mul_inequality(q, k, q);
        lemma_mul_is_commutative(q, k);
    }
    assert(n % q == 0);
}

/// The odd numbers `2 * idx + 1` between two consecutive odd multiples of an
/// odd `f` are not multiples of `f`.
proof fn lemma_no_multiple_between(m: int, f: int, idx: int)
    requires
        f >= 3,
        f % 2 == 1,
        m >= 0,
        (2 * m + 1) % f == 0,
        m < idx < m + f,
    ensures
        (2 * idx + 1) % f != 0,
{
    let t = idx - m;
    lemma_fundamental_div_mod(2 * m + 1, f);
    let a = (2 * m + 1) / f;
    assert(2 * idx + 1 == f * a + 2 * t);
    lemma_mod_multiples_vanish(a, 2 * t, f);
    if 2 * t < f {
        lemma_small_mod((2 * t) as nat, f as nat);
    } else {
        assert(2 * t != f);
        lemma_mod_sub_multiples_vanish(2 * t, f);
        lemma_small_mod((2 * t - f) as nat, f as nat);
    }
}

proof fn lemma_square_lt(a: int, b: int)
    requires
        0 <= a,
        0 <= b,
        a * a < b * b,
    ensures
        a < b,
{
    if a >= b {
        lemma_mul_inequality(b, a, b);
        lemma_mul_inequality(b, a, a);
        lemma_mul_is_commutative(b, a);
    }
}

/// Every prime in the table is at most `limit`, and every prime at most
/// `limit` is in it; besides primes the table holds only `1`.  The table
/// is strictly increasing.
pub proof fn lemma_prime_table_members(limit: int)
    requires
        limit <= u32::MAX,
    ensures
        forall|x: int|
            prime_table(limit).contains(x as u32) && 0 <= x <= u32::MAX ==> (x == 1 || (is_prime(
                x,
            ) && x <= limit)),
        forall|x: int|
            is_prime(x) && x <= limit && x <= u32::MAX ==> #[trigger] prime_table(limit).contains(
                x as u32,
            ),
        forall|i: int, j: int|
            0 <= i < j < prime_table(limit).len() ==> prime_table(limit)[i] < prime_table(
                limit,
            )[j],
{
    if limit >= 2 {
        lemma_odd_primes_upto(limit);
        let t = prime_table(limit);
        let o = odd_primes_upto(limit);
        assert(t == seq![1u32, 2u32] + o);
        assert forall|x: int| t.contains(x as u32) && 0 <= x <= u32::MAX implies (x == 1 || (
        is_prime(x) && x <= limit)) by {
            let k = choose|k: int| 0 <= k < t.len() && t[k] == x as u32;
            if k >= 2 {
                assert(o[k - 2] == t[k]);
            } else if k == 1 {
                assert(x == 2);
                assert(is_prime(2));
            }
        }
        assert forall|x: int| is_prime(x) && x <= limit && x <= u32::MAX implies #[trigger] t.contains(
            x as u32,
        ) by {
            if x == 2 {
                assert(t[1] == 2u32);
            } else {
                assert(x % 2 == 1) by {
                    assert(x % 2 != 0);
                }
                let k = choose|k: int| 0 <= k < o.len() && o[k] == x as u32;
                assert(t[k + 2] == x as u32);
            }
        }
        assert forall|i: int, j: int| 0 <= i < j < t.len() implies t[i] < t[j] by {
            if i >= 2 {
                assert(t[i] == o[i - 2] && t[j] == o[j - 2]);
            } else if j >= 2 {
                assert(t[j] == o[j - 2]);
                assert(o[j - 2] >= 3);
            }
        }
    }
}

proof fn lemma_odd_primes_upto(n: int)
    requires
        n <= u32::MAX,
    ensures
        forall|k: int|
            0 <= k < odd_primes_upto(n).len() ==> 3 <= #[trigger] odd_primes_upto(n)[k] <= n
                && is_prime(odd_primes_upto(n)[k] as int) && (odd_primes_upto(n)[k] as int) % 2
                == 1,
        forall|x: int|
            3 <= x <= n && x % 2 == 1 && is_prime(x) && x <= u32::MAX ==> exists|k: int|
                0 <= k < odd_primes_upto(n).len() && #[trigger] odd_primes_upto(n)[k] == x as u32,
        forall|i: int, j: int|
            0 <= i < j < odd_primes_upto(n).len() ==> odd_primes_upto(n)[i] < odd_primes_upto(
                n,
            )[j],
    decreases n,
{
    if n >= 3 {
        lemma_odd_primes_upto(n - 1);
        let prev = odd_primes_upto(n - 1);
        let cur = odd_primes_upto(n);
        if n % 2 == 1 && is_prime(n) {
            assert(cur == prev.push(n as u32));
            assert forall|x: int|
                3 <= x <= n && x % 2 == 1 && is_prime(x) && x <= u32::MAX implies exists|k: int|
                0 <= k < cur.len() && #[trigger] cur[k] == x as u32 by {
                if x == n {
                    assert(cur[prev.len() as int] == x as u32);
                } else {
                    let k = choose|k: int| 0 <= k < prev.len() && #[trigger] prev[k] == x as u32;
                    assert(cur[k] == x as u32);
                }
            }
        } else {
            assert(cur == prev);
            assert forall|x: int|
                3 <= x <= n && x % 2 == 1 && is_prime(x) && x <= u32::MAX implies exists|k: int|
                0 <= k < cur.len() && #[trigger] cur[k] == x as u32 by {
                assert(x != n);
                let k = choose|k: int| 0 <= k < prev.len() && #[trigger] prev[k] == x as u32;
                assert(cur[k] == x as u32);
            }
        }
    }
}

/// The largest table limit the sieve handles: `(2^32 - 3)^2`, so that the
/// odd sieving factors `f` and `(f + 2)^2` stay within `u64`.
pub const PRIME_TABLE_MAX: u64 = 0xffff_fffa_0000_0009;

/// Generate all primes up to `limit` using a sieve of Eratosthenes over the
/// odd numbers, one bit per odd number.
///
/// The table starts with `1` and `2`, then lists the odd primes up to and
/// including `limit`; it is empty when `limit < 2`.  Entries are kept as
/// `u32`, which holds every prime below `2^32`; a prime above that is kept
/// cut to its low 32 bits, as `as u32` cuts it.
pub fn generate_prime_table(limit: u64) -> (primes: Vec<u32>)
    requires
        limit <= PRIME_TABLE_MAX,
        limit / 128 + 1 <= usize::MAX,
    ensures
        primes@ == prime_table(limit as int),
{
    if limit < 2 {
        return Vec::new();
    }
    let half = limit >> 1u64;
    proof {
        lemma_index_split(limit);
    }
    let words: usize = (limit / 128 + 1) as usize;
    let mut composites: Vec<u64> = vec![0u64; words];
    assert forall|idx: int| 0 <= idx < composites@.len() * 64 implies !#[trigger] bitmap_bit(
        composites@,
        idx,
    ) by {
        assert(composites@[idx / 64] == 0u64);
        let b = (idx % 64) as u64;
        assert((0u64 >> b) & 1u64 == 0u64) by (bit_vector);
    }

    let mut f: u64 = 3;
    while f * f <= limit
        invariant
            2 <= limit <= PRIME_TABLE_MAX,
            half == limit / 2,
            words == limit / 128 + 1,
            composites@.len() == words,
            3 <= f <= 0xffff_ffffu64,
            f * f <= 0xffff_fffe_0000_0001u64,
            f % 2 == 1,
            forall|idx: int|
                0 <= idx < composites@.len() * 64 && #[trigger] bitmap_bit(composites@, idx)
                    ==> !is_prime(2 * idx + 1),
            forall|idx: int, q: int|
                0 <= idx <= half && 3 <= q < f && is_prime(q) && #[trigger] sieved_by(idx, q)
                    ==> bitmap_bit(composites@, idx),
        decreases 0xffff_ffffu64 - f,
    {
        assert(f <= 0xffff_fffdu64) by (nonlinear_arith)
            requires
                f * f <= PRIME_TABLE_MAX,
                f >= 3,
        ;
        assert((f + 2) * (f + 2) <= 0xffff_fffe_0000_0001u64) by (nonlinear_arith)
            requires
                f <= 0xffff_fffdu64,
                f >= 3,
        ;
        assert(f <= limit) by (nonlinear_arith)
            requires
                f >= 1,
                f * f <= limit,
        ;
        proof {
            lemma_index_split(f);
            lemma_index_split(limit);
            lemma_div_is_ordered(f as int, limit as int, 128);
            assert(2 * (f / 2) + 1 == f);
            lemma_mask_test(composites@[((f / 2) / 64) as int], ((f / 2) % 64) as u64);
        }
        if composites[(f >> 7u64) as usize] & (1u64 << ((f >> 1u64) & 63u64)) == 0 {
            // `f` is not marked, so it is prime or harmless to sieve with.
            assert(!bitmap_bit(composites@, (f / 2) as int));
            let ghost m0: int = (f * f) as int / 2;
            let mut m: u64 = (f * f) >> 1u64;
            proof {
                lemma_index_split((f * f) as u64);
                let a = f / 2;
                assert(f * f == 2 * (2 * a * a + 2 * a) + 1) by (nonlinear_arith)
                    requires
                        f == 2 * a + 1,
                ;
                assert(2 * m0 + 1 == f * f);
                lemma_mod_multiples_basic(f as int, f as int);
            }
            while m <= half
                invariant
                    2 <= limit <= PRIME_TABLE_MAX,
                    half == limit / 2,
                    words == limit / 128 + 1,
                    composites@.len() == words,
                    3 <= f <= 0xffff_fffdu64,
                    f % 2 == 1,
                    f * f <= limit,
                    2 * m0 + 1 == f * f,
                    m0 <= m <= half + f,
                    (2 * m + 1) % (f as int) == 0,
                    forall|idx: int|
                        0 <= idx < composites@.len() * 64 && #[trigger] bitmap_bit(
                            composites@,
                            idx,
                        ) ==> !is_prime(2 * idx + 1),
                    forall|idx: int, q: int|
                        0 <= idx <= half && 3 <= q < f && is_prime(q) && #[trigger] sieved_by(
                            idx,
                            q,
                        ) ==> bitmap_bit(composites@, idx),
                    forall|idx: int|
                        m0 <= idx < m && (2 * idx + 1) % (f as int) == 0 ==> #[trigger] bitmap_bit(
                            composites@,
                            idx,
                        ),
                decreases half + f - m,
            {
                proof {
                    lemma_index_split(m);
                }
                let k = (m >> 6u64) as usize;
                let ghost before = composites@;
                let w = composites[k];
                composites.set(k, w | (1u64 << (m & 63u64)));
                proof {
                    lemma_bitmap_set(before, composites@, m as int);
                    assert(!is_prime(2 * m + 1)) by {
                        assert((2 * m + 1) % (f as int) == 0);
                        assert(2 <= f < 2 * m + 1) by (nonlinear_arith)
                            requires
                                f >= 3,
                                2 * m + 1 >= f * f,
                        ;
                    }
                    assert forall|idx: int|
                        m0 <= idx < m + f && (2 * idx + 1) % (f as int) == 0 implies #[trigger] bitmap_bit(
                        composites@,
                        idx,
                    ) by {
                        if idx > m {
                            lemma_no_multiple_between(m as int, f as int, idx);
                        }
                    }
                    lemma_mod_add_multiples_vanish((2 * m + 1) as int, f as int);
                    lemma_mod_add_multiples_vanish((2 * m + 1 + f) as int, f as int);
                    assert(2 * (m + f) + 1 == (2 * m + 1) + f + f);
                }
                m = m + f;
            }
            proof {
                assert forall|idx: int, q: int|
                    0 <= idx <= half && 3 <= q < f + 2 && is_prime(q) && #[trigger] sieved_by(
                        idx,
                        q,
                    ) implies bitmap_bit(composites@, idx) by {
                    if q == f {
                        assert(idx >= m0);
                    } else if q == f + 1 {
                        assert(q % 2 == 0) by {
                            assert(((f + 1) as int) % 2 == 0);
                        }
                        assert(q % 2 != 0);
                    }
                }
            }
        } else {
            proof {
                assert(bitmap_bit(composites@, (f / 2) as int));
                assert(2 * (f / 2) + 1 == f);
                assert forall|idx: int, q: int|
                    0 <= idx <= half && 3 <= q < f + 2 && is_prime(q) && #[trigger] sieved_by(
                        idx,
                        q,
                    ) implies bitmap_bit(composites@, idx) by {
                    if q == f {
                        assert(!is_prime(q));
                    } else if q == f + 1 {
                        assert(((f + 1) as int) % 2 == 0);
                        assert(q % 2 != 0);
                    }
                }
            }
        }
        f = f + 2;
    }

    let mut primes: Vec<u32> = Vec::new();
    primes.push(1);
    primes.push(2);
    let mut i: u64 = 1;
    assert(odd_primes_upto(1) == Seq::<u32>::empty());
    assert(primes@ == seq![1u32, 2u32] + odd_primes_upto(1));
    while (i << 1u64) < limit
        invariant
            2 <= limit <= PRIME_TABLE_MAX,
            half == limit / 2,
            words == limit / 128 + 1,
            composites@.len() == words,
            f * f > limit,
            1 <= i,
            2 * i - 2 < limit,
            i <= half + 1,
            forall|idx: int|
                0 <= idx < composites@.len() * 64 && #[trigger] bitmap_bit(composites@, idx)
                    ==> !is_prime(2 * idx + 1),
            forall|idx: int, q: int|
                0 <= idx <= half && 3 <= q < f && is_prime(q) && #[trigger] sieved_by(idx, q)
                    ==> bitmap_bit(composites@, idx),
            primes@ == seq![1u32, 2u32] + odd_primes_upto(2 * i - 1),
        decreases limit - i,
    {
        assert(i << 1u64 == 2 * i) by (bit_vector)
            requires
                i < 0x8000_0000_0000_0000u64,
        ;
        proof {
            lemma_index_split(i);
            lemma_index_split(limit);
            lemma_div_is_ordered(i as int, half as int, 64);
            lemma_mask_test(composites@[(i / 64) as int], (i % 64) as u64);
        }
        let is_marked = composites[(i >> 6u64) as usize] & (1u64 << (i & 63u64)) != 0;
        let ghost n: int = 2 * i + 1;
        proof {
            assert(is_marked == bitmap_bit(composites@, i as int));
            if !is_marked && !is_prime(n) {
                lemma_composite_has_small_prime_factor(n);
                let q = choose|q: int| 3 <= q && is_prime(q) && q * q <= n && #[trigger] (n % q) == 0;
                assert(q * q < f * f);
                lemma_square_lt(q, f as int);
                assert(sieved_by(i as int, q));
            }
            assert(odd_primes_upto(n - 1) == odd_primes_upto(n - 2)) by {
                assert((n - 1) % 2 == 0);
            }
        }
        if !is_marked {
            primes.push(#[verifier::truncate] (((i << 1u64) + 1) as u32));
        }
        i = i + 1;
    }
    assert(i << 1u64 == 2 * i) by (bit_vector)
        requires
            i < 0x8000_0000_0000_0000u64,
    ;
    proof {
        if limit % 2 == 0 {
            assert(odd_primes_upto(limit as int) == odd_primes_upto(limit - 1));
        }
    }
    primes
}

/// The entries of the prime table whose product is the primorial `p_m#`:
/// the first `m + 1` entries of `prime_table(m * m + 1)` (the leading `1`,
/// then the first `m` primes), or the whole table when it is shorter.
pub open spec fn primorial_factors_spec(m: int) -> Seq<u32> {
    let t = prime_table(m * m + 1);
    if m + 1 <= t.len() {
        t.take(m + 1)
    } else {
        t
    }
}

/// The factors of the primorial `p_m#`, taken from the prime table up to
/// `m * m + 1` as the primorial computation does.
pub fn primorial_factors(m: u64) -> (factors: Vec<u32>)
    requires
        m * m + 1 <= PRIME_TABLE_MAX,
        (m * m + 1) / 128 + 1 <= usize::MAX,
    ensures
        factors@ == primorial_factors_spec(m as int),
{
    let table = generate_prime_table(m * m + 1);
    let mut factors: Vec<u32> = Vec::new();
    let mut k: usize = 0;
    while k < table.len() && (k as u64) <= m
        invariant
            table@ == prime_table(m * m + 1),
            k <= table@.len(),
            k <= m + 1,
            factors@ == table@.take(k as int),
        decreases table@.len() - k,
    {
        factors.push(table[k]);
        k = k + 1;
    }
    proof {
        if m + 1 <= table@.len() {
            assert(k == m + 1);
        } else {
            assert(k == table@.len());
            assert(table@.take(k as int) == table@);
        }
    }
    factors
}

proof fn lemma_odd_primes_prefix(a: int, b: int)
    requires
        a <= b,
    ensures
        odd_primes_upto(a).len() <= odd_primes_upto(b).len(),
        odd_primes_upto(a) == odd_primes_upto(b).take(odd_primes_upto(a).len() as int),
    decreases b - a,
{
    if a == b {
        assert(odd_primes_upto(a) =~= odd_primes_upto(a).take(odd_primes_upto(a).len() as int));
    } else {
        lemma_odd_primes_prefix(a, b - 1);
        let len = odd_primes_upto(a).len() as int;
        let prev = odd_primes_upto(b - 1);
        if b >= 3 && b % 2 == 1 && is_prime(b) {
            assert(odd_primes_upto(b) == prev.push(b as u32));
            assert(prev.push(b as u32).take(len) =~= prev.take(len));
        }
    }
}

/// The factors of the primorial `p_m#` start those of `p_(m+1)#`: going
/// from one primorial number to the next only appends table entries, so
/// the primorial grows by multiplication alone.
pub proof fn lemma_primorial_factors_extend(m: int)
    requires
        0 <= m,
    ensures
        primorial_factors_spec(m).len() <= primorial_factors_spec(m + 1).len(),
        primorial_factors_spec(m) == primorial_factors_spec(m + 1).take(
            primorial_factors_spec(m).len() as int,
        ),
{
    let a = m * m + 1;
    let b = (m + 1) * (m + 1) + 1;
    assert(a <= b) by (nonlinear_arith)
        requires
            0 <= m,
            a == m * m + 1,
            b == (m + 1) * (m + 1) + 1,
    ;
    let ta = prime_table(a);
    let tb = prime_table(b);
    let fa = primorial_factors_spec(m);
    let fb = primorial_factors_spec(m + 1);
    if a < 2 {
        assert(ta.len() == 0);
        assert(fa.len() == 0);
        assert(fa =~= fb.take(0));
    } else {
        lemma_odd_primes_prefix(a, b);
        let oa = odd_primes_upto(a);
        let ob = odd_primes_upto(b);
        assert(ta =~= tb.take(ta.len() as int)) by {
            assert forall|k: int| 0 <= k < ta.len() implies #[trigger] ta[k] == tb[k] by {
                if k >= 2 {
                    assert(oa[k - 2] == ob.take(oa.len() as int)[k - 2]);
                }
            }
        }
        assert(fa =~= fb.take(fa.len() as int)) by {
            assert forall|k: int| 0 <= k < fa.len() implies #[trigger] fa[k] == fb[k] by {
                assert(fa[k] == ta[k]);
                assert(fb[k] == tb[k]);
            }
        }
    }
}

} // verus!
