//! The per-target sieve: for every sieving prime and every element of the
//! constellation pattern, the positions `f` at which that prime divides
//! `first_candidate + primorial * f + pattern[k]` are marked in a bitmap of
//! `SIEVE_SIZE` positions.
use vstd::arithmetic::div_mod::*;
use vstd::arithmetic::mul::*;
use vstd::prelude::*;

use crate::bits::{bitmap_bit, lemma_bitmap_set, lemma_index_split, word_bit};
use crate::config::{half_pattern_spec, Config};

verus! {

/// log2 of the number of positions in one sieve.
pub const SIEVE_BITS: u32 = 25;

/// Number of positions in one sieve (`1 << SIEVE_BITS`).
pub const SIEVE_SIZE: usize = 33554432;

/// Number of 64-bit words in the sieve bitmap (`SIEVE_SIZE / 64`).
pub const SIEVE_WORDS: usize = 524288;

/// Number of entries of the write-combining cache used while marking.
pub const MARK_CACHE_SIZE: usize = 32;

/// Scratch storage reused from one target to the next.
pub struct WorkBuffers {
    /// For each (prime index, pattern element) slot, the next position to mark.
    pub factors_to_eliminate: Vec<u32>,
    /// The sieve bitmap: a set bit marks a position known to be composite.
    pub factors_table: Vec<u64>,
}

impl WorkBuffers {
    /// Zeroed buffers for a pattern of `pattern_len` elements and `num_primes`
    /// sieving primes.
    pub fn new(pattern_len: usize, num_primes: usize) -> (bufs: Self)
        requires
            pattern_len * num_primes <= usize::MAX,
        ensures
            bufs.factors_to_eliminate@.len() == pattern_len * num_primes,
            forall|q: int|
                0 <= q < bufs.factors_to_eliminate@.len() ==> #[trigger] bufs.factors_to_eliminate@[q]
                    == 0,
            bufs.factors_table@.len() == SIEVE_WORDS,
            forall|w: int|
                0 <= w < bufs.factors_table@.len() ==> #[trigger] bufs.factors_table@[w] == 0,
    {
        let factors_to_eliminate = vec![0u32; pattern_len * num_primes];
        let factors_table = vec![0u64; SIEVE_WORDS];
        WorkBuffers { factors_to_eliminate, factors_table }
    }

    /// Zero both buffers, keeping their lengths.
    pub fn reset_sieve(&mut self)
        ensures
            final(self).factors_to_eliminate@.len() == old(self).factors_to_eliminate@.len(),
            forall|q: int|
                0 <= q < final(self).factors_to_eliminate@.len()
                    ==> #[trigger] final(self).factors_to_eliminate@[q] == 0,
            final(self).factors_table@.len() == old(self).factors_table@.len(),
            forall|w: int|
                0 <= w < final(self).factors_table@.len() ==> #[trigger] final(self).factors_table@[w]
                    == 0,
    {
        let n = self.factors_to_eliminate.len();
        let mut q: usize = 0;
        while q < n
            invariant
                n == self.factors_to_eliminate@.len(),
                n == old(self).factors_to_eliminate@.len(),
                self.factors_table@ == old(self).factors_table@,
                q <= n,
                forall|r: int| 0 <= r < q ==> #[trigger] self.factors_to_eliminate@[r] == 0,
            decreases n - q,
        {
            self.factors_to_eliminate.set(q, 0);
            q = q + 1;
        }
        let nw = self.factors_table.len();
        let mut w: usize = 0;
        while w < nw
            invariant
                n == self.factors_to_eliminate@.len(),
                forall|r: int| 0 <= r < n ==> #[trigger] self.factors_to_eliminate@[r] == 0,
                nw == self.factors_table@.len(),
                nw == old(self).factors_table@.len(),
                w <= nw,
                forall|r: int| 0 <= r < w ==> #[trigger] self.factors_table@[r] == 0,
            decreases nw - w,
        {
            self.factors_table.set(w, 0);
            w = w + 1;
        }
    }
}

/// The multiple of the inverse that `compute_mi` keeps at position `h`:
/// `inv` itself for `h == 0`, otherwise `2 * h * inv` reduced modulo `p`.
pub open spec fn mi_spec(inv: int, p: int, h: int) -> int {
    if h == 0 {
        inv
    } else {
        (2 * h * inv) % p
    }
}

/// Multiples of the inverse `inverses[i]` modulo `p` used to step from one
/// pattern element to the next: `[inv, 2 inv, 4 inv, 6 inv]` (mod `p`).
pub fn compute_mi(inverses: &[u64], p: u64, i: usize) -> (mi: [u64; 4])
    requires
        i < inverses@.len(),
        inverses@[i as int] < p,
        p <= 0x8000_0000_0000_0000u64,
    ensures
        forall|h: int| 0 <= h < 4 ==> #[trigger] mi@[h] == mi_spec(inverses@[i as int] as int, p as int, h),
        forall|h: int| 0 <= h < 4 ==> #[trigger] mi@[h] < p,
{
    let m0 = inverses[i];
    proof {
        assert(m0 << 1u64 == 2 * m0) by (bit_vector)
            requires
                m0 < 0x8000_0000_0000_0000u64,
        ;
    }
    let mut m1 = m0 << 1u64;
    if m1 >= p {
        m1 = m1 - p;
    }
    proof {
        assert(m1 == (2 * m0) % (p as int)) by {
            if 2 * m0 >= p {
                lemma_fundamental_div_mod_converse((2 * m0) as int, p as int, 1, (2 * m0 - p) as int);
            } else {
                lemma_small_mod((2 * m0) as nat, p as nat);
            }
        }
        assert(m1 << 1u64 == 2 * m1) by (bit_vector)
            requires
                m1 < 0x8000_0000_0000_0000u64,
        ;
    }
    let mut m2 = m1 << 1u64;
    if m2 >= p {
        m2 = m2 - p;
    }
    proof {
        assert(m2 == (2 * m1) % (p as int)) by {
            if 2 * m1 >= p {
                lemma_fundamental_div_mod_converse((2 * m1) as int, p as int, 1, (2 * m1 - p) as int);
            } else {
                lemma_small_mod((2 * m1) as nat, p as nat);
            }
        }
        lemma_mul_mod_noop_right(2, (2 * m0) as int, p as int);
        assert(m2 == (4 * m0) % (p as int));
    }
    let mut m3 = m1 + m2;
    if m3 >= p {
        m3 = m3 - p;
    }
    proof {
        assert(m3 == (m1 + m2) % (p as int)) by {
            if m1 + m2 >= p {
                lemma_fundamental_div_mod_converse((m1 + m2) as int, p as int, 1, (m1 + m2 - p) as int);
            } else {
                lemma_small_mod((m1 + m2) as nat, p as nat);
            }
        }
        lemma_add_mod_noop((2 * m0) as int, (4 * m0) as int, p as int);
        assert(m3 == (6 * m0) % (p as int));
    }
    let mi = [m0, m1, m2, m3];
    assert(mi@[0] == m0 && mi@[1] == m1 && mi@[2] == m2 && mi@[3] == m3);
    mi
}

/// The value that marks an entry of the write-combining cache as empty; it
/// lies outside the sieve, so every position `0..SIEVE_SIZE` can be cached.
pub const CACHE_EMPTY: u32 = 0xffff_ffff;

/// An entry of the write-combining cache: a sieve position, or empty.
pub open spec fn cache_entry_ok(e: u32) -> bool {
    e < SIEVE_SIZE || e == CACHE_EMPTY
}

/// Position `j` of the sieve is marked, either in the bitmap or as a
/// pending entry of the write-combining cache.
pub open spec fn covered(table: Seq<u64>, cache: Seq<u32>, j: int) -> bool {
    bitmap_bit(table, j) || cache.contains(j as u32)
}

/// Mark the arithmetic progression `start, start + p, ...` below
/// `SIEVE_SIZE` through the write-combining cache, and return the first
/// element of the progression at or above `SIEVE_SIZE`.
fn mark_progression(
    table: &mut Vec<u64>,
    cache: &mut Vec<u32>,
    cache_pos: &mut usize,
    start: u32,
    p: u32,
) -> (end: u32)
    requires
        old(table)@.len() == SIEVE_WORDS,
        old(cache)@.len() == MARK_CACHE_SIZE,
        *old(cache_pos) < MARK_CACHE_SIZE,
        forall|c: int| 0 <= c < MARK_CACHE_SIZE ==> cache_entry_ok(#[trigger] old(cache)@[c]),
        start < p,
        p + SIEVE_SIZE <= u32::MAX,
    ensures
        final(table)@.len() == SIEVE_WORDS,
        final(cache)@.len() == MARK_CACHE_SIZE,
        *final(cache_pos) < MARK_CACHE_SIZE,
        forall|c: int| 0 <= c < MARK_CACHE_SIZE ==> cache_entry_ok(#[trigger] final(cache)@[c]),
        forall|j: int|
            0 <= j < SIEVE_SIZE ==> #[trigger] covered(final(table)@, final(cache)@, j) == (covered(
                old(table)@,
                old(cache)@,
                j,
            ) || j % (p as int) == start),
        SIEVE_SIZE <= end < SIEVE_SIZE + p,
        end % p == start,
{
    let mut ent = start;
    proof {
        lemma_small_mod(start as nat, p as nat);
        assert forall|j: int| 0 <= j < start implies #[trigger] (j % (p as int)) != start by {
            lemma_small_mod(j as nat, p as nat);
        }
    }
    while ent < SIEVE_SIZE as u32
        invariant
            table@.len() == SIEVE_WORDS,
            cache@.len() == MARK_CACHE_SIZE,
            *cache_pos < MARK_CACHE_SIZE,
            forall|c: int| 0 <= c < MARK_CACHE_SIZE ==> cache_entry_ok(#[trigger] cache@[c]),
            start < p,
            p + SIEVE_SIZE <= u32::MAX,
            start <= ent < SIEVE_SIZE + p,
            ent % p == start,
            forall|j: int|
                0 <= j < SIEVE_SIZE ==> #[trigger] covered(table@, cache@, j) == (covered(
                    old(table)@,
                    old(cache)@,
                    j,
                ) || (j < ent && j % (p as int) == start)),
        decreases SIEVE_SIZE + p - ent,
    {
        let pos = *cache_pos;
        let old_entry = cache[pos];
        let ghost table_before = table@;
        let ghost cache_before = cache@;
        if old_entry != CACHE_EMPTY {
            proof {
                lemma_index_split(old_entry as u64);
            }
            let k = (old_entry >> 6u32) as usize;
            let w = table[k];
            table.set(k, w | (1u64 << (old_entry & 63u32)));
            proof {
                assert((old_entry & 63u32) as u64 == (old_entry as u64) & 63u64) by (bit_vector);
                assert((old_entry >> 6u32) as u64 == (old_entry as u64) >> 6u64) by (bit_vector);
                lemma_bitmap_set(table_before, table@, old_entry as int);
            }
        }
        cache.set(pos, ent);
        proof {
            let next: usize = (pos + 1) as usize;
            assert(next & 31usize == next % 32) by (bit_vector)
                requires
                    next <= 32,
            ;
            assert forall|j: int| 0 <= j < SIEVE_SIZE implies #[trigger] covered(table@, cache@, j)
                == (covered(table_before, cache_before, j) || j == ent) by {
                if cache_before.contains(j as u32) {
                    let c = choose|c: int| 0 <= c < cache_before.len() && cache_before[c] == j as u32;
                    if c != pos {
                        assert(cache@[c] == j as u32);
                    } else {
                        assert(bitmap_bit(table@, j));
                    }
                }
                if cache@.contains(j as u32) && j != ent {
                    let c = choose|c: int| 0 <= c < cache@.len() && cache@[c] == j as u32;
                    assert(c != pos);
                    assert(cache_before[c] == j as u32);
                }
                if j == ent {
                    assert(cache@[pos as int] == j as u32);
                }
                if bitmap_bit(table@, j) && !bitmap_bit(table_before, j) {
                    assert(j == old_entry);
                    assert(cache_before[pos as int] == j as u32);
                }
            }
            assert forall|j: int| 0 <= j < SIEVE_SIZE && ent < j < ent + p
                implies #[trigger] (j % (p as int)) != start by {
              if j % (p as int) == start {
                lemma_fundamental_div_mod(j, p as int);
                lemma_fundamental_div_mod(ent as int, p as int);
                let a = j / (p as int);
                let b = (ent as int) / (p as int);
                assert(j - ent == p * (a - b)) by {
                    lemma_mul_is_distributive_sub(p as int, a, b);
                }
                if a - b >= 1 {
                    lemma_mul_inequality(1, a - b, p as int);
                    lemma_mul_is_commutative(p as int, a - b);
                } else {
                    lemma_mul_inequality(a - b, 0, p as int);
                    lemma_mul_is_commutative(p as int, a - b);
                }
              }
            }
            lemma_mod_add_multiples_vanish(ent as int, p as int);
        }
        *cache_pos = (pos + 1) & 31usize;
        ent = ent + p;
    }
    ent
}

/// Write every pending (non-empty) cache entry into the bitmap.
fn flush_cache(table: &mut Vec<u64>, cache: &Vec<u32>)
    requires
        old(table)@.len() == SIEVE_WORDS,
        cache@.len() == MARK_CACHE_SIZE,
        forall|c: int| 0 <= c < MARK_CACHE_SIZE ==> cache_entry_ok(#[trigger] cache@[c]),
    ensures
        final(table)@.len() == SIEVE_WORDS,
        forall|j: int|
            0 <= j < SIEVE_SIZE ==> #[trigger] bitmap_bit(final(table)@, j) == covered(
                old(table)@,
                cache@,
                j,
            ),
{
    let mut c: usize = 0;
    while c < MARK_CACHE_SIZE
        invariant
            table@.len() == SIEVE_WORDS,
            cache@.len() == MARK_CACHE_SIZE,
            forall|c: int| 0 <= c < MARK_CACHE_SIZE ==> cache_entry_ok(#[trigger] cache@[c]),
            c <= MARK_CACHE_SIZE,
            forall|j: int|
                0 <= j < SIEVE_SIZE ==> #[trigger] bitmap_bit(table@, j) == (bitmap_bit(
                    old(table)@,
                    j,
                ) || cache@.subrange(0, c as int).contains(j as u32)),
        decreases MARK_CACHE_SIZE - c,
    {
        let entry = cache[c];
        let ghost table_before = table@;
        if entry != CACHE_EMPTY {
            proof {
                lemma_index_split(entry as u64);
            }
            let k = (entry >> 6u32) as usize;
            let w = table[k];
            table.set(k, w | (1u64 << (entry & 63u32)));
            proof {
                assert((entry & 63u32) as u64 == (entry as u64) & 63u64) by (bit_vector);
                assert((entry >> 6u32) as u64 == (entry as u64) >> 6u64) by (bit_vector);
                lemma_bitmap_set(table_before, table@, entry as int);
            }
        }
        proof {
            let before = cache@.subrange(0, c as int);
            let after = cache@.subrange(0, c + 1);
            assert(after == before.push(entry));
            assert forall|j: int| 0 <= j < SIEVE_SIZE implies #[trigger] bitmap_bit(table@, j) == (
            bitmap_bit(old(table)@, j) || after.contains(j as u32)) by {
                if after.contains(j as u32) && !before.contains(j as u32) {
                    let d = choose|d: int| 0 <= d < after.len() && after[d] == j as u32;
                    if d < before.len() {
                        assert(before[d] == j as u32);
                    }
                }
                if before.contains(j as u32) {
                    let d = choose|d: int| 0 <= d < before.len() && before[d] == j as u32;
                    assert(after[d] == j as u32);
                }
                if j as u32 == entry {
                    assert(after[c as int] == j as u32);
                }
            }
        }
        c = c + 1;
    }
    assert(cache@.subrange(0, MARK_CACHE_SIZE as int) == cache@);
}

/// The first position `f >= 0` that the sieve marks for pattern element `k`,
/// as the code computes it: `(p - r) * inv` for the first element, then one
/// step back by `mi_spec(inv, p, half[k])` per further element (mod `p`).
pub open spec fn sieve_start(r: int, inv: int, p: int, half: Seq<u64>, k: int) -> int
    decreases k,
{
    if k <= 0 {
        ((p - r) * inv) % p
    } else {
        (sieve_start(r, inv, p, half, k - 1) - mi_spec(inv, p, half[k] as int)) % p
    }
}

/// The prime of slot `q`; slot `q` stands for prime index `q / t` and
/// pattern element `q % t`.
pub open spec fn slot_prime(primes: Seq<u64>, t: int, q: int) -> int {
    primes[q / t] as int
}

/// The first marked position of slot `q`.
pub open spec fn slot_start(
    residues: Seq<u64>,
    inverses: Seq<u64>,
    primes: Seq<u64>,
    half: Seq<u64>,
    t: int,
    q: int,
) -> int {
    sieve_start(residues[q / t] as int, inverses[q / t] as int, primes[q / t] as int, half, q % t)
}

/// Some active slot in `[lo, hi)` marks position `j`.
pub open spec fn sieve_hit(
    residues: Seq<u64>,
    inverses: Seq<u64>,
    primes: Seq<u64>,
    half: Seq<u64>,
    t: int,
    lo: int,
    hi: int,
    j: int,
) -> bool {
    exists|q: int|
        slot_active(inverses, t, lo, hi, q) && #[trigger] (j % slot_prime(primes, t, q))
            == slot_start(residues, inverses, primes, half, t, q)
}

/// Slot `q` lies in `[lo, hi)` and belongs to a prime that is sieved: one
/// with a non-zero inverse (a prime that divides the primorial has none,
/// and is recorded with 0).
pub open spec fn slot_active(inverses: Seq<u64>, t: int, lo: int, hi: int, q: int) -> bool {
    lo <= q < hi && inverses[q / t] != 0
}

proof fn lemma_sieve_start_bound(r: int, inv: int, p: int, half: Seq<u64>, k: int)
    requires
        p > 0,
    ensures
        0 <= sieve_start(r, inv, p, half, k) < p,
    decreases k,
{
    if k > 0 {
        lemma_sieve_start_bound(r, inv, p, half, k - 1);
    }
}

proof fn lemma_scale_le(t: int, a: int, b: int)
    requires
        t >= 0,
        a <= b,
    ensures
        t * a <= t * b,
{
    if t > 0 {
        lemma_mul_inequality(a, b, t);
        lemma_mul_is_commutative(a, t);
        lemma_mul_is_commutative(b, t);
    } else {
        assert(t == 0);
        lemma_mul_basics(a);
        lemma_mul_basics(b);
    }
}

proof fn lemma_slot_range(t: int, m: int, i: int, n: int)
    requires
        t >= 1,
        m <= i < n,
    ensures
        t * m <= t * i,
        t * i + t <= t * n,
{
    lemma_scale_le(t, m, i);
    lemma_scale_le(t, i + 1, n);
    lemma_mul_is_distributive_add(t, i, 1);
}

proof fn lemma_slot(t: int, i: int, k: int)
    requires
        t > 0,
        0 <= k < t,
    ensures
        (t * i + k) / t == i,
        (t * i + k) % t == k,
{
    lemma_mul_is_commutative(t, i);
    lemma_fundamental_div_mod_converse(t * i + k, t, i, k);
}

proof fn lemma_slot_block(t: int, i: int)
    requires
        t > 0,
    ensures
        forall|q: int| t * i <= q < t * i + t ==> #[trigger] (q / t) == i && q % t == q - t * i,
{
    assert forall|q: int| t * i <= q < t * i + t implies #[trigger] (q / t) == i && q % t == q - t
        * i by {
        lemma_slot(t, i, q - t * i);
    }
}

/// Store the first position to eliminate of every slot of prime `i`
/// (slots `t * i .. t * i + t`), leaving every other slot alone.
fn set_slot_starts(
    factors: &mut Vec<u32>,
    residues: &[u64],
    primes: &[u64],
    inverses: &[u64],
    half_pattern: &Vec<u64>,
    t: usize,
    i: usize,
)
    requires
        t >= 1,
        half_pattern@.len() == t,
        forall|k: int| 1 <= k < t ==> #[trigger] half_pattern@[k] < 4,
        i < primes@.len(),
        residues@.len() == primes@.len(),
        inverses@.len() >= primes@.len(),
        t * i + t <= old(factors)@.len(),
        1 <= primes@[i as int],
        primes@[i as int] + SIEVE_SIZE <= u32::MAX,
        residues@[i as int] < primes@[i as int],
        inverses@[i as int] < primes@[i as int],
    ensures
        final(factors)@.len() == old(factors)@.len(),
        forall|q: int|
            t * i <= q < t * i + t ==> #[trigger] final(factors)@[q] == slot_start(
                residues@,
                inverses@,
                primes@,
                half_pattern@,
                t as int,
                q,
            ),
        forall|q: int|
            0 <= q < old(factors)@.len() && !(t * i <= q < t * i + t)
                ==> #[trigger] final(factors)@[q] == old(factors)@[q],
{
    let ghost half = half_pattern@;
    let p = primes[i];
    let mi = compute_mi(inverses, p, i);
    let r = residues[i];
    let inv = inverses[i];
    assert((p - r) * inv <= u64::MAX) by (nonlinear_arith)
        requires
            p <= u32::MAX,
            r < p,
            inv < p,
    ;
    let mut f_p = ((p - r) * inv) % p;
    let flen = factors.len();
    assert(t * i <= flen);
    let base = t * i;
    proof {
        lemma_slot(t as int, i as int, 0);
    }
    factors.set(base, f_p as u32);
    let mut f: usize = 1;
    while f < t
        invariant
            t >= 1,
            half == half_pattern@,
            half.len() == t,
            forall|k: int| 1 <= k < t ==> #[trigger] half[k] < 4,
            i < primes@.len(),
            residues@.len() == primes@.len(),
            inverses@.len() >= primes@.len(),
            base == t * i,
            t * i + t <= old(factors)@.len(),
            factors@.len() == old(factors)@.len(),
            flen == factors@.len(),
            p == primes@[i as int],
            1 <= p,
            p + SIEVE_SIZE <= u32::MAX,
            r == residues@[i as int],
            inv == inverses@[i as int],
            forall|h: int| 0 <= h < 4 ==> #[trigger] mi@[h] == mi_spec(inv as int, p as int, h),
            forall|h: int| 0 <= h < 4 ==> #[trigger] mi@[h] < p,
            1 <= f <= t,
            f_p == sieve_start(r as int, inv as int, p as int, half, f - 1),
            forall|q: int|
                t * i <= q < t * i + f ==> #[trigger] factors@[q] == slot_start(
                    residues@,
                    inverses@,
                    primes@,
                    half,
                    t as int,
                    q,
                ),
            forall|q: int|
                0 <= q < old(factors)@.len() && !(t * i <= q < t * i + f)
                    ==> #[trigger] factors@[q] == old(factors)@[q],
        decreases t - f,
    {
        let hp = mi[half_pattern[f] as usize];
        proof {
            lemma_sieve_start_bound(r as int, inv as int, p as int, half, f - 1);
        }
        let ghost prev = f_p;
        if f_p < hp {
            f_p = f_p + p;
        }
        f_p = f_p - hp;
        proof {
            let d = prev - hp;
            if prev < hp {
                lemma_fundamental_div_mod_converse(d as int, p as int, -1, f_p as int);
            } else {
                lemma_fundamental_div_mod_converse(d as int, p as int, 0, f_p as int);
            }
            assert(f_p == sieve_start(r as int, inv as int, p as int, half, f as int));
            lemma_slot(t as int, i as int, f as int);
        }
        factors.set(base + f, f_p as u32);
        f = f + 1;
    }
}

/// Mark the progressions of the slots of one prime `p` (slots `t * i ..
/// t * i + t`, each holding its first position), and leave each slot at its
/// next progression element, shifted down by `SIEVE_SIZE`.
fn mark_prime_slots(
    table: &mut Vec<u64>,
    cache: &mut Vec<u32>,
    cache_pos: &mut usize,
    factors: &mut Vec<u32>,
    p: u32,
    t: usize,
    i: usize,
)
    requires
        old(table)@.len() == SIEVE_WORDS,
        old(cache)@.len() == MARK_CACHE_SIZE,
        *old(cache_pos) < MARK_CACHE_SIZE,
        forall|c: int| 0 <= c < MARK_CACHE_SIZE ==> cache_entry_ok(#[trigger] old(cache)@[c]),
        t >= 1,
        t * i + t <= old(factors)@.len(),
        1 <= p,
        p + SIEVE_SIZE <= u32::MAX,
        forall|q: int| t * i <= q < t * i + t ==> #[trigger] old(factors)@[q] < p,
    ensures
        final(table)@.len() == SIEVE_WORDS,
        final(cache)@.len() == MARK_CACHE_SIZE,
        *final(cache_pos) < MARK_CACHE_SIZE,
        forall|c: int| 0 <= c < MARK_CACHE_SIZE ==> cache_entry_ok(#[trigger] final(cache)@[c]),
        final(factors)@.len() == old(factors)@.len(),
        forall|q: int|
            t * i <= q < t * i + t ==> #[trigger] final(factors)@[q] == (old(factors)@[q]
                - SIEVE_SIZE) % (p as int),
        forall|q: int|
            0 <= q < old(factors)@.len() && !(t * i <= q < t * i + t)
                ==> #[trigger] final(factors)@[q] == old(factors)@[q],
        forall|j: int|
            0 <= j < SIEVE_SIZE ==> #[trigger] covered(final(table)@, final(cache)@, j) == (covered(
                old(table)@,
                old(cache)@,
                j,
            ) || exists|q: int|
                t * i <= q < t * i + t && j % (p as int) == #[trigger] old(factors)@[q]),
{
    let flen = factors.len();
    assert(t * i <= flen);
    let base = t * i;
    let mut f: usize = 0;
    while f < t
        invariant
            table@.len() == SIEVE_WORDS,
            cache@.len() == MARK_CACHE_SIZE,
            *cache_pos < MARK_CACHE_SIZE,
            forall|c: int| 0 <= c < MARK_CACHE_SIZE ==> cache_entry_ok(#[trigger] cache@[c]),
            t >= 1,
            base == t * i,
            t * i + t <= old(factors)@.len(),
            factors@.len() == old(factors)@.len(),
            flen == factors@.len(),
            1 <= p,
            p + SIEVE_SIZE <= u32::MAX,
            forall|q: int| t * i <= q < t * i + t ==> #[trigger] old(factors)@[q] < p,
            f <= t,
            forall|q: int|
                t * i <= q < t * i + f ==> #[trigger] factors@[q] == (old(factors)@[q] - SIEVE_SIZE)
                    % (p as int),
            forall|q: int|
                0 <= q < old(factors)@.len() && !(t * i <= q < t * i + f)
                    ==> #[trigger] factors@[q] == old(factors)@[q],
            forall|j: int|
                0 <= j < SIEVE_SIZE ==> #[trigger] covered(table@, cache@, j) == (covered(
                    old(table)@,
                    old(cache)@,
                    j,
                ) || exists|q: int|
                    t * i <= q < t * i + f && j % (p as int) == #[trigger] old(factors)@[q]),
        decreases t - f,
    {
        let idx = base + f;
        let ghost q0: int = t * i + f;
        let start = factors[idx];
        assert(start == old(factors)@[q0]);
        let ghost table_before = table@;
        let ghost cache_before = cache@;
        let end = mark_progression(table, cache, cache_pos, start, p);
        let next = end - SIEVE_SIZE as u32;
        proof {
            let a = (end as int) / (p as int);
            lemma_fundamental_div_mod(end as int, p as int);
            lemma_mul_is_commutative(p as int, a);
            assert(start as int - SIEVE_SIZE == (-a) * (p as int) + next) by {
                lemma_mul_unary_negation(a, p as int);
            }
            lemma_fundamental_div_mod_converse(start as int - SIEVE_SIZE, p as int, -a, next as int);
            assert forall|j: int| 0 <= j < SIEVE_SIZE implies #[trigger] covered(table@, cache@, j)
                == (covered(old(table)@, old(cache)@, j) || exists|q: int|
                t * i <= q < q0 + 1 && j % (p as int) == #[trigger] old(factors)@[q]) by {
                if exists|q: int| t * i <= q < q0 && j % (p as int) == #[trigger] old(factors)@[q] {
                    let q = choose|q: int|
                        t * i <= q < q0 && j % (p as int) == #[trigger] old(factors)@[q];
                    assert(t * i <= q < q0 + 1);
                }
                if j % (p as int) == start {
                    assert(t * i <= q0 < q0 + 1 && j % (p as int) == old(factors)@[q0]);
                }
                if exists|q: int| t * i <= q < q0 + 1 && j % (p as int) == #[trigger] old(factors)@[q] {
                    let q = choose|q: int|
                        t * i <= q < q0 + 1 && j % (p as int) == #[trigger] old(factors)@[q];
                    if q < q0 {
                        assert(t * i <= q < q0);
                    }
                }
            }
        }
        factors.set(idx, next);
        f = f + 1;
    }
}

/// Build the sieve for one target.
///
/// `residues[i]` is the first candidate (the target rounded up to the next
/// primorial multiple, plus the primorial offset) reduced modulo
/// `primes[i]`, and `inverses[i]` is the inverse of the primorial modulo
/// `primes[i]`, or 0 where the prime divides the primorial and has none.
/// The primes from index `config.m` on are sieved, except those without an
/// inverse: no valid offset leaves a pattern member divisible by them.  For
/// every sieved prime and every pattern element the first position to
/// eliminate is stored in `factors_to_eliminate`, then every position of
/// the progression below `SIEVE_SIZE` is marked in `factors_table`, and the
/// stored position is left at the next progression element, shifted down
/// by `SIEVE_SIZE`.
pub fn build_sieve(
    bufs: &mut WorkBuffers,
    residues: &[u64],
    primes: &[u64],
    inverses: &[u64],
    config: &Config,
)
    requires
        config.pattern@.len() >= 1,
        config.half_pattern@.len() == config.pattern@.len(),
        forall|k: int| 1 <= k < config.half_pattern@.len() ==> #[trigger] config.half_pattern@[k] < 4,
        config.m <= usize::MAX,
        residues@.len() == primes@.len(),
        inverses@.len() >= primes@.len(),
        config.pattern@.len() * primes@.len() <= old(bufs).factors_to_eliminate@.len(),
        old(bufs).factors_table@.len() == SIEVE_WORDS,
        forall|i: int|
            config.m <= i < primes@.len() ==> 1 <= #[trigger] primes@[i] && primes@[i] + SIEVE_SIZE
                <= u32::MAX && residues@[i] < primes@[i] && inverses@[i] < primes@[i],
    ensures
        final(bufs).factors_table@.len() == SIEVE_WORDS,
        forall|j: int|
            0 <= j < SIEVE_SIZE ==> #[trigger] bitmap_bit(final(bufs).factors_table@, j) == (
            bitmap_bit(old(bufs).factors_table@, j) || sieve_hit(
                residues@,
                inverses@,
                primes@,
                config.half_pattern@,
                config.pattern@.len() as int,
                config.pattern@.len() * config.m,
                (config.pattern@.len() * primes@.len()) as int,
                j,
            )),
        final(bufs).factors_to_eliminate@.len() == old(bufs).factors_to_eliminate@.len(),
        forall|q: int|
            slot_active(
                inverses@,
                config.pattern@.len() as int,
                config.pattern@.len() * config.m,
                (config.pattern@.len() * primes@.len()) as int,
                q,
            ) ==> #[trigger] final(bufs).factors_to_eliminate@[q] == (slot_start(
                residues@,
                inverses@,
                primes@,
                config.half_pattern@,
                config.pattern@.len() as int,
                q,
            ) - SIEVE_SIZE) % slot_prime(primes@, config.pattern@.len() as int, q),
        forall|q: int|
            0 <= q < old(bufs).factors_to_eliminate@.len() && !slot_active(
                inverses@,
                config.pattern@.len() as int,
                config.pattern@.len() * config.m,
                (config.pattern@.len() * primes@.len()) as int,
                q,
            ) ==> #[trigger] final(bufs).factors_to_eliminate@[q]
                == old(bufs).factors_to_eliminate@[q],
{
    let m = config.m as usize;
    let t = config.pattern.len();
    let n = primes.len();
    let s: usize = if m < n {
        m
    } else {
        n
    };
    let ghost res = residues@;
    let ghost invs = inverses@;
    let ghost ps = primes@;
    let ghost half = config.half_pattern@;
    let ghost lo: int = t * s;
    let ghost hi: int = t * n;
    let ghost old_factors = bufs.factors_to_eliminate@;
    let ghost old_table = bufs.factors_table@;
    let flen = bufs.factors_to_eliminate.len();

    // Compute the first position to eliminate for every slot.
    let mut i: usize = s;
    while i < n
        invariant
            t == config.pattern@.len(),
            t >= 1,
            n == ps.len(),
            lo == t * s,
            hi == t * n,
            s <= i <= n,
            half == config.half_pattern@,
            half.len() == t,
            forall|k: int| 1 <= k < t ==> #[trigger] half[k] < 4,
            res == residues@,
            invs == inverses@,
            ps == primes@,
            residues@.len() == n,
            inverses@.len() >= n,
            t * n <= flen,
            flen == bufs.factors_to_eliminate@.len(),
            bufs.factors_to_eliminate@.len() == old_factors.len(),
            bufs.factors_table@ == old_table,
            forall|i: int|
                s <= i < n ==> 1 <= #[trigger] ps[i] && ps[i] + SIEVE_SIZE <= u32::MAX && res[i]
                    < ps[i] && invs[i] < ps[i],
            forall|q: int|
                slot_active(invs, t as int, lo, t * i, q) ==> #[trigger] bufs.factors_to_eliminate@[q]
                    == slot_start(res, invs, ps, half, t as int, q),
            forall|q: int|
                0 <= q < old_factors.len() && !slot_active(invs, t as int, lo, t * i, q)
                    ==> #[trigger] bufs.factors_to_eliminate@[q] == old_factors[q],
        decreases n - i,
    {
        proof {
            lemma_slot_range(t as int, s as int, i as int, n as int);
            lemma_slot_block(t as int, i as int);
            lemma_mul_is_distributive_add(t as int, i as int, 1);
        }
        let ghost before = bufs.factors_to_eliminate@;
        if inverses[i] != 0 {
            set_slot_starts(
                &mut bufs.factors_to_eliminate,
                residues,
                primes,
                inverses,
                &config.half_pattern,
                t,
                i,
            );
        }
        proof {
            assert forall|q: int|
                slot_active(invs, t as int, lo, t * (i + 1), q) implies #[trigger] bufs.factors_to_eliminate@[q]
                == slot_start(res, invs, ps, half, t as int, q) by {
                if q >= t * i {
                    assert(q / (t as int) == i);
                } else {
                    assert(slot_active(invs, t as int, lo, t * i, q));
                }
            }
            assert forall|q: int|
                0 <= q < old_factors.len() && !slot_active(invs, t as int, lo, t * (i + 1), q)
                    implies #[trigger] bufs.factors_to_eliminate@[q] == old_factors[q] by {
                if t * i <= q < t * i + t {
                    assert(q / (t as int) == i);
                } else {
                    assert(!slot_active(invs, t as int, lo, t * i, q));
                }
            }
        }
        i = i + 1;
    }
    proof {
        assert(i == n);
        lemma_scale_le(t as int, s as int, n as int);
    }

    // Mark every position of every slot's progression.
    let mut cache: Vec<u32> = vec![CACHE_EMPTY; MARK_CACHE_SIZE];
    let mut cache_pos: usize = 0;
    assert forall|j: int| 0 <= j < SIEVE_SIZE implies #[trigger] covered(
        bufs.factors_table@,
        cache@,
        j,
    ) == bitmap_bit(old_table, j) by {
        if cache@.contains(j as u32) {
            let c = choose|c: int| 0 <= c < cache@.len() && cache@[c] == j as u32;
            assert(cache@[c] == CACHE_EMPTY);
        }
    }
    let mut i: usize = s;
    while i < n
        invariant
            t == config.pattern@.len(),
            t >= 1,
            n == ps.len(),
            lo == t * s,
            hi == t * n,
            s <= i <= n,
            lo <= hi,
            ps == primes@,
            res == residues@,
            invs == inverses@,
            residues@.len() == n,
            inverses@.len() >= n,
            half == config.half_pattern@,
            t * n <= flen,
            flen == bufs.factors_to_eliminate@.len(),
            bufs.factors_to_eliminate@.len() == old_factors.len(),
            bufs.factors_table@.len() == SIEVE_WORDS,
            cache@.len() == MARK_CACHE_SIZE,
            cache_pos < MARK_CACHE_SIZE,
            forall|c: int| 0 <= c < MARK_CACHE_SIZE ==> cache_entry_ok(#[trigger] cache@[c]),
            forall|i: int|
                s <= i < n ==> 1 <= #[trigger] ps[i] && ps[i] + SIEVE_SIZE <= u32::MAX && res[i]
                    < ps[i] && invs[i] < ps[i],
            forall|q: int|
                slot_active(invs, t as int, lo, t * i, q) ==> #[trigger] bufs.factors_to_eliminate@[q]
                    == (slot_start(res, invs, ps, half, t as int, q) - SIEVE_SIZE) % slot_prime(
                    ps,
                    t as int,
                    q,
                ),
            forall|q: int|
                slot_active(invs, t as int, t * i, hi, q) ==> #[trigger] bufs.factors_to_eliminate@[q]
                    == slot_start(res, invs, ps, half, t as int, q),
            forall|q: int|
                0 <= q < old_factors.len() && !slot_active(invs, t as int, lo, hi, q)
                    ==> #[trigger] bufs.factors_to_eliminate@[q] == old_factors[q],
            forall|j: int|
                0 <= j < SIEVE_SIZE ==> #[trigger] covered(bufs.factors_table@, cache@, j) == (
                bitmap_bit(old_table, j) || sieve_hit(res, invs, ps, half, t as int, lo, t * i, j)),
        decreases n - i,
    {
        proof {
            lemma_slot_range(t as int, s as int, i as int, n as int);
            lemma_slot_block(t as int, i as int);
            lemma_mul_is_distributive_add(t as int, i as int, 1);
        }
        let p = primes[i];
        let ghost before = bufs.factors_to_eliminate@;
        let ghost table_before = bufs.factors_table@;
        let ghost cache_before = cache@;
        if inverses[i] != 0 {
            proof {
                assert forall|q: int| t * i <= q < t * i + t implies #[trigger] before[q] < p by {
                    assert(q / (t as int) == i);
                    assert(slot_active(invs, t as int, t * i, hi, q));
                    lemma_sieve_start_bound(
                        res[i as int] as int,
                        invs[i as int] as int,
                        p as int,
                        half,
                        q % (t as int),
                    );
                }
            }
            mark_prime_slots(
                &mut bufs.factors_table,
                &mut cache,
                &mut cache_pos,
                &mut bufs.factors_to_eliminate,
                p as u32,
                t,
                i,
            );
            proof {
                assert forall|j: int| 0 <= j < SIEVE_SIZE implies #[trigger] covered(
                    bufs.factors_table@,
                    cache@,
                    j,
                ) == (bitmap_bit(old_table, j) || sieve_hit(
                    res,
                    invs,
                    ps,
                    half,
                    t as int,
                    lo,
                    t * (i + 1),
                    j,
                )) by {
                    let now = sieve_hit(res, invs, ps, half, t as int, lo, t * (i + 1), j);
                    let prior = sieve_hit(res, invs, ps, half, t as int, lo, t * i, j);
                    let fresh = exists|q: int|
                        t * i <= q < t * i + t && j % (p as int) == #[trigger] before[q];
                    assert(covered(table_before, cache_before, j) == (bitmap_bit(old_table, j)
                        || prior));
                    if prior {
                        let q = choose|q: int|
                            slot_active(invs, t as int, lo, t * i, q) && #[trigger] (j % slot_prime(
                                ps,
                                t as int,
                                q,
                            )) == slot_start(res, invs, ps, half, t as int, q);
                        assert(slot_active(invs, t as int, lo, t * (i + 1), q));
                    }
                    if fresh {
                        let q = choose|q: int|
                            t * i <= q < t * i + t && j % (p as int) == #[trigger] before[q];
                        assert(q / (t as int) == i);
                        assert(slot_active(invs, t as int, t * i, hi, q));
                        assert(slot_active(invs, t as int, lo, t * (i + 1), q));
                        assert(j % slot_prime(ps, t as int, q) == slot_start(
                            res,
                            invs,
                            ps,
                            half,
                            t as int,
                            q,
                        ));
                    }
                    if now && !prior {
                        let q = choose|q: int|
                            slot_active(invs, t as int, lo, t * (i + 1), q) && #[trigger] (j
                                % slot_prime(ps, t as int, q)) == slot_start(
                                res,
                                invs,
                                ps,
                                half,
                                t as int,
                                q,
                            );
                        if q < t * i {
                            assert(slot_active(invs, t as int, lo, t * i, q));
                        } else {
                            assert(q / (t as int) == i);
                            assert(slot_active(invs, t as int, t * i, hi, q));
                            assert(j % (p as int) == before[q]);
                        }
                    }
                }
            }
        } else {
            proof {
                assert forall|j: int| 0 <= j < SIEVE_SIZE implies sieve_hit(
                    res,
                    invs,
                    ps,
                    half,
                    t as int,
                    lo,
                    t * (i + 1),
                    j,
                ) == #[trigger] sieve_hit(res, invs, ps, half, t as int, lo, t * i, j) by {
                    if sieve_hit(res, invs, ps, half, t as int, lo, t * (i + 1), j) {
                        let q = choose|q: int|
                            slot_active(invs, t as int, lo, t * (i + 1), q) && #[trigger] (j
                                % slot_prime(ps, t as int, q)) == slot_start(
                                res,
                                invs,
                                ps,
                                half,
                                t as int,
                                q,
                            );
                        if q >= t * i {
                            assert(q / (t as int) == i);
                        }
                        assert(slot_active(invs, t as int, lo, t * i, q));
                    }
                    if sieve_hit(res, invs, ps, half, t as int, lo, t * i, j) {
                        let q = choose|q: int|
                            slot_active(invs, t as int, lo, t * i, q) && #[trigger] (j % slot_prime(
                                ps,
                                t as int,
                                q,
                            )) == slot_start(res, invs, ps, half, t as int, q);
                        assert(slot_active(invs, t as int, lo, t * (i + 1), q));
                    }
                }
            }
        }
        proof {
            assert forall|q: int|
                slot_active(invs, t as int, lo, t * (i + 1), q) implies #[trigger] bufs.factors_to_eliminate@[q]
                == (slot_start(res, invs, ps, half, t as int, q) - SIEVE_SIZE) % slot_prime(
                ps,
                t as int,
                q,
            ) by {
                if q >= t * i {
                    assert(q / (t as int) == i);
                    assert(slot_active(invs, t as int, t * i, hi, q));
                } else {
                    assert(slot_active(invs, t as int, lo, t * i, q));
                }
            }
            assert forall|q: int|
                slot_active(invs, t as int, t * (i + 1), hi, q) implies #[trigger] bufs.factors_to_eliminate@[q]
                == slot_start(res, invs, ps, half, t as int, q) by {
                assert(slot_active(invs, t as int, t * i, hi, q));
            }
            assert forall|q: int|
                0 <= q < old_factors.len() && !slot_active(invs, t as int, lo, hi, q)
                    implies #[trigger] bufs.factors_to_eliminate@[q] == old_factors[q] by {
                if t * i <= q < t * i + t {
                    assert(q / (t as int) == i);
                }
            }
        }
        i = i + 1;
    }
    flush_cache(&mut bufs.factors_table, &cache);
    proof {
        assert(i == n);
        if m >= n {
            lemma_scale_le(t as int, n as int, m as int);
            assert forall|j: int| 0 <= j < SIEVE_SIZE implies !#[trigger] sieve_hit(
                res,
                invs,
                ps,
                half,
                t as int,
                t * m,
                hi,
                j,
            ) by {}
        }
    }
}

/// Sum of the half gaps `half[1] + ... + half[k]`.
pub open spec fn half_sum(half: Seq<u64>, k: int) -> int
    decreases k,
{
    if k <= 0 {
        0
    } else {
        half_sum(half, k - 1) + half[k]
    }
}

/// A constellation pattern the sieve handles exactly: increasing, with
/// every gap `2`, `4` or `6`.
pub open spec fn sieve_pattern(pattern: Seq<u64>) -> bool {
    &&& pattern.len() >= 1
    &&& forall|k: int|
        1 <= k < pattern.len() ==> pattern[k - 1] < #[trigger] pattern[k] && (pattern[k]
            - pattern[k - 1]) % 2 == 0 && pattern[k] - pattern[k - 1] <= 6
}

/// Twice the sum of the half gaps up to element `k` is the distance from
/// the first pattern element to element `k`, when every gap is even.
pub proof fn lemma_half_pattern_sum(pattern: Seq<u64>, k: int)
    requires
        0 <= k < pattern.len(),
        forall|j: int|
            1 <= j < pattern.len() ==> pattern[j - 1] <= #[trigger] pattern[j] && (pattern[j]
                - pattern[j - 1]) % 2 == 0,
    ensures
        2 * half_sum(half_pattern_spec(pattern), k) == pattern[k] - pattern[0],
    decreases k,
{
    if k > 0 {
        lemma_half_pattern_sum(pattern, k - 1);
        assert(pattern[k - 1] <= pattern[k]);
    }
}

/// With non-zero half gaps the sieve's first position for element `k` is
/// `-(r + 2 * (half[1] + ... + half[k])) * inv` reduced modulo `p`.
pub proof fn lemma_sieve_start_closed_form(r: int, inv: int, p: int, half: Seq<u64>, k: int)
    requires
        p > 0,
        0 <= k < half.len(),
        forall|j: int| 1 <= j <= k ==> 1 <= #[trigger] half[j],
    ensures
        sieve_start(r, inv, p, half, k) == (-(r + 2 * half_sum(half, k)) * inv) % p,
    decreases k,
{
    if k == 0 {
        assert((p - r) * inv == p * inv + (-(r + 2 * half_sum(half, 0)) * inv)) by (nonlinear_arith);
        lemma_mod_multiples_vanish(inv, -(r + 2 * half_sum(half, 0)) * inv, p);
    } else {
        lemma_sieve_start_closed_form(r, inv, p, half, k - 1);
        let x = -(r + 2 * half_sum(half, k - 1)) * inv;
        let h = half[k] as int;
        assert(h >= 1);
        lemma_sub_mod_noop(x, 2 * h * inv, p);
        assert(x - 2 * h * inv == -(r + 2 * half_sum(half, k)) * inv) by (nonlinear_arith)
            requires
                x == -(r + 2 * half_sum(half, k - 1)) * inv,
                half_sum(half, k) == half_sum(half, k - 1) + h,
        ;
    }
}

/// `a` and `b` are congruent modulo `p`.
pub open spec fn congruent(a: int, b: int, p: int) -> bool {
    a % p == b % p
}

proof fn lemma_congruent_mul(a: int, b: int, c: int, p: int)
    requires
        p > 0,
        congruent(a, b, p),
    ensures
        congruent(a * c, b * c, p),
{
    lemma_mul_mod_noop_left(a, c, p);
    lemma_mul_mod_noop_left(b, c, p);
}

proof fn lemma_congruent_add(a: int, b: int, c: int, p: int)
    requires
        p > 0,
        congruent(a, b, p),
    ensures
        congruent(a + c, b + c, p),
{
    lemma_add_mod_noop(a, c, p);
    lemma_add_mod_noop(b, c, p);
}

/// Where `inv` inverts the primorial modulo `p`, the prime `p` divides
/// `first + primorial * f + off` exactly at the positions `f` that are
/// congruent to `-((first mod p) + off) * inv` modulo `p`.
pub proof fn lemma_position_divisible(first: int, primorial: int, inv: int, p: int, off: int, f: int)
    requires
        p > 0,
        congruent(primorial * inv, 1, p),
    ensures
        ((first + primorial * f + off) % p == 0) <==> (f % p == (-((first % p) + off) * inv) % p),
{
    let r = first % p;
    let big_t = r + off;
    let n = first + primorial * f + off;
    lemma_mod_twice(first, p);
    assert(congruent(first, r, p));
    lemma_congruent_add(first, r, primorial * f + off, p);
    assert(n == first + (primorial * f + off));
    assert(r + (primorial * f + off) == big_t + primorial * f);
    assert(congruent(n, big_t + primorial * f, p));
    if n % p == 0 {
        assert(congruent(big_t + primorial * f, 0, p)) by {
            lemma_small_mod(0, p as nat);
        }
        lemma_congruent_add(big_t + primorial * f, 0, -big_t, p);
        assert(big_t + primorial * f + -big_t == primorial * f);
        assert(congruent(primorial * f, -big_t, p));
        lemma_congruent_mul(primorial * f, -big_t, inv, p);
        assert(primorial * f * inv == f * (primorial * inv)) by (nonlinear_arith);
        lemma_congruent_mul(primorial * inv, 1, f, p);
        assert(f * (primorial * inv) == (primorial * inv) * f) by (nonlinear_arith);
        assert(congruent(f, -big_t * inv, p));
    }
    if f % p == (-big_t * inv) % p {
        assert(congruent(f, -big_t * inv, p));
        lemma_congruent_mul(f, -big_t * inv, primorial, p);
        assert(-big_t * inv * primorial == (primorial * inv) * (-big_t)) by (nonlinear_arith);
        lemma_congruent_mul(primorial * inv, 1, -big_t, p);
        assert(f * primorial == primorial * f) by (nonlinear_arith);
        assert(congruent(primorial * f, -big_t, p));
        lemma_congruent_add(primorial * f, -big_t, big_t, p);
        assert(primorial * f + big_t == big_t + primorial * f);
        assert(congruent(big_t + primorial * f, 0, p));
        lemma_small_mod(0, p as nat);
    }
}

/// The sieve marks position `j` for slot `q` exactly when the slot's prime
/// divides the corresponding member `first + primorial * j + pattern[k] -
/// pattern[0]` of candidate `j` (`k = q % t`), provided the residue of the
/// slot is that of `first` and its inverse inverts the primorial.
pub proof fn lemma_slot_marks_divisible(
    residues: Seq<u64>,
    inverses: Seq<u64>,
    primes: Seq<u64>,
    pattern: Seq<u64>,
    q: int,
    first: int,
    primorial: int,
    j: int,
)
    requires
        sieve_pattern(pattern),
        0 <= q,
        q / (pattern.len() as int) < primes.len(),
        q / (pattern.len() as int) < residues.len(),
        q / (pattern.len() as int) < inverses.len(),
        primes[q / (pattern.len() as int)] >= 1,
        residues[q / (pattern.len() as int)] == first % (primes[q / (pattern.len() as int)] as int),
        congruent(
            primorial * inverses[q / (pattern.len() as int)],
            1,
            primes[q / (pattern.len() as int)] as int,
        ),
    ensures
        (j % slot_prime(primes, pattern.len() as int, q) == slot_start(
            residues,
            inverses,
            primes,
            half_pattern_spec(pattern),
            pattern.len() as int,
            q,
        )) <==> ((first + primorial * j + pattern[q % (pattern.len() as int)] - pattern[0]) % slot_prime(
            primes,
            pattern.len() as int,
            q,
        ) == 0),
{
    let t = pattern.len() as int;
    let i = q / t;
    let k = q % t;
    let p = primes[i] as int;
    let inv = inverses[i] as int;
    let half = half_pattern_spec(pattern);
    lemma_mod_bound(q, t);
    assert forall|jj: int| 1 <= jj <= k implies 1 <= #[trigger] half[jj] by {
        assert(pattern[jj - 1] < pattern[jj]);
    }
    lemma_sieve_start_closed_form(residues[i] as int, inv, p, half, k);
    lemma_half_pattern_sum(pattern, k);
    let off = pattern[k] - pattern[0];
    assert(2 * half_sum(half, k) == off);
    lemma_position_divisible(first, primorial, inv, p, off, j);
    assert(first + primorial * j + pattern[k] - pattern[0] == first + primorial * j + off);
}

proof fn lemma_survivor_bits(x: u64, s: u64, b: u64)
    requires
        s < 64,
        b < 64,
    ensures
        word_bit(!x & (0xffff_ffff_ffff_ffffu64 << s), b) == (b >= s && !word_bit(x, b)),
        word_bit(!x, b) == !word_bit(x, b),
{
    assert(((!x & (0xffff_ffff_ffff_ffffu64 << s)) >> b) & 1u64 == 1u64 <==> (b >= s && (x >> b)
        & 1u64 != 1u64)) by (bit_vector)
        requires
            s < 64,
            b < 64,
    ;
    assert(((!x) >> b) & 1u64 == 1u64 <==> (x >> b) & 1u64 != 1u64) by (bit_vector)
        requires
            b < 64,
    ;
}

/// The first position at or after `from` that the sieve left unmarked (a
/// surviving candidate), or `None` when every position from `from` to the
/// end of the sieve is marked.  Positions are visited in increasing order,
/// as the candidate test loop visits them.
pub fn next_survivor(table: &[u64], from: u32) -> (r: Option<u32>)
    requires
        table@.len() >= SIEVE_WORDS,
    ensures
        match r {
            Some(f) => from <= f < SIEVE_SIZE && !bitmap_bit(table@, f as int) && forall|g: int|
                from <= g < f ==> #[trigger] bitmap_bit(table@, g),
            None => forall|g: int| from <= g < SIEVE_SIZE ==> #[trigger] bitmap_bit(table@, g),
        },
{
    if from >= SIEVE_SIZE as u32 {
        return None;
    }
    let mut w: usize = (from / 64) as usize;
    let shift = (from % 64) as u64;
    let mut survivors: u64 = !table[w] & (0xffff_ffff_ffff_ffffu64 << shift);
    proof {
        assert forall|b: u64| b < 64 implies word_bit(survivors, b) == (b >= shift && !word_bit(
            table@[w as int],
            b,
        )) by {
            lemma_survivor_bits(table@[w as int], shift, b);
        }
    }
    while w < SIEVE_WORDS
        invariant
            table@.len() >= SIEVE_WORDS,
            from < SIEVE_SIZE,
            from / 64 <= w <= SIEVE_WORDS,
            w < SIEVE_WORDS ==> forall|b: u64|
                b < 64 ==> #[trigger] word_bit(survivors, b) == (64 * w + b >= from && !word_bit(
                    table@[w as int],
                    b,
                )),
            forall|g: int| from <= g < 64 * w ==> #[trigger] bitmap_bit(table@, g),
        decreases SIEVE_WORDS - w,
    {
        if survivors != 0 {
            let bit = survivors.trailing_zeros();
            proof {
                broadcast use vstd::std_specs::bits::axiom_u64_trailing_zeros;

                assert(bit < 64);
                assert(word_bit(survivors, bit as u64));
                assert forall|g: int| from <= g < 64 * w + bit implies #[trigger] bitmap_bit(
                    table@,
                    g,
                ) by {
                    if g >= 64 * w {
                        let b = (g - 64 * w) as u64;
                        assert(g / 64 == w && g % 64 == b);
                        assert((survivors >> b) & 1u64 == 0u64);
                        assert(!word_bit(survivors, b));
                    }
                }
                let f = 64 * w + bit;
                assert(f / 64 == w && f % 64 == bit);
            }
            return Some((w as u32) * 64 + bit);
        }
        proof {
            assert forall|g: int| from <= g < 64 * (w + 1) implies #[trigger] bitmap_bit(table@, g) by {
                if g >= 64 * w {
                    let b = (g - 64 * w) as u64;
                    assert(g / 64 == w && g % 64 == b);
                    assert((survivors >> b) & 1u64 == 0u64) by (bit_vector)
                        requires
                            survivors == 0u64,
                    ;
                    assert(!word_bit(survivors, b));
                }
            }
        }
        w = w + 1;
        if w < SIEVE_WORDS {
            survivors = !table[w];
            proof {
                assert forall|b: u64| b < 64 implies #[trigger] word_bit(survivors, b) == (64 * w + b
                    >= from && !word_bit(table@[w as int], b)) by {
                    lemma_survivor_bits(table@[w as int], 0, b);
                }
            }
        }
    }
    None
}

/// After `build_sieve` on a cleared bitmap, a position `j` is marked exactly
/// when one of the sieving primes (index `m` on, with an inverse) divides a
/// member `first + primorial * j + pattern[k] - pattern[0]` of candidate
/// `j`, for a pattern the sieve handles exactly and residues and inverses
/// that belong to `first` and the primorial (a prime that divides the
/// primorial is recorded with inverse 0).
pub proof fn lemma_sieve_marks_exactly_divisible_candidates(
    table_before: Seq<u64>,
    table_after: Seq<u64>,
    residues: Seq<u64>,
    inverses: Seq<u64>,
    primes: Seq<u64>,
    pattern: Seq<u64>,
    m: int,
    first: int,
    primorial: int,
    j: int,
)
    requires
        sieve_pattern(pattern),
        0 <= m,
        residues.len() == primes.len(),
        inverses.len() >= primes.len(),
        forall|i: int|
            m <= i < primes.len() ==> #[trigger] primes[i] >= 1 && residues[i] == first % (
            primes[i] as int) && (inverses[i] == 0 || congruent(
                primorial * inverses[i],
                1,
                primes[i] as int,
            )),
        forall|w: int| 0 <= w < SIEVE_SIZE ==> !#[trigger] bitmap_bit(table_before, w),
        forall|w: int|
            0 <= w < SIEVE_SIZE ==> #[trigger] bitmap_bit(table_after, w) == (bitmap_bit(
                table_before,
                w,
            ) || sieve_hit(
                residues,
                inverses,
                primes,
                half_pattern_spec(pattern),
                pattern.len() as int,
                pattern.len() * m,
                (pattern.len() * primes.len()) as int,
                w,
            )),
        0 <= j < SIEVE_SIZE,
    ensures
        bitmap_bit(table_after, j) <==> exists|i: int, k: int|
            m <= i < primes.len() && inverses[i] != 0 && 0 <= k < pattern.len() && #[trigger] ((first
                + primorial * j + pattern[k] - pattern[0]) % (primes[i] as int)) == 0,
{
    let t = pattern.len() as int;
    let n = primes.len() as int;
    let half = half_pattern_spec(pattern);
    assert(bitmap_bit(table_after, j) == sieve_hit(residues, inverses, primes, half, t, t * m, t * n, j));
    if sieve_hit(residues, inverses, primes, half, t, t * m, t * n, j) {
        let q = choose|q: int|
            slot_active(inverses, t, t * m, t * n, q) && #[trigger] (j % slot_prime(primes, t, q))
                == slot_start(residues, inverses, primes, half, t, q);
        let i = q / t;
        let k = q % t;
        lemma_fundamental_div_mod(q, t);
        lemma_mod_bound(q, t);
        assert(m <= i < n) by {
            if i < m {
                lemma_scale_le(t, i + 1, m);
                lemma_mul_is_distributive_add(t, i, 1);
            }
            if i >= n {
                lemma_scale_le(t, n, i);
            }
        }
        lemma_slot_marks_divisible(residues, inverses, primes, pattern, q, first, primorial, j);
        assert((first + primorial * j + pattern[k] - pattern[0]) % (primes[i] as int) == 0);
    }
    if exists|i: int, k: int|
        m <= i < primes.len() && inverses[i] != 0 && 0 <= k < pattern.len() && #[trigger] ((first
            + primorial * j + pattern[k] - pattern[0]) % (primes[i] as int)) == 0 {
        let (i, k) = choose|i: int, k: int|
            m <= i < primes.len() && inverses[i] != 0 && 0 <= k < pattern.len() && #[trigger] ((
            first + primorial * j + pattern[k] - pattern[0]) % (primes[i] as int)) == 0;
        let q = t * i + k;
        lemma_slot(t, i, k);
        lemma_slot_range(t, m, i, n);
        assert(slot_active(inverses, t, t * m, t * n, q));
        lemma_slot_marks_divisible(residues, inverses, primes, pattern, q, first, primorial, j);
        assert(j % slot_prime(primes, t, q) == slot_start(residues, inverses, primes, half, t, q));
    }
}

/// Where every prime from index `m` on is at least 2 and has a true inverse
/// of the primorial, a position is marked exactly when one of those primes
/// divides one of its members.
pub proof fn lemma_sieve_marks_divisible_when_invertible(
    table_before: Seq<u64>,
    table_after: Seq<u64>,
    residues: Seq<u64>,
    inverses: Seq<u64>,
    primes: Seq<u64>,
    pattern: Seq<u64>,
    m: int,
    first: int,
    primorial: int,
    j: int,
)
    requires
        sieve_pattern(pattern),
        0 <= m,
        residues.len() == primes.len(),
        inverses.len() >= primes.len(),
        forall|i: int|
            m <= i < primes.len() ==> #[trigger] primes[i] >= 2 && residues[i] == first % (
            primes[i] as int) && congruent(primorial * inverses[i], 1, primes[i] as int),
        forall|w: int| 0 <= w < SIEVE_SIZE ==> !#[trigger] bitmap_bit(table_before, w),
        forall|w: int|
            0 <= w < SIEVE_SIZE ==> #[trigger] bitmap_bit(table_after, w) == (bitmap_bit(
                table_before,
                w,
            ) || sieve_hit(
                residues,
                inverses,
                primes,
                half_pattern_spec(pattern),
                pattern.len() as int,
                pattern.len() * m,
                (pattern.len() * primes.len()) as int,
                w,
            )),
        0 <= j < SIEVE_SIZE,
    ensures
        bitmap_bit(table_after, j) <==> exists|i: int, k: int|
            m <= i < primes.len() && 0 <= k < pattern.len() && #[trigger] ((first + primorial * j
                + pattern[k] - pattern[0]) % (primes[i] as int)) == 0,
{
    assert forall|i: int| m <= i < primes.len() implies #[trigger] inverses[i] != 0 by {
        let p = primes[i] as int;
        assert(primes[i] >= 2);
        if inverses[i] == 0 {
            assert(primorial * inverses[i] == 0);
            lemma_small_mod(0, p as nat);
            lemma_small_mod(1, p as nat);
        }
    }
    lemma_sieve_marks_exactly_divisible_candidates(
        table_before,
        table_after,
        residues,
        inverses,
        primes,
        pattern,
        m,
        first,
        primorial,
        j,
    );
    if exists|i: int, k: int|
        m <= i < primes.len() && 0 <= k < pattern.len() && #[trigger] ((first + primorial * j
            + pattern[k] - pattern[0]) % (primes[i] as int)) == 0 {
        let (i, k) = choose|i: int, k: int|
            m <= i < primes.len() && 0 <= k < pattern.len() && #[trigger] ((first + primorial * j
                + pattern[k] - pattern[0]) % (primes[i] as int)) == 0;
        assert(inverses[i] != 0);
    }
}

} // verus!
