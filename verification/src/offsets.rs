//! Primorial offsets: the residues `o` for which no element `o + d` of the
//! pattern is divisible by one of the primes that make up the primorial.
use vstd::arithmetic::div_mod::*;
use vstd::arithmetic::mul::*;
use vstd::prelude::*;

verus! {

/// No member `o + pattern[a]` is divisible by a prime of `small`.
pub open spec fn offset_valid(o: int, pattern: Seq<u64>, small: Seq<u32>) -> bool {
    forall|a: int, b: int|
        0 <= a < pattern.len() && 0 <= b < small.len() ==> #[trigger] ((o + pattern[a]) % (
        small[b] as int)) != 0
}

/// The primes of the primorial `p_m#`: entries `1..=m` of the prime table
/// (entry `0` is the `1` that starts the table).
pub open spec fn primorial_primes(primes: Seq<u32>, m: int) -> Seq<u32> {
    primes.subrange(1, m + 1)
}

/// How many of the offsets `1..=n` are valid.
pub open spec fn count_valid(pattern: Seq<u64>, small: Seq<u32>, n: int) -> nat
    decreases n,
{
    if n <= 0 {
        0
    } else {
        count_valid(pattern, small, n - 1) + if offset_valid(n, pattern, small) {
            1nat
        } else {
            0nat
        }
    }
}

/// Every pattern member `n + d` of offset `n` fits in `u64`.
pub open spec fn members_fit(n: u64, pattern: Seq<u64>) -> bool {
    forall|a: int| 0 <= a < pattern.len() ==> n + #[trigger] pattern[a] <= u64::MAX
}

/// There are `want` valid offsets up to some `n` whose pattern members all
/// fit in `u64` (otherwise the search would not end, or would overflow).
pub open spec fn offsets_reachable(pattern: Seq<u64>, small: Seq<u32>, want: nat) -> bool {
    exists|n: u64| count_valid(pattern, small, n as int) >= want && #[trigger] members_fit(n, pattern)
}

/// `offsets` starts the list of all valid offsets in increasing order: each
/// entry is a valid offset of at least 1, the entries increase strictly, and
/// no valid offset up to the last entry is missing.
pub open spec fn first_valid_offsets(offsets: Seq<u64>, pattern: Seq<u64>, small: Seq<u32>) -> bool {
    &&& forall|k: int|
        0 <= k < offsets.len() ==> 1 <= #[trigger] offsets[k] && offset_valid(
            offsets[k] as int,
            pattern,
            small,
        )
    &&& forall|k: int, l: int| 0 <= k < l < offsets.len() ==> offsets[k] < offsets[l]
    &&& forall|o: int|
        offsets.len() > 0 && 1 <= o <= offsets.last() && offset_valid(o, pattern, small)
            ==> #[trigger] offsets.contains(o as u64)
}

/// The product of the primes of `small`: the primorial they make up.
pub open spec fn seq_product(small: Seq<u32>) -> int
    decreases small.len(),
{
    if small.len() == 0 {
        1
    } else {
        seq_product(small.drop_last()) * small.last()
    }
}

proof fn lemma_count_valid_monotone(pattern: Seq<u64>, small: Seq<u32>, a: int, b: int)
    requires
        a <= b,
    ensures
        count_valid(pattern, small, a) <= count_valid(pattern, small, b),
    decreases b - a,
{
    if a < b {
        lemma_count_valid_monotone(pattern, small, a, b - 1);
    }
}

/// Whether offset `o` is valid for `pattern` and the primes `small`.
fn is_valid_offset(o: u64, pattern: &[u64], small: &Vec<u32>) -> (r: bool)
    requires
        forall|a: int| 0 <= a < pattern@.len() ==> o + #[trigger] pattern@[a] <= u64::MAX,
        forall|b: int| 0 <= b < small@.len() ==> #[trigger] small@[b] > 0,
    ensures
        r == offset_valid(o as int, pattern@, small@),
{
    let mut a: usize = 0;
    while a < pattern.len()
        invariant
            forall|a: int| 0 <= a < pattern@.len() ==> o + #[trigger] pattern@[a] <= u64::MAX,
            forall|b: int| 0 <= b < small@.len() ==> #[trigger] small@[b] > 0,
            a <= pattern@.len(),
            forall|x: int, b: int|
                0 <= x < a && 0 <= b < small@.len() ==> #[trigger] ((o + pattern@[x]) % (
                small@[b] as int)) != 0,
        decreases pattern@.len() - a,
    {
        let candidate = o + pattern[a];
        let mut b: usize = 0;
        while b < small.len()
            invariant
                forall|b: int| 0 <= b < small@.len() ==> #[trigger] small@[b] > 0,
                a < pattern@.len(),
                candidate == o + pattern@[a as int],
                b <= small@.len(),
                forall|y: int| 0 <= y < b ==> #[trigger] ((candidate as int) % (small@[y] as int)) != 0,
            decreases small@.len() - b,
        {
            if candidate % small[b] as u64 == 0 {
                return false;
            }
            b = b + 1;
        }
        a = a + 1;
    }
    true
}

/// The primes `primes[1..=m]` of the primorial, in a vector of their own.
fn primorial_prime_list(primes: &[u32], m: u64) -> (small: Vec<u32>)
    requires
        m < primes@.len(),
    ensures
        small@ == primorial_primes(primes@, m as int),
{
    let mut small: Vec<u32> = Vec::new();
    let plen = primes.len();
    assert(m < plen);
    let mu = m as usize;
    let mut j: usize = 1;
    while j <= mu
        invariant
            mu == m,
            m < primes@.len(),
            1 <= j <= m + 1,
            small@ == primes@.subrange(1, j as int),
        decreases m + 1 - j,
    {
        small.push(primes[j]);
        j = j + 1;
    }
    small
}

/// The largest element of the pattern (0 for an empty pattern).
fn pattern_max(pattern: &[u64]) -> (mx: u64)
    ensures
        forall|a: int| 0 <= a < pattern@.len() ==> #[trigger] pattern@[a] <= mx,
        pattern@.len() > 0 ==> exists|a: int| 0 <= a < pattern@.len() && #[trigger] pattern@[a] == mx,
        pattern@.len() == 0 ==> mx == 0,
{
    let mut mx: u64 = 0;
    let mut a: usize = 0;
    while a < pattern.len()
        invariant
            a <= pattern@.len(),
            forall|x: int| 0 <= x < a ==> #[trigger] pattern@[x] <= mx,
            a > 0 ==> exists|x: int| 0 <= x < a && #[trigger] pattern@[x] == mx,
            a == 0 ==> mx == 0,
        decreases pattern@.len() - a,
    {
        if pattern[a] > mx {
            mx = pattern[a];
        }
        proof {
            if a > 0 && mx != pattern@[a as int] {
                let x = choose|x: int| 0 <= x < a && #[trigger] pattern@[x] == mx;
                assert(0 <= x < a + 1);
            }
        }
        a = a + 1;
    }
    mx
}

/// Search the offsets `o` whose pattern members `o + d` all fit in `u64`,
/// in increasing order, for the first `count` valid ones.  Returns them when
/// there are that many (exactly when `offsets_reachable` holds), `None`
/// otherwise.
pub fn try_find_primorial_offsets(pattern: &[u64], primes: &[u32], m: u64, count: usize) -> (r:
    Option<Vec<u64>>)
    requires
        m < primes@.len(),
        forall|b: int| 1 <= b <= m ==> #[trigger] primes@[b] > 0,
    ensures
        r is Some <==> offsets_reachable(pattern@, primorial_primes(primes@, m as int), count as nat),
        r matches Some(offsets) ==> offsets@.len() == count && first_valid_offsets(
            offsets@,
            pattern@,
            primorial_primes(primes@, m as int),
        ),
{
    let small = primorial_prime_list(primes, m);
    let ghost sp = small@;
    let mx = pattern_max(pattern);
    let limit = u64::MAX - mx;
    let mut offsets: Vec<u64> = Vec::new();
    if count == 0 {
        assert(count_valid(pattern@, sp, 0u64 as int) >= 0 && members_fit(0u64, pattern@));
        return Some(offsets);
    }
    proof {
        assert forall|x: u64| #[trigger] members_fit(x, pattern@) implies x <= limit by {
            if pattern@.len() > 0 {
                let a = choose|a: int| 0 <= a < pattern@.len() && #[trigger] pattern@[a] == mx;
                assert(x + pattern@[a] <= u64::MAX);
            }
        }
    }
    if limit == 0 {
        proof {
            assert forall|x: u64| #[trigger] members_fit(x, pattern@) implies count_valid(
                pattern@,
                sp,
                x as int,
            ) < count by {
                assert(x <= limit);
            }
        }
        return None;
    }
    let mut o: u64 = 1;
    loop
        invariant_except_break
            small@ == sp,
            sp == primorial_primes(primes@, m as int),
            forall|b: int| 0 <= b < sp.len() ==> #[trigger] sp[b] > 0,
            forall|a: int| 0 <= a < pattern@.len() ==> #[trigger] pattern@[a] <= mx,
            limit == u64::MAX - mx,
            count >= 1,
            1 <= o <= limit,
            offsets@.len() == count_valid(pattern@, sp, o - 1),
            offsets@.len() < count,
            forall|k: int|
                0 <= k < offsets@.len() ==> 1 <= #[trigger] offsets@[k] < o && offset_valid(
                    offsets@[k] as int,
                    pattern@,
                    sp,
                ),
            forall|k: int, l: int| 0 <= k < l < offsets@.len() ==> offsets@[k] < offsets@[l],
            forall|x: int|
                1 <= x < o && offset_valid(x, pattern@, sp) ==> #[trigger] offsets@.contains(
                    x as u64,
                ),
        ensures
            offsets@.len() <= count,
            offsets@.len() == count ==> first_valid_offsets(offsets@, pattern@, sp),
            offsets@.len() == count ==> count_valid(pattern@, sp, offsets@.last() as int) == count
                && (offsets@.last() as int) <= limit,
            offsets@.len() < count ==> count_valid(pattern@, sp, limit as int) == offsets@.len(),
        decreases limit - o,
    {
        proof {
            assert forall|a: int| 0 <= a < pattern@.len() implies o + #[trigger] pattern@[a]
                <= u64::MAX by {
                assert(pattern@[a] <= mx);
            }
        }
        let valid = is_valid_offset(o, pattern, &small);
        let ghost before = offsets@;
        if valid {
            offsets.push(o);
            proof {
                assert forall|x: int|
                    1 <= x < o + 1 && offset_valid(x, pattern@, sp) implies #[trigger] offsets@.contains(
                    x as u64,
                ) by {
                    if x < o {
                        assert(before.contains(x as u64));
                        let k = choose|k: int| 0 <= k < before.len() && before[k] == x as u64;
                        assert(offsets@[k] == x as u64);
                    } else {
                        assert(offsets@[before.len() as int] == x as u64);
                    }
                }
            }
            if offsets.len() >= count {
                proof {
                    assert(offsets@.last() == o);
                    assert(offsets@.len() == count_valid(pattern@, sp, o as int));
                }
                break;
            }
        }
        proof {
            assert(offsets@.len() == count_valid(pattern@, sp, o as int));
        }
        if o == limit {
            break;
        }
        o = o + 1;
    }
    if offsets.len() >= count {
        proof {
            let n = offsets@.last();
            assert(members_fit(n, pattern@));
            assert(count_valid(pattern@, sp, n as int) >= count as nat);
        }
        Some(offsets)
    } else {
        proof {
            assert forall|x: u64| #[trigger] members_fit(x, pattern@) implies count_valid(
                pattern@,
                sp,
                x as int,
            ) < count by {
                assert(x <= limit);
                lemma_count_valid_monotone(pattern@, sp, x as int, limit as int);
            }
        }
        None
    }
}

/// Find the first `count` valid primorial offsets for the pattern: the
/// offsets `o >= 1`, in increasing order, for which no `o + d` with `d` in
/// `pattern` is divisible by one of the primes `primes[1..=m]` of the
/// primorial.
pub fn find_primorial_offsets(pattern: &[u64], primes: &[u32], m: u64, count: usize) -> (offsets:
    Vec<u64>)
    requires
        m < primes@.len(),
        forall|b: int| 1 <= b <= m ==> #[trigger] primes@[b] > 0,
        offsets_reachable(pattern@, primorial_primes(primes@, m as int), count as nat),
    ensures
        offsets@.len() == count,
        first_valid_offsets(offsets@, pattern@, primorial_primes(primes@, m as int)),
        forall|k: int, a: int, b: int|
            0 <= k < offsets@.len() && 0 <= a < pattern@.len() && 1 <= b <= m
                ==> #[trigger] ((offsets@[k] + pattern@[a]) % (primes@[b] as int)) != 0,
{
    match try_find_primorial_offsets(pattern, primes, m, count) {
        Some(offsets) => {
            proof {
                let small = primorial_primes(primes@, m as int);
                lemma_first_offsets_members(offsets@, pattern@, small);
                assert forall|k: int, a: int, b: int|
                    0 <= k < offsets@.len() && 0 <= a < pattern@.len() && 1 <= b <= m
                        implies #[trigger] ((offsets@[k] + pattern@[a]) % (primes@[b] as int))
                        != 0 by {
                    assert(small[b - 1] == primes@[b]);
                    assert(((offsets@[k] + pattern@[a]) % (small[b - 1] as int)) != 0);
                }
            }
            offsets
        },
        None => {
            proof {
                assert(false);
            }
            Vec::new()
        },
    }
}

/// The first valid primorial offset for the pattern.
pub fn find_primorial_offset(pattern: &[u64], primes: &[u32], m: u64) -> (o: u64)
    requires
        m < primes@.len(),
        forall|b: int| 1 <= b <= m ==> #[trigger] primes@[b] > 0,
        offsets_reachable(pattern@, primorial_primes(primes@, m as int), 1),
    ensures
        1 <= o,
        offset_valid(o as int, pattern@, primorial_primes(primes@, m as int)),
        forall|x: int|
            1 <= x < o ==> !#[trigger] offset_valid(x, pattern@, primorial_primes(primes@, m as int)),
        forall|a: int, b: int|
            0 <= a < pattern@.len() && 1 <= b <= m ==> #[trigger] ((o + pattern@[a]) % (
            primes@[b] as int)) != 0,
{
    let offsets = find_primorial_offsets(pattern, primes, m, 1);
    let o = offsets[0];
    assert(forall|a: int, b: int|
        0 <= a < pattern@.len() && 1 <= b <= m ==> #[trigger] ((offsets@[0] + pattern@[a]) % (
        primes@[b] as int)) != 0);
    proof {
        assert forall|x: int| 1 <= x < o implies !#[trigger] offset_valid(
            x,
            pattern@,
            primorial_primes(primes@, m as int),
        ) by {
            if offset_valid(x, pattern@, primorial_primes(primes@, m as int)) {
                assert(offsets@.contains(x as u64));
            }
        }
    }
    o
}

proof fn lemma_count_flat(pattern: Seq<u64>, small: Seq<u32>, a: int, b: int)
    requires
        0 <= a <= b,
        forall|x: int| a < x <= b ==> !#[trigger] offset_valid(x, pattern, small),
    ensures
        count_valid(pattern, small, b) == count_valid(pattern, small, a),
    decreases b - a,
{
    if a < b {
        assert(!offset_valid(b, pattern, small));
        lemma_count_flat(pattern, small, a, b - 1);
    }
}

proof fn lemma_count_strict(pattern: Seq<u64>, small: Seq<u32>, x: int, y: int)
    requires
        0 <= x < y,
        offset_valid(y, pattern, small),
    ensures
        count_valid(pattern, small, x) < count_valid(pattern, small, y),
{
    lemma_count_valid_monotone(pattern, small, x, y - 1);
}

/// Entry `k` of a list of first valid offsets is the `k + 1`-th valid
/// offset: exactly `k + 1` valid offsets lie in `1..=offsets[k]`.
pub proof fn lemma_first_offsets_rank(offsets: Seq<u64>, pattern: Seq<u64>, small: Seq<u32>, k: int)
    requires
        first_valid_offsets(offsets, pattern, small),
        0 <= k < offsets.len(),
    ensures
        count_valid(pattern, small, offsets[k] as int) == k + 1,
    decreases k,
{
    let last = offsets.len() - 1;
    let lo: int = if k == 0 {
        0
    } else {
        offsets[k - 1] as int
    };
    if k > 0 {
        lemma_first_offsets_rank(offsets, pattern, small, k - 1);
        assert(offsets[k - 1] < offsets[k]);
    }
    assert(1 <= offsets[k]);
    if k < last {
        assert(offsets[k] < offsets[last]);
    }
    assert forall|x: int| lo < x <= offsets[k] - 1 implies !#[trigger] offset_valid(
        x,
        pattern,
        small,
    ) by {
        if offset_valid(x, pattern, small) {
            assert(offsets.contains(x as u64));
            let j = choose|j: int| 0 <= j < offsets.len() && offsets[j] == x as u64;
            if j < k {
                if j < k - 1 {
                    assert(offsets[j] < offsets[k - 1]);
                }
            }
            if j > k {
                assert(offsets[k] < offsets[j]);
            }
        }
    }
    lemma_count_flat(pattern, small, lo, offsets[k] - 1);
}

/// Two lists of first valid offsets agree as far as the shorter one goes:
/// asking `find_primorial_offsets` for more offsets only appends to the
/// list it returns for fewer.
pub proof fn lemma_first_offsets_prefix(
    shorter: Seq<u64>,
    longer: Seq<u64>,
    pattern: Seq<u64>,
    small: Seq<u32>,
)
    requires
        first_valid_offsets(shorter, pattern, small),
        first_valid_offsets(longer, pattern, small),
        shorter.len() <= longer.len(),
    ensures
        shorter == longer.subrange(0, shorter.len() as int),
{
    assert forall|k: int| 0 <= k < shorter.len() implies #[trigger] shorter[k] == longer[k] by {
        lemma_first_offsets_rank(shorter, pattern, small, k);
        lemma_first_offsets_rank(longer, pattern, small, k);
        assert(offset_valid(shorter[k] as int, pattern, small));
        assert(offset_valid(longer[k] as int, pattern, small));
        if shorter[k] < longer[k] {
            lemma_count_strict(pattern, small, shorter[k] as int, longer[k] as int);
        }
        if longer[k] < shorter[k] {
            lemma_count_strict(pattern, small, longer[k] as int, shorter[k] as int);
        }
    }
    assert(shorter =~= longer.subrange(0, shorter.len() as int));
}

proof fn lemma_product_positive(small: Seq<u32>)
    requires
        forall|b: int| 0 <= b < small.len() ==> #[trigger] small[b] > 0,
    ensures
        seq_product(small) > 0,
    decreases small.len(),
{
    if small.len() > 0 {
        lemma_product_positive(small.drop_last());
        lemma_mul_strictly_positive(seq_product(small.drop_last()), small.last() as int);
    }
}

proof fn lemma_product_divisible(small: Seq<u32>, b: int)
    requires
        0 <= b < small.len(),
        forall|c: int| 0 <= c < small.len() ==> #[trigger] small[c] > 0,
    ensures
        seq_product(small) % (small[b] as int) == 0,
    decreases small.len(),
{
    let rest = small.drop_last();
    let p = small[b] as int;
    assert(seq_product(small) == seq_product(rest) * small.last());
    if b == small.len() - 1 {
        lemma_mod_multiples_basic(seq_product(rest), p);
    } else {
        assert(rest[b] == small[b]);
        lemma_product_divisible(rest, b);
        lemma_mul_mod_noop_left(seq_product(rest), small.last() as int, p);
        assert((seq_product(rest) % p) * small.last() == 0);
        lemma_small_mod(0, p as nat);
    }
}

/// Whether an offset is valid depends only on the offset modulo the
/// primorial: `o` and `o` plus the product of the primes are valid alike.
pub proof fn lemma_offset_valid_periodic(o: int, pattern: Seq<u64>, small: Seq<u32>)
    requires
        forall|b: int| 0 <= b < small.len() ==> #[trigger] small[b] > 0,
    ensures
        offset_valid(o + seq_product(small), pattern, small) == offset_valid(o, pattern, small),
{
    let big = seq_product(small);
    assert forall|a: int, b: int| 0 <= a < pattern.len() && 0 <= b < small.len() implies #[trigger] (
    (o + big + pattern[a]) % (small[b] as int)) == (o + pattern[a]) % (small[b] as int) by {
        let p = small[b] as int;
        lemma_product_divisible(small, b);
        lemma_fundamental_div_mod(big, p);
        lemma_mod_multiples_vanish(big / p, o + pattern[a], p);
        assert(o + big + pattern[a] == p * (big / p) + (o + pattern[a]));
    }
    if offset_valid(o, pattern, small) {
        assert forall|a: int, b: int| 0 <= a < pattern.len() && 0 <= b < small.len() implies #[trigger] (
        (o + big + pattern[a]) % (small[b] as int)) != 0 by {
            assert((o + pattern[a]) % (small[b] as int) != 0);
        }
    }
    if offset_valid(o + big, pattern, small) {
        assert forall|a: int, b: int| 0 <= a < pattern.len() && 0 <= b < small.len() implies #[trigger] (
        (o + pattern[a]) % (small[b] as int)) != 0 by {
            assert((o + big + pattern[a]) % (small[b] as int) != 0);
        }
    }
}

proof fn lemma_count_periodic(pattern: Seq<u64>, small: Seq<u32>, x: int)
    requires
        0 <= x,
        forall|b: int| 0 <= b < small.len() ==> #[trigger] small[b] > 0,
    ensures
        count_valid(pattern, small, x + seq_product(small)) == count_valid(pattern, small, x)
            + count_valid(pattern, small, seq_product(small)),
    decreases x,
{
    lemma_product_positive(small);
    if x > 0 {
        lemma_count_periodic(pattern, small, x - 1);
        lemma_offset_valid_periodic(x, pattern, small);
    }
}

/// The valid offsets repeat with the primorial as period: where `n` valid
/// offsets lie in `1..=P` (`P` the product of the primes), entry `j + n` of
/// a list of first valid offsets is entry `j` plus `P`.
pub proof fn lemma_first_offsets_periodic(
    offsets: Seq<u64>,
    pattern: Seq<u64>,
    small: Seq<u32>,
    j: int,
)
    requires
        first_valid_offsets(offsets, pattern, small),
        forall|b: int| 0 <= b < small.len() ==> #[trigger] small[b] > 0,
        0 <= j,
        j + count_valid(pattern, small, seq_product(small)) < offsets.len(),
    ensures
        offsets[j + count_valid(pattern, small, seq_product(small))] == offsets[j] + seq_product(
            small,
        ),
{
    let big = seq_product(small);
    let n = count_valid(pattern, small, big);
    let later = j + n;
    let o = offsets[j] + big;
    lemma_product_positive(small);
    assert(1 <= offsets[j] && offset_valid(offsets[j] as int, pattern, small));
    assert(1 <= offsets[later] && offset_valid(offsets[later] as int, pattern, small));
    lemma_offset_valid_periodic(offsets[j] as int, pattern, small);
    lemma_count_periodic(pattern, small, offsets[j] as int);
    lemma_first_offsets_rank(offsets, pattern, small, j);
    lemma_first_offsets_rank(offsets, pattern, small, later);
    if o < offsets[later] {
        lemma_count_strict(pattern, small, o, offsets[later] as int);
    }
    if offsets[later] < o {
        lemma_count_strict(pattern, small, offsets[later] as int, o);
    }
}

/// An offset is valid exactly when every member `o + d`, for every element
/// `d` of the pattern, is divisible by none of the primorial's primes.
pub proof fn lemma_offset_valid_members(o: int, pattern: Seq<u64>, small: Seq<u32>)
    ensures
        offset_valid(o, pattern, small) <==> forall|a: int, b: int|
            0 <= a < pattern.len() && 0 <= b < small.len() ==> #[trigger] ((o + pattern[a]) % (
            small[b] as int)) != 0,
{
}

/// Every entry `o` of a list of first valid offsets (what
/// `find_primorial_offsets` returns) keeps every member `o + d` of the
/// pattern free of every primorial prime, and every offset from 1 up to the
/// last entry that does so is in the list.
pub proof fn lemma_first_offsets_members(offsets: Seq<u64>, pattern: Seq<u64>, small: Seq<u32>)
    requires
        first_valid_offsets(offsets, pattern, small),
    ensures
        forall|k: int, a: int, b: int|
            0 <= k < offsets.len() && 0 <= a < pattern.len() && 0 <= b < small.len()
                ==> #[trigger] ((offsets[k] + pattern[a]) % (small[b] as int)) != 0,
        forall|o: int|
            offsets.len() > 0 && 1 <= o <= offsets.last() && (forall|a: int, b: int|
                0 <= a < pattern.len() && 0 <= b < small.len() ==> #[trigger] ((o + pattern[a]) % (
                small[b] as int)) != 0) ==> #[trigger] offsets.contains(o as u64),
{
    assert forall|k: int, a: int, b: int|
        0 <= k < offsets.len() && 0 <= a < pattern.len() && 0 <= b < small.len()
            implies #[trigger] ((offsets[k] + pattern[a]) % (small[b] as int)) != 0 by {
        assert(offset_valid(offsets[k] as int, pattern, small));
        lemma_offset_valid_members(offsets[k] as int, pattern, small);
    }
    assert forall|o: int|
        offsets.len() > 0 && 1 <= o <= offsets.last() && (forall|a: int, b: int|
            0 <= a < pattern.len() && 0 <= b < small.len() ==> #[trigger] ((o + pattern[a]) % (
            small[b] as int)) != 0) implies #[trigger] offsets.contains(o as u64) by {
        lemma_offset_valid_members(o, pattern, small);
    }
}

} // verus!
