//! Random search targets: decimal numbers of a given number of digits.
use rand::rngs::ThreadRng;
use rand::Rng;
use vstd::arithmetic::power::pow;
use vstd::prelude::*;

verus! {

#[verifier::external_type_specification]
#[verifier::external_body]
pub struct ExThreadRng(ThreadRng);

/// `Rng::gen_range(lo..=hi)` on the thread-local generator: a random value
/// between `lo` and `hi`, both included (the range must not be empty).
#[verifier::external_body]
fn gen_range_inclusive(rng: &mut ThreadRng, lo: u32, hi: u32) -> (r: u32)
    requires
        lo <= hi,
    ensures
        lo <= r <= hi,
{
    rng.gen_range(lo..=hi)
}

/// The ASCII code of the decimal digit `d` (what `char::from_digit(d, 10)`
/// gives).
pub fn decimal_digit_byte(d: u32) -> (b: u8)
    requires
        d <= 9,
    ensures
        b == 48 + d,
{
    (48 + d) as u8
}

/// The ASCII decimal digits of the drawn values, one per value and in
/// order: value `v` becomes the byte `48 + v` (`'0' + v`).
pub fn target_digits_from_draws(draws: &[u32]) -> (s: Vec<u8>)
    requires
        forall|k: int| 0 <= k < draws@.len() ==> #[trigger] draws@[k] <= 9,
    ensures
        s@.len() == draws@.len(),
        forall|k: int| 0 <= k < draws@.len() ==> #[trigger] s@[k] == 48 + draws@[k],
{
    let mut s: Vec<u8> = Vec::new();
    let mut k: usize = 0;
    while k < draws.len()
        invariant
            forall|k: int| 0 <= k < draws@.len() ==> #[trigger] draws@[k] <= 9,
            k <= draws@.len(),
            s@.len() == k,
            forall|j: int| 0 <= j < k ==> #[trigger] s@[j] == 48 + draws@[j],
        decreases draws@.len() - k,
    {
        s.push(decimal_digit_byte(draws[k]));
        k = k + 1;
    }
    s
}

/// The number whose decimal digits, most significant first, are `d`.
pub open spec fn digits_value(d: Seq<u32>) -> nat
    decreases d.len(),
{
    if d.len() == 0 {
        0
    } else {
        digits_value(d.drop_last()) * 10 + d.last() as nat
    }
}

/// Digits `0..=9` led by a non-zero digit make a number of exactly that
/// many decimal digits: `10^(len - 1) <= value < 10^len`.
pub proof fn lemma_digits_value_length(d: Seq<u32>)
    requires
        d.len() >= 1,
        1 <= d[0],
        forall|k: int| 0 <= k < d.len() ==> #[trigger] d[k] <= 9,
    ensures
        pow(10, (d.len() - 1) as nat) <= digits_value(d) < pow(10, d.len()),
    decreases d.len(),
{
    let n = d.len();
    reveal(pow);
    if n == 1 {
        assert(digits_value(d.drop_last()) == 0);
        assert(pow(10, 0) == 1);
        assert(pow(10, 1) == 10 * pow(10, 0));
    } else {
        let pre = d.drop_last();
        assert forall|k: int| 0 <= k < pre.len() implies #[trigger] pre[k] <= 9 by {
            assert(pre[k] == d[k]);
        }
        assert(pre[0] == d[0]);
        lemma_digits_value_length(pre);
        let v = digits_value(pre);
        let lo = pow(10, (n - 2) as nat);
        let hi = pow(10, (n - 1) as nat);
        assert(hi == 10 * lo);
        assert(pow(10, n as nat) == 10 * hi);
        let last = d.last() as int;
        assert(last <= 9);
        assert(lo * 10 <= v * 10 + last < hi * 10) by (nonlinear_arith)
            requires
                lo <= v < hi,
                0 <= last <= 9,
        ;
    }
}

/// The number of digits `random_target_digits(digits, ..)` produces: at
/// least one.
pub open spec fn target_len(digits: u32) -> nat {
    if digits == 0 {
        1
    } else {
        digits as nat
    }
}

/// A random decimal number with exactly `digits` digits (one digit when
/// `digits` is 0), as ASCII: the first digit is drawn from `1..=9`, every
/// other one from `0..=9`, and the drawn values become the digits in order
/// (`target_digits_from_draws`).
pub fn random_target_digits(digits: u32, rng: &mut ThreadRng) -> (s: Vec<u8>)
    ensures
        s@.len() == target_len(digits),
        49 <= s@[0] <= 57,
        forall|k: int| 1 <= k < s@.len() ==> 48 <= #[trigger] s@[k] <= 57,
{
    let mut draws: Vec<u32> = Vec::new();
    let first = gen_range_inclusive(rng, 1, 9);
    draws.push(first);
    let mut k: u32 = 1;
    while k < digits
        invariant
            1 <= k,
            digits >= 1 ==> k <= digits,
            digits == 0 ==> k == 1,
            draws@.len() == k,
            1 <= draws@[0] <= 9,
            forall|j: int| 0 <= j < draws@.len() ==> #[trigger] draws@[j] <= 9,
        decreases digits - k,
    {
        let d = gen_range_inclusive(rng, 0, 9);
        draws.push(d);
        k = k + 1;
    }
    target_digits_from_draws(&draws)
}

} // verus!
