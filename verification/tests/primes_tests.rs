use primerug::offsets::{find_primorial_offset, find_primorial_offsets, try_find_primorial_offsets};
use primerug::primes::{generate_prime_table, primorial_factors};

fn is_prime_slow(n: u64) -> bool {
    if n < 2 {
        return false;
    }
    let mut d = 2;
    while d * d <= n {
        if n % d == 0 {
            return false;
        }
        d += 1;
    }
    true
}

#[test]
fn prime_table_is_empty_below_two() {
    assert_eq!(generate_prime_table(0), Vec::<u32>::new());
    assert_eq!(generate_prime_table(1), Vec::<u32>::new());
}

#[test]
fn prime_table_starts_with_one_and_two() {
    assert_eq!(generate_prime_table(2), vec![1, 2]);
    assert_eq!(generate_prime_table(3), vec![1, 2, 3]);
    assert_eq!(generate_prime_table(4), vec![1, 2, 3]);
    assert_eq!(generate_prime_table(10), vec![1, 2, 3, 5, 7]);
}

#[test]
fn prime_table_includes_an_odd_prime_limit() {
    assert_eq!(generate_prime_table(13), vec![1, 2, 3, 5, 7, 11, 13]);
    assert_eq!(generate_prime_table(12), vec![1, 2, 3, 5, 7, 11]);
}

#[test]
fn prime_table_matches_trial_division() {
    for limit in 0..400u64 {
        let table = generate_prime_table(limit);
        let mut expected: Vec<u32> = Vec::new();
        if limit >= 2 {
            expected.push(1);
            expected.push(2);
            for n in 3..=limit {
                if n % 2 == 1 && is_prime_slow(n) {
                    expected.push(n as u32);
                }
            }
        }
        assert_eq!(table, expected, "limit {limit}");
    }
}

#[test]
fn prime_table_up_to_a_million() {
    let table = generate_prime_table(1_000_000);
    // 78498 primes below one million, plus the leading 1.
    assert_eq!(table.len(), 78499);
    assert_eq!(table[table.len() - 1], 999_983);
    assert!(table.windows(2).all(|w| w[0] < w[1]));
}

#[test]
fn primorial_factors_take_the_first_primes() {
    assert_eq!(primorial_factors(0), Vec::<u32>::new());
    assert_eq!(primorial_factors(1), vec![1, 2]);
    assert_eq!(primorial_factors(3), vec![1, 2, 3, 5]);
    assert_eq!(primorial_factors(5), vec![1, 2, 3, 5, 7, 11]);
    let product: u64 = primorial_factors(6).iter().map(|&p| p as u64).product();
    assert_eq!(product, 30030);
}

#[test]
fn default_pattern_offsets_are_seven_mod_thirty() {
    let pattern = [0u64, 4, 6, 10, 12, 16];
    let primes = generate_prime_table(100);
    assert_eq!(find_primorial_offsets(&pattern, &primes, 3, 3), vec![7, 37, 67]);
    assert_eq!(find_primorial_offset(&pattern, &primes, 3), 7);
}

#[test]
fn zero_offsets_asked_gives_none() {
    let pattern = [0u64, 2];
    let primes = generate_prime_table(100);
    assert_eq!(find_primorial_offsets(&pattern, &primes, 2, 0), Vec::<u64>::new());
    assert_eq!(try_find_primorial_offsets(&pattern, &primes, 2, 0), Some(vec![]));
}

#[test]
fn asking_for_more_offsets_only_appends() {
    let pattern = [0u64, 2, 6, 8, 12];
    let primes = generate_prime_table(100);
    let fewer = find_primorial_offsets(&pattern, &primes, 3, 3);
    let more = find_primorial_offsets(&pattern, &primes, 3, 7);
    assert_eq!(fewer.len(), 3);
    assert_eq!(more.len(), 7);
    assert_eq!(&more[..3], &fewer[..]);
}

#[test]
fn offsets_repeat_with_the_primorial() {
    // 2 * 3 * 5 = 30, and 7 is the only valid offset in 1..=30.
    let pattern = [0u64, 4, 6, 10, 12, 16];
    let primes = generate_prime_table(100);
    let offsets = find_primorial_offsets(&pattern, &primes, 3, 5);
    assert_eq!(offsets, vec![7, 37, 67, 97, 127]);
    // 2 * 3 * 5 * 7 = 210; the valid offsets in 1..=210 for the pair (0, 2)
    // are 15 in number, so entry j + 15 is entry j plus 210.
    let twins = find_primorial_offsets(&[0, 2], &primes, 4, 20);
    assert_eq!(twins[0], 11);
    for j in 0..5 {
        assert_eq!(twins[j + 15], twins[j] + 210);
    }
}

#[test]
fn offset_search_without_room_finds_nothing() {
    let primes = generate_prime_table(100);
    assert_eq!(try_find_primorial_offsets(&[0, u64::MAX], &primes, 1, 1), None);
    assert_eq!(try_find_primorial_offsets(&[0, 4, 6], &primes, 3, 3), Some(vec![7, 13, 37]));
}

#[test]
fn offsets_are_the_first_valid_ones() {
    let pattern = [0u64, 2, 6, 8, 12, 18, 20, 26];
    let primes = generate_prime_table(100);
    let m = 4u64;
    let small: Vec<u64> = primes[1..=m as usize].iter().map(|&p| p as u64).collect();
    let valid = |o: u64| pattern.iter().all(|&d| small.iter().all(|&p| (o + d) % p != 0));
    let expected: Vec<u64> = (1u64..).filter(|&o| valid(o)).take(5).collect();
    assert_eq!(find_primorial_offsets(&pattern, &primes, m, 5), expected);
}

#[test]
fn offsets_without_primorial_primes_start_at_one() {
    let pattern = [0u64, 4];
    let primes = generate_prime_table(10);
    assert_eq!(find_primorial_offsets(&pattern, &primes, 0, 3), vec![1, 2, 3]);
}

#[test]
fn primorial_factors_grow_by_appending() {
    for m in 0..40u64 {
        let now = primorial_factors(m);
        let next = primorial_factors(m + 1);
        assert!(now.len() <= next.len());
        assert_eq!(&next[..now.len()], &now[..], "m = {m}");
    }
    assert_eq!(primorial_factors(9), vec![1, 2, 3, 5, 7, 11, 13, 17, 19, 23]);
}
