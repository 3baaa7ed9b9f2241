use primerug::sieve::{build_sieve, compute_mi, next_survivor, WorkBuffers, SIEVE_SIZE, SIEVE_WORDS};
use primerug::config::Config;

fn bit(table: &[u64], j: usize) -> bool {
    (table[j / 64] >> (j % 64)) & 1 == 1
}

fn inverse_mod(a: u64, p: u64) -> u64 {
    // a^(p-2) mod p for prime p.
    let mut result: u128 = 1;
    let mut base: u128 = (a % p) as u128;
    let mut e = p - 2;
    while e > 0 {
        if e & 1 == 1 {
            result = result * base % p as u128;
        }
        base = base * base % p as u128;
        e >>= 1;
    }
    result as u64
}

#[test]
fn compute_mi_gives_inverse_multiples() {
    assert_eq!(compute_mi(&[3], 7, 0), [3, 6, 5, 4]);
    assert_eq!(compute_mi(&[1, 5], 11, 1), [5, 10, 9, 8]);
    assert_eq!(compute_mi(&[0], 13, 0), [0, 0, 0, 0]);
}

#[test]
fn work_buffers_start_zeroed() {
    let mut b = WorkBuffers::new(6, 10);
    assert_eq!(b.factors_to_eliminate.len(), 60);
    assert!(b.factors_to_eliminate.iter().all(|&x| x == 0));
    assert_eq!(b.factors_table.len(), SIEVE_WORDS);
    assert!(b.factors_table.iter().all(|&x| x == 0));
    b.factors_to_eliminate[3] = 9;
    b.factors_table[7] = 1;
    b.reset_sieve();
    assert_eq!(b.factors_to_eliminate.len(), 60);
    assert!(b.factors_to_eliminate.iter().all(|&x| x == 0));
    assert!(b.factors_table.iter().all(|&x| x == 0));
}

#[test]
fn next_survivor_scans_in_order() {
    let mut table = vec![0u64; SIEVE_WORDS];
    assert_eq!(next_survivor(&table, 0), Some(0));
    assert_eq!(next_survivor(&table, 77), Some(77));
    table[0] = u64::MAX;
    table[1] = 0b1011;
    assert_eq!(next_survivor(&table, 0), Some(66));
    assert_eq!(next_survivor(&table, 67), Some(68));
    for w in table.iter_mut() {
        *w = u64::MAX;
    }
    assert_eq!(next_survivor(&table, 0), None);
    table[SIEVE_WORDS - 1] = !(1u64 << 63);
    assert_eq!(next_survivor(&table, 5), Some(SIEVE_SIZE as u32 - 1));
    assert_eq!(next_survivor(&table, SIEVE_SIZE as u32), None);
}

/// The sieve over the primorial 2 * 3 * 5 (m = 3; the prime 5 at index 3
/// divides it and has inverse 0): every marked position has a tuple member
/// divisible by a sieving prime, and every position whose tuple has such a
/// member is marked, position 0 included.
#[test]
fn sieve_marks_exactly_the_divisible_candidates() {
    let pattern_str = "0, 4, 6, 10, 12, 16";
    let config = Config::new(20, pattern_str, 3, 7, 100, 1, 10);
    let primorial: u64 = 30;
    let first: u64 = 1_000_000_000_000_000_000 + 7;
    let primes: Vec<u64> = vec![1, 2, 3, 5, 1009, 1013, 10007, 65537];
    let residues: Vec<u64> = primes.iter().map(|&p| first % p).collect();
    let inverses: Vec<u64> = primes
        .iter()
        .enumerate()
        .map(|(i, &p)| if i < 4 { 0 } else { inverse_mod(primorial, p) })
        .collect();
    let mut bufs = WorkBuffers::new(config.pattern.len(), primes.len());
    build_sieve(&mut bufs, &residues, &primes, &inverses, &config);
    let divisible = |j: u64| {
        primes[4..].iter().any(|&p| {
            config.pattern.iter().any(|&d| ((first as u128 + primorial as u128 * j as u128
                + d as u128) % p as u128) == 0)
        })
    };
    for j in 0..200_000u64 {
        assert_eq!(bit(&bufs.factors_table, j as usize), divisible(j), "position {j}");
    }
    for j in (SIEVE_SIZE as u64 - 5000)..(SIEVE_SIZE as u64) {
        assert_eq!(bit(&bufs.factors_table, j as usize), divisible(j), "position {j}");
    }
    assert_eq!(bit(&bufs.factors_table, 0), divisible(0));
    // Slots of the skipped primes are left alone; the others point at the
    // next element of their progression past the sieve.
    let t = config.pattern.len();
    for q in 0..4 * t {
        assert_eq!(bufs.factors_to_eliminate[q], 0);
    }
    for i in 4..primes.len() {
        let p = primes[i];
        for k in 0..t {
            let next = bufs.factors_to_eliminate[t * i + k] as u64;
            assert!(next < p);
            let position = next + SIEVE_SIZE as u64;
            let member = first as u128 + primorial as u128 * position as u128
                + config.pattern[k] as u128;
            assert_eq!(member % p as u128, 0);
        }
    }
}

#[test]
fn sieve_skips_primes_below_m_and_without_inverse() {
    let config = Config::new(20, "0, 2", 3, 1, 100, 1, 10);
    let primes: Vec<u64> = vec![1, 2, 3, 5, 7];
    let residues = vec![0u64; 5];
    let inverses = vec![0u64; 5];
    let mut bufs = WorkBuffers::new(2, 5);
    build_sieve(&mut bufs, &residues, &primes, &inverses, &config);
    assert!(bufs.factors_table.iter().all(|&w| w == 0));
    assert!(bufs.factors_to_eliminate.iter().all(|&x| x == 0));
}

#[test]
fn sieve_keeps_earlier_marks() {
    let config = Config::new(20, "0", 0, 1, 100, 1, 10);
    let primes: Vec<u64> = vec![1, 20_000_003];
    let residues = vec![0u64, 5];
    let inverses = vec![0u64, 1];
    let mut bufs = WorkBuffers::new(1, 2);
    bufs.factors_table[0] = 0b10;
    build_sieve(&mut bufs, &residues, &primes, &inverses, &config);
    // start = (p - 5) * 1 mod p = p - 5, the only position below the sieve size.
    assert!(bit(&bufs.factors_table, 1));
    assert!(bit(&bufs.factors_table, 20_000_003 - 5));
    let marked: usize = bufs.factors_table.iter().map(|w| w.count_ones() as usize).sum();
    assert_eq!(marked, 2);
    assert_eq!(bufs.factors_to_eliminate[0], 0);
    assert_eq!(
        bufs.factors_to_eliminate[1] as u64,
        (20_000_003 - 5 + 20_000_003) - SIEVE_SIZE as u64
    );
}

/// A prime whose inverse is given as 0 (it divides the primorial) is not
/// sieved: nothing is marked and its slots stay as they were.
#[test]
fn zero_inverse_prime_is_not_sieved() {
    let config = Config::new(20, "0, 2", 0, 1, 100, 1, 10);
    let primes: Vec<u64> = vec![1, 1_000_003];
    let residues = vec![0u64, 12345];
    let inverses = vec![0u64, 0];
    let mut bufs = WorkBuffers::new(2, 2);
    build_sieve(&mut bufs, &residues, &primes, &inverses, &config);
    assert!(bufs.factors_table.iter().all(|&w| w == 0));
    assert!(bufs.factors_to_eliminate.iter().all(|&x| x == 0));
}

/// The prime at index `m` is sieved when it has an inverse: primes
/// `[1, 2, 3, 5, 7]`, `m = 3`, primorial 6, inverses `[0, 0, 0, 1, 6]`, first
/// candidate 11; the members of position `f` are `6f + 11` and `6f + 13`.
#[test]
fn sieve_includes_the_prime_at_index_m() {
    let config = Config::new(10, "0, 2", 3, 5, 10, 1, 1);
    let primes: Vec<u64> = vec![1, 2, 3, 5, 7];
    let first: u64 = 11;
    let residues: Vec<u64> = primes.iter().map(|&p| first % p).collect();
    let inverses: Vec<u64> = vec![0, 0, 0, 1, 6];
    let mut bufs = WorkBuffers::new(2, 5);
    build_sieve(&mut bufs, &residues, &primes, &inverses, &config);
    assert_eq!(bufs.factors_to_eliminate, vec![0u32, 0, 0, 0, 0, 0, 2, 0, 2, 4]);
    assert_eq!(bufs.factors_table[0] & 0x1ff, 0xd4);
    for f in 0..100_000u64 {
        let expected = f % 5 == 2 || f % 5 == 4 || f % 7 == 4 || f % 7 == 6;
        assert_eq!(bit(&bufs.factors_table, f as usize), expected, "position {f}");
    }
    for f in (SIEVE_SIZE as u64 - 1000)..(SIEVE_SIZE as u64) {
        let expected = f % 5 == 2 || f % 5 == 4 || f % 7 == 4 || f % 7 == 6;
        assert_eq!(bit(&bufs.factors_table, f as usize), expected, "position {f}");
    }
}

/// The last prime of the primorial is not sieved: with primes
/// `[1, 2, 3, 5, 7]`, `m = 3`, primorial 30, offset 11 and target 1 the
/// first candidate is 41, and position 5 (members 191 and 193) stays clear.
#[test]
fn sieve_leaves_positions_without_composite_members() {
    let config = Config::new(20, "0, 2", 3, 11, 100, 1, 10);
    let primes: Vec<u64> = vec![1, 2, 3, 5, 7];
    let first: u64 = 30 + 11;
    let residues: Vec<u64> = primes.iter().map(|&p| first % p).collect();
    let inverses: Vec<u64> = vec![0, 0, 0, 0, inverse_mod(30, 7)];
    let mut bufs = WorkBuffers::new(2, 5);
    build_sieve(&mut bufs, &residues, &primes, &inverses, &config);
    assert!(!bit(&bufs.factors_table, 5));
    for j in 0..1000u64 {
        let member = first + 30 * j;
        let composite = member % 7 == 0 || (member + 2) % 7 == 0;
        assert_eq!(bit(&bufs.factors_table, j as usize), composite, "position {j}");
    }
}
