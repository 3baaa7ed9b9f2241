use primerug::config::{Args, Config};

#[test]
fn parse_default_pattern() {
    assert_eq!(Config::parse_pattern("0, 4, 6, 10, 12, 16"), Some(vec![0, 4, 6, 10, 12, 16]));
}

#[test]
fn parse_pattern_trims_and_accepts_plus() {
    assert_eq!(Config::parse_pattern(" 1 ,+2,\t3\n"), Some(vec![1, 2, 3]));
    assert_eq!(Config::parse_pattern("7\u{a0}"), Some(vec![7]));
    assert_eq!(Config::parse_pattern("007"), Some(vec![7]));
}

#[test]
fn parse_pattern_rejects_bad_fields() {
    assert_eq!(Config::parse_pattern(""), None);
    assert_eq!(Config::parse_pattern("1,,2"), None);
    assert_eq!(Config::parse_pattern("1,"), None);
    assert_eq!(Config::parse_pattern("-1"), None);
    assert_eq!(Config::parse_pattern("+"), None);
    assert_eq!(Config::parse_pattern("1 2"), None);
    assert_eq!(Config::parse_pattern("a"), None);
}

#[test]
fn parse_pattern_limits_to_u64() {
    assert_eq!(Config::parse_pattern("18446744073709551615"), Some(vec![u64::MAX]));
    assert_eq!(Config::parse_pattern("18446744073709551616"), None);
    assert_eq!(Config::parse_pattern("99999999999999999999,1"), None);
}

#[test]
fn parse_pattern_agrees_with_std() {
    let samples = ["0, 2, 6, 8, 12, 18, 20, 26", " 5", "5 ", "+0", "1,2,3", "0x10", "1.5", " , "];
    for s in samples {
        let std_result: Result<Vec<u64>, _> =
            s.split(',').map(|p| p.trim().parse::<u64>()).collect();
        assert_eq!(Config::parse_pattern(s), std_result.ok(), "{s:?}");
    }
}

#[test]
fn half_pattern_halves_the_gaps() {
    assert_eq!(Config::compute_half_pattern(&[0, 4, 6, 10, 12, 16]), vec![0, 2, 1, 2, 1, 2]);
    assert_eq!(Config::compute_half_pattern(&[0, 3]), vec![0, 1]);
    assert_eq!(Config::compute_half_pattern(&[5]), vec![0]);
    assert_eq!(Config::compute_half_pattern(&[]), vec![0]);
}

#[test]
fn config_new_keeps_its_values() {
    let c = Config::new(100, "0, 2, 6, 8, 12, 18, 20, 26", 50, 380284918609481, 16777216, 1, 10);
    assert_eq!(c.digits, 100);
    assert_eq!(c.pattern, vec![0, 2, 6, 8, 12, 18, 20, 26]);
    assert_eq!(c.half_pattern, vec![0, 1, 2, 1, 2, 3, 1, 3]);
    assert_eq!(c.m, 50);
    assert_eq!(c.o, 380284918609481);
    assert_eq!(c.prime_table_limit, 16777216);
    assert_eq!(c.threads, 1);
    assert_eq!(c.sieve_iterations, 10);
}

#[test]
fn config_try_new_refuses_bad_patterns() {
    assert!(Config::try_new(100, "0, 4, 2", 3, 97, 100000, 1, 10).is_none());
    assert!(Config::try_new(100, "0, x", 3, 97, 100000, 1, 10).is_none());
    let c = Config::try_new(100, "0, 4, 6", 3, 97, 100000, 1, 10).unwrap();
    assert_eq!(c.pattern, vec![0, 4, 6]);
    assert_eq!(c.half_pattern, vec![0, 2, 1]);
}

#[test]
fn args_hold_their_values() {
    let a = Args {
        digits: 100,
        m: 0,
        o: 0,
        pattern: String::from("0, 4, 6, 10, 12, 16"),
        table_limit: 100_000,
        stats_interval: 5,
        threads: 1,
        sieve_iterations: 10,
        sieve_workers: 0,
        gpu_socket: String::new(),
        gpu_batch_size: 32768,
    };
    assert_eq!(a.digits, 100);
    assert_eq!(a.pattern, "0, 4, 6, 10, 12, 16");
}

#[test]
fn decimal_pattern_text_reads_back() {
    let patterns: [&[u64]; 3] = [&[0, 4, 6, 10, 12, 16], &[7], &[0, 18446744073709551615, 120]];
    for v in patterns {
        for sep in [",", ", ", " ,", "  ,\t"] {
            let text = v.iter().map(|x| x.to_string()).collect::<Vec<_>>().join(sep);
            assert_eq!(Config::parse_pattern(&text), Some(v.to_vec()), "text {text:?}");
        }
    }
}
