use primerug::constellation::Constellation;
use primerug::stats::{counts_per_second, eta_display, EtaUnit, Stats};
use primerug::target::{decimal_digit_byte, random_target_digits, target_digits_from_draws};

#[test]
fn stats_have_one_counter_per_pattern_length_and_one_more() {
    let s = Stats::new(6);
    assert_eq!(s.pattern_len(), 6);
    for i in 0..=6 {
        assert_eq!(s.count(i), 0);
    }
    s.increment(0);
    s.increment(0);
    s.increment(6);
    assert_eq!(s.count(0), 2);
    assert_eq!(s.count(6), 1);
    assert_eq!(s.count(3), 0);
}

#[test]
fn cps_is_zero_in_the_first_second() {
    let s = Stats::new(2);
    s.increment(0);
    assert_eq!(s.cps(), 0);
}

#[test]
fn counts_per_second_divides() {
    assert_eq!(counts_per_second(100, 0), 0);
    assert_eq!(counts_per_second(100, 3), 33);
    assert_eq!(counts_per_second(0, 3), 0);
    assert_eq!(counts_per_second(u64::MAX, 1), u64::MAX);
}

#[test]
fn eta_units() {
    assert_eq!(eta_display(0), (0, EtaUnit::Seconds));
    assert_eq!(eta_display(59), (59, EtaUnit::Seconds));
    assert_eq!(eta_display(60), (1, EtaUnit::Minutes));
    assert_eq!(eta_display(3599), (59, EtaUnit::Minutes));
    assert_eq!(eta_display(3600), (1, EtaUnit::Hours));
    assert_eq!(eta_display(86399), (23, EtaUnit::Hours));
    assert_eq!(eta_display(86400), (1, EtaUnit::Days));
    assert_eq!(eta_display(31556951), (365, EtaUnit::Days));
    assert_eq!(eta_display(31556952), (1, EtaUnit::Years));
    // A readme line shows "eta: 14 h".
    assert_eq!(eta_display(14 * 3600 + 10), (14, EtaUnit::Hours));
}

#[test]
fn random_targets_have_the_asked_digits() {
    let mut rng = rand::thread_rng();
    for digits in [1u32, 2, 10, 100, 400] {
        let s = random_target_digits(digits, &mut rng);
        assert_eq!(s.len(), digits as usize);
        assert!((b'1'..=b'9').contains(&s[0]));
        assert!(s.iter().all(|c| c.is_ascii_digit()));
    }
    let long = random_target_digits(400, &mut rng);
    assert!(long.iter().any(|&c| c != long[1]), "digits are drawn, not fixed");
    let s = random_target_digits(0, &mut rng);
    assert_eq!(s.len(), 1);
    assert!((b'1'..=b'9').contains(&s[0]));
}

#[test]
fn digit_bytes() {
    assert_eq!(decimal_digit_byte(0), b'0');
    assert_eq!(decimal_digit_byte(7), b'7');
    assert_eq!(decimal_digit_byte(9), b'9');
}

#[test]
fn constellation_keeps_pattern_and_offsets() {
    let base = Constellation::default();
    assert!(base.pattern().is_empty());
    assert!(base.offsets().is_empty());
    let c = base.new(vec![0, 4, 6], vec![7, 37]);
    assert_eq!(c.pattern(), &[0, 4, 6]);
    assert_eq!(c.offsets(), &[7, 37]);
}

#[test]
fn drawn_values_become_the_digits_in_order() {
    assert_eq!(target_digits_from_draws(&[3, 0, 7, 9]), b"3079".to_vec());
    assert_eq!(target_digits_from_draws(&[1]), b"1".to_vec());
    assert_eq!(target_digits_from_draws(&[]), Vec::<u8>::new());
    let s = target_digits_from_draws(&[9, 9, 9]);
    let value: u64 = std::str::from_utf8(&s).unwrap().parse().unwrap();
    assert_eq!(value, 999);
}
