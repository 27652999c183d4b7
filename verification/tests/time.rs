use rata_wave::time::{ParseTimeError, ParseTimeErrorKind, Time, TimeUnit};

fn picos(text: &str) -> u64 {
    Time::from_str(text).unwrap().time()
}

fn kind(text: &str) -> ParseTimeErrorKind {
    Time::from_str(text).unwrap_err().kind
}

#[test]
fn parse_then_display_round_trips() {
    assert_eq!(Time::from_str("100ns").unwrap().display(), "100ns");
}

#[test]
fn parse_accepts_units_and_spaces() {
    assert_eq!(picos("100ns"), 100_000);
    assert_eq!(picos("100 ns"), 100_000);
    assert_eq!(picos("  100ns  "), 100_000);
    assert_eq!(picos("0.5us"), 500_000);
    assert_eq!(picos("100.001ns"), 100_001);
    assert_eq!(picos("1ps"), 1);
    assert_eq!(picos("1.0ps"), 1);
    assert_eq!(picos("2s"), 2_000_000_000_000);
    assert_eq!(picos("3ms"), 3_000_000_000);
    assert_eq!(picos(".5ns"), 500);
    assert_eq!(picos("5.ns"), 5_000);
    assert_eq!(picos("0ps"), 0);
    assert_eq!(picos("007ps"), 7);
}

#[test]
fn parse_rejects_fractions_of_a_picosecond() {
    assert_eq!(kind("0.1ps"), ParseTimeErrorKind::Fraction);
    assert_eq!(kind("100.0001ns"), ParseTimeErrorKind::Fraction);
    assert!(Time::from_str("100.001ns").is_ok());
}

#[test]
fn parse_reports_each_error() {
    assert_eq!(kind(""), ParseTimeErrorKind::Empty);
    assert_eq!(kind("   "), ParseTimeErrorKind::Empty);
    assert_eq!(kind("100"), ParseTimeErrorKind::Split);
    assert_eq!(kind("1.5"), ParseTimeErrorKind::Split);
    assert_eq!(kind("ns"), ParseTimeErrorKind::Number);
    assert_eq!(kind(".ns"), ParseTimeErrorKind::Number);
    assert_eq!(kind("1.2.3ns"), ParseTimeErrorKind::Number);
    assert_eq!(kind("100xs"), ParseTimeErrorKind::Unit);
    assert_eq!(kind("100 n s"), ParseTimeErrorKind::Unit);
    assert_eq!(kind("100NS"), ParseTimeErrorKind::Unit);
    assert_eq!(kind("100fs"), ParseTimeErrorKind::Femtosecond);
    assert_eq!(kind("0.1ps"), ParseTimeErrorKind::Fraction);
}

#[test]
fn error_messages_are_distinct() {
    let text = |kind| ParseTimeError { kind }.message();
    assert_eq!(text(ParseTimeErrorKind::Empty), "Empty string");
    assert_eq!(text(ParseTimeErrorKind::Split), "Split error");
    assert_eq!(text(ParseTimeErrorKind::Number), "Parse time error");
    assert_eq!(text(ParseTimeErrorKind::Unit), "Parse unit error");
    assert_eq!(text(ParseTimeErrorKind::Femtosecond), "Not support FS time scale");
    assert_eq!(text(ParseTimeErrorKind::Fraction), "Time must be an integer in ps");
    assert_eq!(
        ParseTimeError { kind: ParseTimeErrorKind::Unit }.display(),
        "Parse time error: Parse unit error"
    );
}

#[test]
fn parse_saturates_beyond_64_bits() {
    assert_eq!(picos("18446744073709551615ps"), u64::MAX);
    assert_eq!(picos("18446744073709551616ps"), u64::MAX);
    assert_eq!(picos("99999999999999999999999999s"), u64::MAX);
    assert_eq!(picos("18446744.073709551615s"), u64::MAX);
    assert_eq!(picos("18446744.073709551614s"), u64::MAX - 1);
}

#[test]
fn from_parts_takes_number_and_unit() {
    assert_eq!(Time::from_parts("12.5", "ns").unwrap().time(), 12_500);
    assert_eq!(Time::from_parts("12.5", " ns").unwrap_err().kind, ParseTimeErrorKind::Unit);
    assert_eq!(Time::from_parts("1e3", "ns").unwrap_err().kind, ParseTimeErrorKind::Number);
    assert_eq!(Time::from_parts("+1", "ns").unwrap_err().kind, ParseTimeErrorKind::Number);
    assert_eq!(Time::from_parts("", "ns").unwrap_err().kind, ParseTimeErrorKind::Number);
    assert_eq!(Time::from_parts("1", "").unwrap_err().kind, ParseTimeErrorKind::Unit);
}

#[test]
fn is_valid_agrees_with_parsing() {
    assert!(Time::is_valid("100ns").is_ok());
    assert!(Time::is_valid("100 ns").is_ok());
    assert!(Time::is_valid("0.5us").is_ok());
    assert!(Time::is_valid("100.001ns").is_ok());
    assert!(Time::is_valid("1ps").is_ok());
    assert!(Time::is_valid("0.1ps").is_err());
    assert!(Time::is_valid("100.0001ns").is_err());
    assert_eq!(Time::is_valid("").unwrap_err().kind, ParseTimeErrorKind::Empty);
}

#[test]
fn display_picks_the_largest_unit() {
    let show = |t: u64| Time::new(t, TimeUnit::PS).unwrap().display();
    assert_eq!(show(0), "0ps");
    assert_eq!(show(1), "1ps");
    assert_eq!(show(999), "999ps");
    assert_eq!(show(1_000), "1ns");
    assert_eq!(show(1_500), "1.5ns");
    assert_eq!(show(100_000), "100ns");
    assert_eq!(show(100_001), "100.001ns");
    assert_eq!(show(1_234_567), "1.234567us");
    assert_eq!(show(1_000_001), "1.000001us");
    assert_eq!(show(1_000_000_000), "1ms");
    assert_eq!(show(2_500_000_000_000), "2.5s");
    assert_eq!(show(u64::MAX), "18446744.073709551615s");
}

#[test]
fn new_scales_into_picoseconds() {
    assert_eq!(Time::new(10, TimeUnit::NS).unwrap().time(), 10_000);
    assert_eq!(Time::new(1, TimeUnit::S).unwrap().time(), 1_000_000_000_000);
    assert_eq!(Time::new(7, TimeUnit::MS).unwrap().time(), 7_000_000_000);
    assert_eq!(Time::new(7, TimeUnit::US).unwrap().time(), 7_000_000);
    assert_eq!(Time::new(7, TimeUnit::PS).unwrap().time(), 7);
    assert_eq!(Time::new(2_999, TimeUnit::FS).unwrap().time(), 2);
    assert_eq!(Time::new(10, TimeUnit::FS).unwrap().time(), 0);
    assert_eq!(Time::new(u64::MAX, TimeUnit::PS).unwrap().time(), u64::MAX);
}

#[test]
fn new_reports_overflow() {
    assert!(Time::new(18_446_745, TimeUnit::S).is_none());
    assert_eq!(
        Time::new(18_446_744, TimeUnit::S).unwrap().time(),
        18_446_744_000_000_000_000
    );
    assert!(Time::new(u64::MAX, TimeUnit::NS).is_none());
}

#[test]
fn increase_and_decrease_saturate() {
    let mut t = Time::new(100, TimeUnit::PS).unwrap();
    t.increase(50);
    assert_eq!(t.time(), 150);
    t.decrease(200);
    assert_eq!(t.time(), 0);
    t.increase(u64::MAX);
    t.increase(1);
    assert_eq!(t.time(), u64::MAX);
    t.decrease(u64::MAX - 5);
    assert_eq!(t.time(), 5);
}

#[test]
fn formulate_strips_groups_of_three_zeros() {
    let lead = |t: u64| Time::new(t, TimeUnit::PS).unwrap().formulate();
    assert_eq!(lead(0), 0);
    assert_eq!(lead(1), 1);
    assert_eq!(lead(999), 999);
    assert_eq!(lead(1_000), 1);
    assert_eq!(lead(50_000), 50);
    assert_eq!(lead(123_000_000), 123);
    assert_eq!(lead(10_000_000_000_000_000_000), 10);
}

#[test]
fn alignment_and_ladder_are_decided() {
    let time = |t: u64| Time::new(t, TimeUnit::PS).unwrap();
    assert!(time(0).is_aligned());
    assert!(time(123_000).is_aligned());
    assert!(!time(1_001).is_aligned());
    assert!(!time(1_000_500).is_aligned());
    assert!(!time(0).is_on_ladder());
    assert!(time(1).is_on_ladder());
    assert!(time(5).is_on_ladder());
    assert!(time(500_000).is_on_ladder());
    assert!(time(10_000_000_000_000_000_000).is_on_ladder());
    assert!(!time(2).is_on_ladder());
    assert!(!time(1_000_000_000_001).is_on_ladder());
    assert!(!time(5_001).is_on_ladder());
    assert!(!time(25_000).is_on_ladder());
}

#[test]
fn steps_walk_the_ladder() {
    let mut t = Time::new(1, TimeUnit::PS).unwrap();
    let expected: [u64; 9] = [5, 10, 50, 100, 500, 1_000, 5_000, 10_000, 50_000];
    for want in expected {
        t.step_increase();
        assert_eq!(t.time(), want);
    }
    for want in expected.iter().rev().skip(1) {
        t.step_decrease();
        assert_eq!(t.time(), *want);
    }
    t.step_decrease();
    assert_eq!(t.time(), 1);
    t.step_decrease();
    assert_eq!(t.time(), 1);
}

#[test]
fn step_up_then_down_returns() {
    let mut t = Time::from_str("100ns").unwrap();
    t.step_increase();
    assert_eq!(t.time(), 500_000);
    t.step_decrease();
    assert_eq!(t.time(), 100_000);
    let mut rung = Time::new(1, TimeUnit::PS).unwrap();
    while rung.time() < 10_000_000_000_000_000_000 {
        let here = rung.time();
        let mut probe = rung;
        probe.step_increase();
        probe.step_decrease();
        assert_eq!(probe.time(), here);
        rung.step_increase();
    }
    assert_eq!(rung.time(), 10_000_000_000_000_000_000);
}
