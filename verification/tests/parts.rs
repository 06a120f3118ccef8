use gping::args::{check_args, ArgsError, Flag};
use gping::command::{split_command, split_words, watch_interval_millis};
use gping::double::Double;
use gping::host::{
    ascii_host, display_name, name_to_resolve, select_address, Address, Family, HostError,
};
use gping::samples::{reply_values, Sample};
use gping::signed::Signed;
use gping::stats::{percentile_position, stats};
use gping::text::{decimal_string, joined};

fn samples(items: &[Option<u128>]) -> Vec<Sample> {
    items.iter().enumerate().map(|(i, rtt)| Sample { at: i as i64, rtt: *rtt }).collect()
}

#[test]
fn statistics_of_a_single_reply() {
    let s = stats(&samples(&[Some(700)])).unwrap();
    assert_eq!((s.last, s.min, s.max, s.avg), (700, 700, 700, 700));
    assert_eq!((s.jtr, s.p95, s.timeouts), (0, 0, 0));
}

#[test]
fn statistics_of_a_few_replies() {
    assert_eq!(stats(&samples(&[])), None);
    assert_eq!(stats(&samples(&[None, None])), None);
    let s = stats(&samples(&[Some(9), None, Some(1), Some(4), Some(4)])).unwrap();
    assert_eq!((s.last, s.min, s.max), (4, 1, 9));
    // 18 / 4 and (3 + 0 + 5) / 3, both rounded down.
    assert_eq!((s.avg, s.jtr), (4, 2));
    assert_eq!(s.timeouts, 1);
}

#[test]
fn the_percentile_needs_more_than_ten_replies() {
    let values: Vec<Option<u128>> = (1..=10).rev().map(|v| Some(v * 10)).collect();
    assert_eq!(stats(&samples(&values)).unwrap().p95, 0);
    let values: Vec<Option<u128>> = (1..=11).rev().map(|v| Some(v * 10)).collect();
    assert_eq!(stats(&samples(&values)).unwrap().p95, 110);
    let values: Vec<Option<u128>> = (1..=100).rev().map(|v| Some(v * 10)).collect();
    assert_eq!(stats(&samples(&values)).unwrap().p95, 960);
}

/// The mean, the mean distance and the 95th percentile of some round trips, in floating point.
fn reference(values: &[u128]) -> (u64, u64, u64) {
    let mut items: Vec<f64> = values.iter().map(|v| *v as f64).collect();
    items.sort_by(|a, b| a.partial_cmp(b).unwrap());
    let avg = items.iter().sum::<f64>() / items.len() as f64;
    let distances = items.windows(2).map(|pair| (pair[1] - pair[0]).abs());
    let jtr = distances.sum::<f64>() / (items.len() - 1) as f64;
    let position = (0.95 * items.len() as f32).round() as usize;
    let p95 = items.get(position).copied().unwrap_or(0.0);
    (avg as u64, jtr as u64, p95 as u64)
}

#[test]
fn statistics_are_those_of_double_precision() {
    let mut seed: u64 = 4_711;
    let mut random = move || {
        seed ^= seed << 13;
        seed ^= seed >> 7;
        seed ^= seed << 17;
        seed
    };
    for round in 0..3_000 {
        let shift = random() % 84;
        let mut value = || (random() as u128 * (1 << 20)) >> shift;
        let values: Vec<u128> = (0..1 + round % 40).map(|_| value()).collect();
        let items: Vec<Option<u128>> = values.iter().copied().map(Some).collect();
        let s = stats(&samples(&items)).unwrap();
        let shown = |value: u128| value as f64 as u64;
        assert_eq!((s.avg, s.jtr, s.p95), reference(&values), "{values:?}");
        assert_eq!(s.last, shown(*values.last().unwrap()));
        assert_eq!(s.min, shown(*values.iter().min().unwrap()));
        assert_eq!(s.max, shown(*values.iter().max().unwrap()));
    }
    let s = stats(&samples(&[Some(9_007_199_254_740_993)])).unwrap();
    assert_eq!([s.last, s.min, s.max], [9_007_199_254_740_992; 3]);
    let s = stats(&samples(&[Some(u64::MAX as u128), Some(u64::MAX as u128)])).unwrap();
    assert_eq!((s.avg, s.max, s.jtr), (u64::MAX, u64::MAX, 0));
}

#[test]
fn small_statistics_are_exact() {
    let values = [1u128 << 51, 1 << 51, (1 << 51) + 1, 5, 6];
    let items: Vec<Option<u128>> = values.iter().copied().map(Some).collect();
    let s = stats(&samples(&items)).unwrap();
    assert_eq!(s.avg as u128, values.iter().sum::<u128>() / 5);
    assert_eq!(s.jtr, ((1 << 51) - 4) / 4);
    assert_eq!((s.last, s.min, s.max), (6, 5, (1 << 51) + 1));
}

#[test]
fn the_percentile_position_is_that_of_single_precision() {
    for count in (0..3_000_000usize).step_by(7) {
        let expected = (0.95 * count as f32).round() as usize;
        assert_eq!(percentile_position(count), expected, "{}", count);
    }
    for shift in 0..64 {
        let count = usize::MAX >> shift;
        let expected = (0.95 * count as f32).round() as usize;
        assert_eq!(percentile_position(count), expected, "{}", count);
    }
    assert_eq!(percentile_position(30), 29);
    // From here on single precision can be a step off 95 hundredths.
    assert_eq!(percentile_position(2_207_530), (95 * 2_207_530 + 50) / 100);
    assert_ne!(percentile_position(2_207_531), (95 * 2_207_531 + 50) / 100);
    assert_eq!(percentile_position(3_024_011), 2_872_811);
}

#[test]
fn every_sample_is_a_reply_or_a_timeout() {
    let data = samples(&[Some(1), None, Some(2), None, None]);
    assert_eq!(reply_values(&data), vec![1, 2]);
    assert_eq!(stats(&data).unwrap().timeouts + reply_values(&data).len(), data.len());
}

#[test]
fn the_mean_distance_is_the_spread_over_the_gaps() {
    let s = stats(&samples(&[Some(31), Some(4), Some(15), Some(92), Some(65)])).unwrap();
    assert_eq!(s.jtr, (s.max - s.min) / 4);
    assert!(s.min <= s.avg && s.avg <= s.max);
}

#[test]
fn sums_do_not_overflow() {
    let s = stats(&samples(&[Some(u64::MAX as u128), Some(u64::MAX as u128), Some(1)])).unwrap();
    // In double precision the greatest number of microseconds is 2 to the 64th.
    assert_eq!(s.avg, (2f64.powi(65) / 3.0) as u64);
    assert_eq!(s.jtr, 1 << 63);
    assert_eq!(s.max, u64::MAX);
}

#[test]
fn decimals() {
    assert_eq!(decimal_string(0), "0");
    assert_eq!(decimal_string(9), "9");
    assert_eq!(decimal_string(10), "10");
    assert_eq!(decimal_string(1_234_567_890), "1234567890");
    assert_eq!(decimal_string(u64::MAX), u64::MAX.to_string());
    assert_eq!(joined("a", "b"), "ab");
}

#[test]
fn ascii_hosts_are_left_alone() {
    assert_eq!(ascii_host("Example.com").unwrap(), "Example.com");
    assert_eq!(ascii_host("").unwrap(), "");
    assert_eq!(name_to_resolve("Example.com", Some("other".to_string())).unwrap(), "Example.com");
}

#[test]
fn other_hosts_are_encoded() {
    assert_eq!(ascii_host("bücher.example").unwrap(), "xn--bcher-kva.example");
    assert_eq!(name_to_resolve("ü", Some("xn--tda".to_string())).unwrap(), "xn--tda");
}

#[test]
fn hosts_without_an_encoding_are_refused() {
    let error = ascii_host("xn--ü").unwrap_err();
    assert!(matches!(error, HostError::Encoding(_)));
    assert_eq!(error.message(), "Could not encode host xn--ü to punycode");
    assert!(name_to_resolve("ü", None).is_err());
}

fn addresses() -> Vec<Address> {
    vec![
        Address { is_ipv4: false, text: "::1".to_string() },
        Address { is_ipv4: true, text: "127.0.0.1".to_string() },
        Address { is_ipv4: true, text: "127.0.0.2".to_string() },
        Address { is_ipv4: false, text: "::2".to_string() },
    ]
}

#[test]
fn the_first_suitable_address_is_selected() {
    assert_eq!(select_address("h", &addresses(), Family::Any).unwrap(), "::1");
    assert_eq!(select_address("h", &addresses(), Family::V4).unwrap(), "127.0.0.1");
    assert_eq!(select_address("h", &addresses().split_off(1), Family::V6).unwrap(), "::2");
}

#[test]
fn missing_addresses_are_errors() {
    let v6: Vec<Address> = addresses().into_iter().filter(|a| !a.is_ipv4).collect();
    let v4: Vec<Address> = addresses().into_iter().filter(|a| a.is_ipv4).collect();
    let message = |addresses: &Vec<Address>, family| {
        select_address("h", addresses, family).unwrap_err().message()
    };
    assert_eq!(message(&v6, Family::V4), "Could not resolve 'h' to IPv4");
    assert_eq!(message(&v4, Family::V6), "Could not resolve 'h' to IPv6");
    assert_eq!(message(&vec![], Family::Any), "Could not resolve hostname h");
    assert_eq!(message(&vec![], Family::V4), "Could not resolve hostname h");
}

#[test]
fn flags_choose_the_family() {
    assert_eq!(Family::from_flags(false, false), Family::Any);
    assert_eq!(Family::from_flags(true, false), Family::V4);
    assert_eq!(Family::from_flags(false, true), Family::V6);
    assert_eq!(Family::from_flags(true, true), Family::V4);
}

#[test]
fn hosts_are_shown_with_their_address() {
    assert_eq!(display_name("one.one", Some("1.1.1.1")), "one.one (1.1.1.1)");
    assert_eq!(display_name("ls -l", None), "ls -l");
}

#[test]
fn commands_are_split_at_whitespace() {
    let (program, arguments) = split_command("  curl\t-s \x0Chttps://example.com\r\n").unwrap();
    assert_eq!(program, "curl");
    assert_eq!(arguments, vec!["-s", "https://example.com"]);
    let (program, arguments) = split_command("true").unwrap();
    assert_eq!((program.as_str(), arguments.len()), ("true", 0));
    assert!(split_command("").is_none());
    assert!(split_command(" \n").is_none());
    for line in ["a b", " ä\u{a0}ö  ü ", "\u{b}x\u{b} y", "\u{2003}"] {
        let expected: Vec<String> = line.split_ascii_whitespace().map(String::from).collect();
        assert_eq!(split_words(line), expected);
    }
}

#[test]
fn usual_intervals() {
    assert_eq!(watch_interval_millis(None, false), 200);
    assert_eq!(watch_interval_millis(None, true), 500);
    assert_eq!(watch_interval_millis(Some(1_500), true), 1_500);
    assert_eq!(watch_interval_millis(Some(0), false), 0);
}

fn signed(value: f64) -> Signed {
    let bits = value.abs().to_bits();
    let fraction = bits & ((1 << 52) - 1);
    let size = match (bits >> 52) as u32 {
        0 => Double { mant: fraction, shift: 0 },
        exponent => Double { mant: fraction | 1 << 52, shift: exponent - 1 },
    };
    Signed { negative: value < 0.0, size }
}

fn flag(level: Option<f64>, shown: &str) -> Option<Flag> {
    Some(Flag { level: level.map(signed), shown: shown.to_string() })
}

fn message(targets: usize, y_min: Option<Flag>, y_max: Option<Flag>) -> String {
    check_args(targets, &y_min, &y_max).unwrap_err().message()
}

#[test]
fn good_arguments_fix_the_ends_of_the_axis() {
    assert_eq!(check_args(1, &None, &None).unwrap(), (None, None));
    assert_eq!(
        check_args(2, &flag(Some(0.0), "0"), &flag(Some(5.0), "5")).unwrap(),
        (Some(signed(0.0)), Some(signed(5.0)))
    );
}

#[test]
fn bad_arguments_are_refused() {
    assert!(matches!(check_args(0, &None, &None), Err(ArgsError::NoTarget)));
    assert_eq!(
        message(0, flag(None, "inf"), None),
        "At least one host or command must be given (i.e gping google.com). Use --help for a full list of arguments."
    );
    assert_eq!(
        message(1, flag(Some(-1.0), "-1"), flag(Some(0.0), "0")),
        "--ymin must be a positive number, got -1"
    );
    assert_eq!(message(1, flag(None, "NaN"), None), "--ymin must be a positive number, got NaN");
    assert_eq!(
        message(1, None, flag(Some(0.0), "0")),
        "--ymax must be a positive number, got 0"
    );
    assert_eq!(message(1, None, flag(None, "inf")), "--ymax must be a positive number, got inf");
    assert_eq!(
        message(1, flag(Some(7.0), "7"), flag(Some(7.0), "7")),
        "--ymin must be lower than --ymax"
    );
    // Ends that are as close as they can be are still in order.
    let next = f64::from_bits(7f64.to_bits() + 1);
    assert!(check_args(1, &flag(Some(7.0), "7"), &flag(Some(next), "7")).is_ok());
    assert!(check_args(1, &flag(Some(next), "7"), &flag(Some(7.0), "7")).is_err());
    assert!(check_args(1, &None, &flag(Some(5e-324), "5e-324")).is_ok());
}

#[test]
fn whitespace_parts_words() {
    let line = |a: &str, c: char, b: &str| split_words(&format!("{a}{c}{b}"));
    for c in [' ', '\t', '\n', '\x0C', '\r'] {
        assert_eq!(line("ls -l", c, " a b"), vec!["ls", "-l", "a", "b"]);
        assert_eq!(line("", c, "one"), split_words("one"));
        assert_eq!(line("one ", c, ""), split_words("one"));
    }
    assert_eq!(split_words("one\u{a0}word"), vec!["one\u{a0}word"]);
}
