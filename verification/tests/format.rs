use gcan::format::{
    explain, human_age, iec_size, parse_age, parse_size, read_age, read_size, split_numeric,
    ValueFault,
};

#[test]
fn age_format() {
    assert_eq!(human_age(0), "0m");
    assert_eq!(human_age(59), "0m");
    assert_eq!(human_age(60), "1m");
    assert_eq!(human_age(3_599), "59m");
    assert_eq!(human_age(3_600), "1h");
    assert_eq!(human_age(86_399), "23h");
    assert_eq!(human_age(86_400), "1d");
    assert_eq!(human_age(505 * 86_400), "505d");
}

#[test]
fn size_parse() {
    assert_eq!(parse_size("1024").unwrap(), 1024);
    assert_eq!(parse_size("500M").unwrap(), 500 * 1024 * 1024);
    assert_eq!(parse_size("2G").unwrap(), 2 * 1024 * 1024 * 1024);
    assert_eq!(
        parse_size("1.5G").unwrap(),
        (1.5 * 1024.0 * 1024.0 * 1024.0) as u64
    );
    assert_eq!(parse_size("0").unwrap(), 0);
    assert!(parse_size("abc").is_err());
    assert!(parse_size("1Q").is_err());
}

#[test]
fn age_parse() {
    assert_eq!(parse_age("90").unwrap(), 90);
    assert_eq!(parse_age("30d").unwrap(), 30 * 86_400);
    assert_eq!(parse_age("12h").unwrap(), 12 * 3_600);
    assert_eq!(parse_age("2w").unwrap(), 2 * 604_800);
    assert_eq!(parse_age("45m").unwrap(), 45 * 60);
    assert!(parse_age("3x").is_err());
}

/// What `numfmt --to=iec --suffix=B` prints for each value.
#[test]
fn iec_matches_numfmt() {
    let values: [(u64, &str); 24] = [
        (0, "0B"),
        (1, "1B"),
        (96, "96B"),
        (1000, "1000B"),
        (1023, "1023B"),
        (1024, "1.0KB"),
        (1025, "1.1KB"),
        (1536, "1.5KB"),
        (7987, "7.8KB"),
        (9999, "9.8KB"),
        (10_239, "10KB"),
        (10_240, "10KB"),
        (10_241, "11KB"),
        (201_424, "197KB"),
        (1_048_575, "1.0MB"),
        (1_048_576, "1.0MB"),
        (737_120_568, "703MB"),
        (1_073_741_824, "1.0GB"),
        (3_700_000_000, "3.5GB"),
        (8_100_000_000, "7.6GB"),
        (13_000_000_000, "13GB"),
        (33_000_000_000, "31GB"),
        (201_424_000_000, "188GB"),
        (1_099_511_627_776, "1.0TB"),
    ];
    for (v, expected) in values {
        assert_eq!(iec_size(v), expected, "mismatch for {v} bytes");
    }
}

#[test]
fn iec_at_the_edges() {
    assert_eq!(iec_size(u64::MAX), "16EB");
    assert_eq!(iec_size(1_048_577), "1.1MB");
    assert_eq!(iec_size(10_485_760), "10MB");
    assert_eq!(iec_size(1_073_741_823), "1.0GB");
}

#[test]
fn sizes_round_up_and_stay_short() {
    for v in [1_025u64, 1_100, 10_241, 1_048_500, 123_456_789, u64::MAX] {
        let text = iec_size(v);
        assert!(text.len() <= 6, "{text}");
        let shown = parse_size(&text).unwrap();
        assert!(shown >= v, "{text} is below {v}");
    }
}

#[test]
fn shown_sizes_read_back() {
    let mut v = 1u64;
    while v < 1 << 50 {
        for bytes in [v - 1, v, v + 1, v + v / 3, v + v / 2, 10 * v - 1, 10 * v] {
            if bytes >= 1 << 50 {
                continue;
            }
            let n = parse_size(&iec_size(bytes)).unwrap();
            assert!(n >= bytes, "{bytes}");
            assert!(10 * (n - bytes) <= bytes + 5, "{bytes}");
            assert!(bytes >= 1024 || n == bytes, "{bytes}");
        }
        v *= 2;
    }
}

#[test]
fn size_units_in_any_case() {
    for unit in ["k", "K", "kb", "kB", "KiB", "kib", "KIB"] {
        assert_eq!(parse_size(&format!("3{unit}")).unwrap(), 3 * 1024);
    }
    assert_eq!(parse_size("1b").unwrap(), 1);
    assert_eq!(parse_size("1T").unwrap(), 1 << 40);
    assert_eq!(parse_size("1p").unwrap(), 1 << 50);
    assert_eq!(parse_size("1EiB").unwrap(), 1 << 60);
    assert_eq!(parse_age("1W").unwrap(), 604_800);
    assert_eq!(parse_age("7S").unwrap(), 7);
}

#[test]
fn sizes_are_read_like_doubles() {
    let texts = [
        "0.1", "0.5", "1.5", "2.5", "0.49999999999999994", "9007199254740993", ".5", "5.",
        "18446744073709551615", "18446744073709551616", "123456789012345678901234567890",
        "0.000000000000000000001", "1.7976931348623157", "4503599627370497.5", "00012.50",
    ];
    for text in texts {
        let expected = match text.parse::<f64>() {
            Ok(v) => Some(v.round() as u64),
            Err(_) => None,
        };
        assert_eq!(parse_size(text).ok(), expected, "{text}");
    }
    let k = parse_size("0.1K").unwrap();
    assert_eq!(k, (0.1f64 * 1024.0).round() as u64);
    assert_eq!(parse_size("16E").unwrap(), u64::MAX);
    assert_eq!(parse_size("1.1G").unwrap(), (1.1f64 * 1073741824.0).round() as u64);
    let huge = "9".repeat(400);
    assert_eq!(parse_size(&huge).unwrap_err(), format!("invalid size: {huge:?}"));
}

#[test]
fn many_sizes_are_read_like_doubles() {
    let units = [("", 1u64), ("K", 1 << 10), ("M", 1 << 20), ("G", 1 << 30), ("E", 1 << 60)];
    let mut x = 88172645463325252u64;
    for n in 0..400usize {
        x ^= x << 13;
        x ^= x >> 7;
        x ^= x << 17;
        let digits = x.to_string();
        let cut = n % (digits.len() + 1);
        let text = if n % 5 == 0 {
            format!("{}.{}{}", &digits[..cut], "0".repeat(n % 30), &digits[cut..])
        } else {
            format!("{}.{}", &digits[..cut], &digits[cut..])
        };
        let (unit, factor) = units[n % units.len()];
        let expected = (text.parse::<f64>().unwrap() * factor as f64).round() as u64;
        assert_eq!(parse_size(&format!("{text}{unit}")), Ok(expected), "{text}{unit}");
    }
}

#[test]
fn whole_sizes_are_exact() {
    assert_eq!(parse_size("9007199254740991").unwrap(), 9_007_199_254_740_991);
    assert_eq!(parse_size("17179869183G").unwrap(), 17_179_869_183 << 30);
}

#[test]
fn size_faults() {
    assert_eq!(parse_size("").unwrap_err(), "invalid size: \"\"");
    assert_eq!(parse_size("  \t ").unwrap_err(), "invalid size: \"\"");
    assert_eq!(parse_size("abc").unwrap_err(), "invalid size unit in: \"abc\"");
    assert_eq!(parse_size(" 1Q ").unwrap_err(), "invalid size unit in: \"1Q\"");
    assert_eq!(parse_size("1.2.3").unwrap_err(), "invalid size unit in: \"1.2.3\"");
    assert_eq!(parse_size(".").unwrap_err(), "invalid size: \".\"");
    assert_eq!(parse_size("K").unwrap_err(), "invalid size: \"K\"");
    assert_eq!(parse_size("-1").unwrap_err(), "invalid size unit in: \"-1\"");
    assert_eq!(parse_size("1\"").unwrap_err(), "invalid size unit in: \"1\\\"\"");
    assert_eq!(read_size("1Q"), Err(ValueFault::Unit));
    assert_eq!(read_size("."), Err(ValueFault::Invalid));
}

#[test]
fn age_faults() {
    assert_eq!(parse_age("").unwrap_err(), "invalid age: \"\"");
    assert_eq!(parse_age("3x").unwrap_err(), "invalid age unit in: \"3x\"");
    assert_eq!(parse_age("1.5d").unwrap_err(), "invalid age: \"1.5d\"");
    assert_eq!(parse_age("d").unwrap_err(), "invalid age: \"d\"");
    assert_eq!(parse_age("1.2.3d").unwrap_err(), "invalid age unit in: \"1.2.3d\"");
    assert_eq!(
        parse_age("18446744073709551615m").unwrap_err(),
        "age out of range: \"18446744073709551615m\""
    );
    assert_eq!(parse_age("18446744073709551616").unwrap_err(), "invalid age: \"18446744073709551616\"");
    assert_eq!(read_age("18446744073709551615m"), Err(ValueFault::Range));
    assert_eq!(parse_age("18446744073709551615").unwrap(), u64::MAX);
}

#[test]
fn values_are_split_behind_the_number() {
    let parts = |s: &str| split_numeric(s);
    assert_eq!(parts("1.5G"), (String::from("1.5"), String::from("G")));
    assert_eq!(parts("GB"), (String::new(), String::from("GB")));
    assert_eq!(parts("42"), (String::from("42"), String::new()));
    assert_eq!(parts("1.2.3M"), (String::from("1.2"), String::from(".3M")));
    assert_eq!(parts("..5"), (String::from("."), String::from(".5")));
    assert_eq!(parts("1."), (String::from("1."), String::new()));
}

#[test]
fn faults_are_explained() {
    assert_eq!(explain(Ok(7), "size", "\"7\""), Ok(7));
    assert_eq!(
        explain(Err(ValueFault::Range), "age", "\"9w\"").unwrap_err(),
        "age out of range: \"9w\""
    );
}
