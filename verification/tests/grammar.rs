use ratelimit_rs::handlers::memcache::parse_specification;
use regex::Regex;

/// The rule in front of a key, read with a pattern.
fn by_pattern(pattern: &Regex, keyname: &str) -> Option<(u32, u32, String)> {
    let caps = pattern.captures(keyname)?;
    let hits = caps.get(1)?.as_str().parse::<u32>().ok()?;
    let seconds = caps.get(2)?.as_str().parse::<u32>().ok()?;
    let keyname = caps.get(3)?.as_str().to_string();
    Some((hits, seconds.checked_mul(1000)?, keyname))
}

fn pattern() -> Regex {
    Regex::new(r"^(\d+)/(\d+)_(.+)$").unwrap()
}

#[test]
fn every_short_key_reads_as_the_pattern_reads_it() {
    let pattern = pattern();
    let alphabet = ['0', '7', '/', '_', 'k', '\n', '\u{663}'];
    let mut keys: Vec<String> = vec![String::new()];
    let mut from = 0;
    for _ in 0..6 {
        let to = keys.len();
        for i in from..to {
            for c in alphabet {
                let mut longer = keys[i].clone();
                longer.push(c);
                keys.push(longer);
            }
        }
        from = to;
    }
    assert_eq!(keys.len(), 1 + 7 + 49 + 343 + 2401 + 16807 + 117649);
    let mut with_rule = 0;
    for key in &keys {
        let parsed = parse_specification(key);
        assert_eq!(parsed, by_pattern(&pattern, key), "{:?}", key);
        if parsed.is_some() {
            with_rule += 1;
        }
    }
    // One or two digits twice, and one or two characters that are no line feed.
    assert_eq!(with_rule, 2 * 2 * 6 + 4 * 2 * 6 + 2 * 4 * 6 + 2 * 2 * 6 * 6);
}

#[test]
fn numbers_read_as_the_pattern_reads_them() {
    let pattern = pattern();
    let numbers = [
        "0", "00", "1", "9", "10", "007", "1000", "4147200", "4147201", "4294967", "4294968",
        "42949672", "429496729", "4294967295", "4294967296", "4294967300", "04294967295",
        "9999999999", "18446744073709551616", "99999999999999999999999999999999", "",
        "\u{661}\u{662}", "1\u{660}", "\u{ff11}", "\u{1d7ce}", "1e3", "0x10", "1_0", " 1", "1 ", "-1",
        "+1", "1.5",
    ];
    let mut with_rule = 0;
    for hits in numbers {
        for seconds in numbers {
            for rest in ["k", "", "_", "a/b_c", "\n", "a\nb", "a\r\n", "\u{e9}", " "] {
                let key = format!("{}/{}_{}", hits, seconds, rest);
                let parsed = parse_specification(&key);
                assert_eq!(parsed, by_pattern(&pattern, &key), "{:?}", key);
                if parsed.is_some() {
                    with_rule += 1;
                }
            }
        }
    }
    assert!(with_rule > 500);
}
