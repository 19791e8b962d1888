//! Texts, numbers, times and orders.

use std::io::BufRead;

use wintermute_lucid::clock::{read_clock, ClockBeforeEpoch};
use wintermute_lucid::now_ms;
use wintermute_lucid::order::{sorted_keys, sorted_order};
use wintermute_lucid::seconds::{push_hundredths, push_tenths, push_whole};
use wintermute_lucid::text::{
    blank, decimal_text, digit_char, has_prefix, lines_of, parse_unsigned, push_padded,
    push_signed, same, size, stands_before, strip, text_of, to_lower, chars_of,
};

#[test]
fn seconds_are_rounded_as_floats_are() {
    let mut samples: Vec<u64> = (0..30_000).collect();
    for k in 0..64 {
        let p = 1u64 << k;
        samples.extend([p.wrapping_sub(1), p, p + 1, p / 3, p.wrapping_mul(5) / 7]);
    }
    for d in 1..20u32 {
        let p = 10u64.pow(d);
        samples.extend([p - 1, p, p + 1, p + p / 2, p / 8 * 5 + 5, p + 25, p + 45, p + 50]);
    }
    samples.extend([u64::MAX, u64::MAX - 1, u64::MAX / 2, 9_007_199_254_740_993, 9_007_199_254_740_995]);
    let mut x: u64 = 88_172_645_463_325_252;
    for _ in 0..200_000 {
        x ^= x << 13;
        x ^= x >> 7;
        x ^= x << 17;
        samples.push(x >> (x % 60));
    }
    for ms in samples {
        let s = ms as f64 / 1000.0;
        let (mut two, mut one, mut none) = (String::new(), String::new(), String::new());
        push_hundredths(&mut two, ms);
        push_tenths(&mut one, ms);
        push_whole(&mut none, ms);
        assert_eq!(two, format!("{s:.2}"), "{ms}");
        assert_eq!(one, format!("{s:.1}"), "{ms}");
        assert_eq!(none, format!("{s:.0}"), "{ms}");
    }
}

#[test]
fn white_space_is_what_std_says() {
    for c in (0..=0x10ffffu32).filter_map(char::from_u32) {
        assert_eq!(blank(&c.to_string()), c.is_whitespace(), "{c:?}");
    }
    assert!(blank("") && blank(" \t\u{3000}") && !blank(" x "));
}

#[test]
fn numbers_are_read_as_std_reads_them() {
    for t in [
        "", "0", "7", "007", "+5", "++5", "-0", "-1", " 1", "1 ", "1_0", "x", "+", "1e3", "٣",
        "18446744073709551615", "18446744073709551616", "99999999999999999999999",
        "+00000000000000000000000018446744073709551615",
    ] {
        assert_eq!(parse_unsigned(t), t.parse::<u64>().ok(), "{t}");
    }
    for n in [0, 1, 9, 10, 99, 100, 12_345, u64::MAX] {
        assert_eq!(decimal_text(n), n.to_string());
        assert_eq!(parse_unsigned(&decimal_text(n)), Some(n));
    }
    for n in [0, -1, 5, i64::MIN, i64::MAX] {
        let mut out = String::new();
        push_signed(&mut out, n);
        assert_eq!(out, n.to_string());
    }
    assert_eq!(digit_char(7), '7');
}

#[test]
fn lines_are_split_as_std_splits_them() {
    for t in [
        "", "\n", "a", "a\n", "a\nb", "a\n\nb\n", "a\r\nb\r", "\r", "\r\n", "a\rb\n", "é\u{2028}x\n",
        "\n\n", "x\r\r\n",
    ] {
        let expected: Vec<String> =
            std::io::Cursor::new(t).lines().map(|l| l.expect("utf-8")).collect();
        assert_eq!(lines_of(t), expected, "{t:?}");
    }
}

#[test]
fn texts_are_cut_and_compared() {
    assert!(same("a", "a") && !same("a", "b") && !same("a", "aa"));
    assert!(has_prefix("abc", "ab") && has_prefix("abc", "") && !has_prefix("a", "ab"));
    assert_eq!(strip("segment-5.ndjson", "segment-", ".ndjson").as_deref(), Some("5"));
    assert_eq!(strip("segment-.ndjson", "segment-", ".ndjson").as_deref(), Some(""));
    assert_eq!(strip("aba", "ab", "ba"), None);
    assert_eq!(strip("xsegment-5", "segment-", ""), None);
    assert_eq!(to_lower("ÀBc-Z[`"), "ÀBc-Z[`".to_ascii_lowercase());
    assert_eq!(text_of(&chars_of("äöü"), 1, 3), "öü");
    assert_eq!(size("aé😀"), 7);
    for (t, width) in [("", 3), ("ab", 10), ("é", 2), ("long text", 4)] {
        let mut out = "x".to_string();
        push_padded(&mut out, t, width);
        assert_eq!(out, format!("x{t:<width$}"));
    }
}

#[test]
fn texts_stand_in_std_order() {
    let words = ["", "a", "aa", "ab", "b", "é", "\u{ffff}", "\u{10000}", "Z", "untagged-1", "turn"];
    for a in words {
        for b in words {
            assert_eq!(stands_before(a, b), a < b, "{a:?} {b:?}");
        }
    }
}

#[test]
fn sorting_keeps_the_order_of_equals() {
    let keys = vec![5u64, 1, 5, 0, 1, 5, u64::MAX, 0];
    let mut expected: Vec<usize> = (0..keys.len()).collect();
    expected.sort_by_key(|i| keys[*i]);
    assert_eq!(sorted_order(&keys), expected);
    let mut ascending = keys.clone();
    ascending.sort_unstable();
    assert_eq!(sorted_keys(&keys), ascending);
    assert!(sorted_order(&Vec::new()).is_empty());
}

#[test]
fn the_clock_is_read_in_milliseconds() {
    assert_eq!(read_clock(Some(1_234)), Ok(1_234));
    assert_eq!(read_clock(Some(u64::MAX as u128)), Ok(u64::MAX));
    assert_eq!(read_clock(Some(u64::MAX as u128 + 1)), Ok(u64::MAX));
    assert_eq!(read_clock(None), Err(ClockBeforeEpoch));
    let before = std::time::SystemTime::now()
        .duration_since(std::time::UNIX_EPOCH)
        .expect("after the epoch")
        .as_millis() as u64;
    let now = now_ms().expect("after the epoch");
    assert!(now >= before && now - before < 10_000);
}
