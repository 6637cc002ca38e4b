use memvid_search::calendar::timestamp_to_rfc3339;
use memvid_search::numeral::{push_decimal, signed_to_string};

fn shown(timestamp: i64) -> String {
    match timestamp_to_rfc3339(timestamp) {
        Some(text) => text,
        None => "none".to_string(),
    }
}

#[test]
fn timestamps_are_shown_in_utc() {
    assert_eq!(shown(0), "1970-01-01T00:00:00Z");
    assert_eq!(shown(-1), "1969-12-31T23:59:59Z");
    assert_eq!(shown(1_700_000_000), "2023-11-14T22:13:20Z");
    assert_eq!(shown(86_399), "1970-01-01T23:59:59Z");
    assert_eq!(shown(86_400), "1970-01-02T00:00:00Z");
}

#[test]
fn leap_days_are_shown() {
    assert_eq!(shown(951_782_400), "2000-02-29T00:00:00Z");
    assert_eq!(shown(951_868_800), "2000-03-01T00:00:00Z");
    assert_eq!(shown(1_709_164_800), "2024-02-29T00:00:00Z");
    assert_eq!(shown(4_107_456_000), "2100-02-28T00:00:00Z");
    assert_eq!(shown(4_107_542_400), "2100-03-01T00:00:00Z");
}

#[test]
fn four_digit_years_are_shown_as_dates() {
    assert_eq!(shown(253_402_300_799), "9999-12-31T23:59:59Z");
    assert_eq!(shown(-62_167_219_200), "0000-01-01T00:00:00Z");
    assert_eq!(shown(-62_135_596_801), "0000-12-31T23:59:59Z");
}

#[test]
fn years_before_zero_are_shown_as_numbers() {
    assert_eq!(shown(-62_167_219_201), "-62167219201");
    assert_eq!(shown(-377_705_116_800), "-377705116800");
}

#[test]
fn timestamps_out_of_range_are_not_shown() {
    for timestamp in [253_402_300_800, -377_705_116_801, i64::MAX, i64::MIN] {
        assert_eq!(timestamp_to_rfc3339(timestamp), None);
    }
}

#[test]
fn numerals_are_decimal() {
    for n in [0, 7, 10, 99, 1_000_000, u64::MAX] {
        let mut out = String::from("n=");
        push_decimal(&mut out, n);
        assert_eq!(out, format!("n={n}"));
    }
    for n in [0, -1, 10, -10, i64::MAX, i64::MIN] {
        assert_eq!(signed_to_string(n), n.to_string());
    }
}
