use memvid_search::cursor::parse_cursor;
use memvid_search::types::MemvidError;

const NOT_AN_INTEGER: MemvidError = MemvidError::InvalidCursor {
    reason: "cursor not an integer",
};

const BEYOND: MemvidError = MemvidError::InvalidCursor {
    reason: "cursor beyond total hits",
};

#[test]
fn missing_or_blank_cursor_is_first_page() {
    assert_eq!(parse_cursor(None, 5), Ok(0));
    assert_eq!(parse_cursor(Some(""), 5), Ok(0));
    assert_eq!(parse_cursor(Some(" \t\n"), 5), Ok(0));
    assert_eq!(parse_cursor(Some("\u{3000}"), 0), Ok(0));
}

#[test]
fn cursor_up_to_the_total_is_an_offset() {
    assert_eq!(parse_cursor(Some("0"), 0), Ok(0));
    assert_eq!(parse_cursor(Some("3"), 5), Ok(3));
    assert_eq!(parse_cursor(Some("5"), 5), Ok(5));
    assert_eq!(parse_cursor(Some("+4"), 5), Ok(4));
    assert_eq!(parse_cursor(Some("0004"), 5), Ok(4));
}

#[test]
fn cursor_ignores_white_space_round_it() {
    assert_eq!(parse_cursor(Some("  4\n"), 5), Ok(4));
    assert_eq!(parse_cursor(Some("\u{2003}4\u{a0}"), 5), Ok(4));
}

#[test]
fn cursor_beyond_the_total_is_refused() {
    assert_eq!(parse_cursor(Some("6"), 5), Err(BEYOND));
    assert_eq!(parse_cursor(Some("1"), 0), Err(BEYOND));
}

#[test]
fn cursor_that_is_no_integer_is_refused() {
    for bad in ["x", "-1", "1 2", "1.0", "+", "0x1", "\u{661}", "18446744073709551616"] {
        assert_eq!(parse_cursor(Some(bad), 5), Err(NOT_AN_INTEGER), "{bad}");
    }
    assert_eq!(
        parse_cursor(Some("18446744073709551615"), usize::MAX),
        Ok(usize::MAX)
    );
}

#[test]
fn cursor_reads_back_every_offset() {
    for offset in 0..=1200usize {
        assert_eq!(parse_cursor(Some(&offset.to_string()), 1200), Ok(offset));
    }
}

#[test]
fn only_white_space_may_surround_a_cursor() {
    for code in 0..=0x10ffffu32 {
        if let Some(c) = char::from_u32(code) {
            let token = format!("{c}7{c}");
            assert_eq!(parse_cursor(Some(&token), 9).is_ok(), c.is_whitespace());
        }
    }
}
