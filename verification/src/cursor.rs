//! The page cursor of a search: the number of hits to skip, as text.
use vstd::prelude::*;

use crate::numeral::{all_digits, decimal, lemma_decimal_value, lemma_leading_zeros};
use crate::text::{
    is_white_space, lemma_trim_drops_margins, lemma_trim_idempotent, parse_usize, text_to_usize,
    trim, trim_str,
};
use crate::types::MemvidError;

verus! {

/// What a cursor says.
pub enum CursorReading {
    /// Start behind so many hits.
    Offset(usize),
    /// The cursor is no number.
    NotAnInteger,
    /// The cursor points behind the last hit.
    BeyondTotal,
}

/// Reads a cursor. No cursor, or a blank one, stands for the first page.
pub open spec fn read_cursor(cursor: Option<Seq<char>>, total_hits: usize) -> CursorReading {
    match cursor {
        None => CursorReading::Offset(0),
        Some(token) => if trim(token).len() == 0 {
            CursorReading::Offset(0)
        } else {
            match text_to_usize(trim(token)) {
                None => CursorReading::NotAnInteger,
                Some(offset) => if offset > total_hits {
                    CursorReading::BeyondTotal
                } else {
                    CursorReading::Offset(offset)
                },
            }
        },
    }
}

/// Whether a result is the error of a cursor that is refused for the given reason.
pub open spec fn refused(res: Result<usize, MemvidError>, why: Seq<char>) -> bool {
    res matches Err(MemvidError::InvalidCursor { reason }) && reason@ == why
}

/// Finds out how many hits a cursor skips.
pub fn parse_cursor(cursor: Option<&str>, total_hits: usize) -> (res: Result<usize, MemvidError>)
    ensures
        match read_cursor(
            match cursor {
                Some(token) => Some(token@),
                None => None,
            },
            total_hits,
        ) {
            CursorReading::Offset(offset) => res == Ok::<usize, MemvidError>(offset),
            CursorReading::NotAnInteger => refused(res, "cursor not an integer"@),
            CursorReading::BeyondTotal => refused(res, "cursor beyond total hits"@),
        },
        cursor is None ==> res == Ok::<usize, MemvidError>(0),
        res matches Ok(offset) ==> offset <= total_hits,
        res matches Err(error) ==> {
            &&& error is InvalidCursor
            &&& cursor matches Some(token) && match read_cursor(Some(token@), total_hits) {
                CursorReading::Offset(_) => false,
                CursorReading::NotAnInteger => error->reason@ == "cursor not an integer"@,
                CursorReading::BeyondTotal => error->reason@ == "cursor beyond total hits"@,
            }
        },
{
    let token = match cursor {
        Some(token) => token,
        None => {
            return Ok(0);
        },
    };
    let trimmed = trim_str(token);
    if trimmed.is_empty() {
        return Ok(0);
    }
    let value: usize = match parse_usize(trimmed) {
        Some(value) => value,
        None => {
            return Err(MemvidError::InvalidCursor { reason: "cursor not an integer" });
        },
    };
    if value > total_hits {
        return Err(MemvidError::InvalidCursor { reason: "cursor beyond total hits" });
    }
    Ok(value)
}

/// The numeral of an offset that is not beyond the hits is read as that offset.
pub proof fn lemma_cursor_round_trip(offset: usize, total_hits: usize)
    requires
        offset <= total_hits,
    ensures
        read_cursor(Some(decimal(offset as nat)), total_hits) == CursorReading::Offset(offset),
{
    let s = decimal(offset as nat);
    lemma_decimal_value(offset as nat);
    assert('0' <= s[0] <= '9');
    assert('0' <= s[s.len() - 1] <= '9');
    assert(!is_white_space(s[0]));
    assert(!is_white_space(s.last()));
    assert(trim(s) == s);
    assert(s[0] != '+');
}

/// An offset that is read never lies beyond the hits.
pub proof fn lemma_cursor_within_total(cursor: Option<Seq<char>>, total_hits: usize)
    ensures
        read_cursor(cursor, total_hits) matches CursorReading::Offset(offset) ==> offset
            <= total_hits,
{
}

/// White space round a cursor makes no difference.
pub proof fn lemma_cursor_ignores_white_space(cursor: Seq<char>, total_hits: usize)
    ensures
        read_cursor(Some(trim(cursor)), total_hits) == read_cursor(Some(cursor), total_hits),
{
    lemma_trim_idempotent(cursor);
}

/// The numeral of a number is read as that number, with or without zeros or a plus sign before it
/// and white space round it. It is refused where it lies beyond the hits, and where the number does
/// not fit the machine word.
pub proof fn lemma_cursor_numeral(
    before: Seq<char>,
    sign: Seq<char>,
    zeros: Seq<char>,
    n: nat,
    after: Seq<char>,
    total_hits: usize,
)
    requires
        forall|i: int| 0 <= i < before.len() ==> is_white_space(#[trigger] before[i]),
        forall|i: int| 0 <= i < after.len() ==> is_white_space(#[trigger] after[i]),
        sign == Seq::<char>::empty() || sign == seq!['+'],
        forall|i: int| 0 <= i < zeros.len() ==> #[trigger] zeros[i] == '0',
    ensures
        read_cursor(Some(before + (sign + zeros + decimal(n)) + after), total_hits) == (if n
            > usize::MAX {
            CursorReading::NotAnInteger
        } else if n > total_hits {
            CursorReading::BeyondTotal
        } else {
            CursorReading::Offset(n as usize)
        }),
{
    let digits = zeros + decimal(n);
    let numeral = sign + zeros + decimal(n);
    lemma_decimal_value(n);
    lemma_leading_zeros(zeros, decimal(n));
    assert(numeral =~= sign + digits);
    assert forall|i: int| 0 <= i < digits.len() implies '0' <= #[trigger] digits[i] <= '9' by {
        if i < zeros.len() {
            assert(digits[i] == zeros[i]);
        } else {
            assert(digits[i] == decimal(n)[i - zeros.len()]);
        }
    }
    assert('0' <= digits[0] <= '9');
    assert('0' <= digits[digits.len() - 1] <= '9');
    assert(numeral.last() == digits[digits.len() - 1]);
    if sign.len() == 0 {
        assert(numeral =~= digits);
    } else {
        assert(numeral[0] == '+');
        assert(numeral.drop_first() =~= digits);
    }
    lemma_trim_drops_margins(before, numeral, after);
}

/// No cursor, and one of white space alone, stand for the first page.
pub proof fn lemma_cursor_blank(cursor: Seq<char>, total_hits: usize)
    requires
        forall|i: int| 0 <= i < cursor.len() ==> is_white_space(#[trigger] cursor[i]),
    ensures
        read_cursor(None, total_hits) == CursorReading::Offset(0),
        read_cursor(Some(cursor), total_hits) == CursorReading::Offset(0),
{
    lemma_trim_drops_margins(cursor, seq![], seq![]);
    assert(cursor + seq![] + seq![] =~= cursor);
}

/// A cursor is no number where anything but a digit stands in it, save a plus sign before digits
/// and white space at the ends.
pub proof fn lemma_cursor_not_a_numeral(
    before: Seq<char>,
    token: Seq<char>,
    after: Seq<char>,
    total_hits: usize,
    i: int,
)
    requires
        forall|i: int| 0 <= i < before.len() ==> is_white_space(#[trigger] before[i]),
        forall|i: int| 0 <= i < after.len() ==> is_white_space(#[trigger] after[i]),
        0 <= i < token.len(),
        !is_white_space(token[0]) && !is_white_space(token.last()),
        !('0' <= token[i] <= '9'),
        token[i] == '+' ==> i > 0 || token.len() == 1,
    ensures
        read_cursor(Some(before + token + after), total_hits) == CursorReading::NotAnInteger,
{
    lemma_trim_drops_margins(before, token, after);
    if token[0] == '+' && token.len() > 1 {
        assert(token.drop_first()[i - 1] == token[i]);
        assert(!all_digits(token.drop_first()));
    } else {
        assert(token[0] != '+' ==> !all_digits(token));
    }
}

} // verus!
