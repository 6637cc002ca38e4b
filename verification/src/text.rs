//! Text as search sees it: trimmed, lower-cased in ASCII, matched and ordered by UTF-8 bytes.
use vstd::prelude::*;
use vstd::utf8::{decode_utf8, encode_utf8, encode_scalar, valid_utf8};

use crate::numeral::{all_digits, digits_value};

verus! {

broadcast use vstd::string::group_string_axioms;

/// The characters that Unicode gives the property `White_Space`.
pub open spec fn is_white_space(c: char) -> bool {
    ||| '\u{9}' <= c <= '\u{d}'
    ||| c == ' '
    ||| c == '\u{85}'
    ||| c == '\u{a0}'
    ||| c == '\u{1680}'
    ||| '\u{2000}' <= c <= '\u{200a}'
    ||| c == '\u{2028}'
    ||| c == '\u{2029}'
    ||| c == '\u{202f}'
    ||| c == '\u{205f}'
    ||| c == '\u{3000}'
}

/// A string without the white space at its two ends.
pub open spec fn trim(s: Seq<char>) -> Seq<char>
    decreases s.len(),
{
    if s.len() > 0 && is_white_space(s[0]) {
        trim(s.drop_first())
    } else if s.len() > 0 && is_white_space(s.last()) {
        trim(s.drop_last())
    } else {
        s
    }
}

/// A trimmed string has nothing left to trim.
pub proof fn lemma_trim_idempotent(s: Seq<char>)
    ensures
        trim(trim(s)) == trim(s),
    decreases s.len(),
{
    if s.len() > 0 && is_white_space(s[0]) {
        lemma_trim_idempotent(s.drop_first());
    } else if s.len() > 0 && is_white_space(s.last()) {
        lemma_trim_idempotent(s.drop_last());
    }
}

/// Calls `str::trim`, which drops the leading and the trailing characters that have the Unicode
/// property `White_Space`, and no others.
#[verifier::external_body]
pub(crate) fn trim_str<'a>(s: &'a str) -> (res: &'a str)
    ensures
        res@ == trim(s@),
{
    s.trim()
}

/// The number that a text stands for, if it is an optional plus sign, then one or more decimal
/// digits, and the number fits the machine word.
pub open spec fn text_to_usize(s: Seq<char>) -> Option<usize> {
    let digits = if s.len() > 0 && s[0] == '+' {
        s.drop_first()
    } else {
        s
    };
    if digits.len() > 0 && all_digits(digits) && digits_value(digits) <= usize::MAX {
        Some(digits_value(digits) as usize)
    } else {
        None
    }
}

/// Calls `str::parse::<usize>`, which reads an optional plus sign and decimal digits, and fails on
/// an empty string, on any other character and on a number that does not fit.
#[verifier::external_body]
pub(crate) fn parse_usize(s: &str) -> (res: Option<usize>)
    ensures
        res == text_to_usize(s@),
{
    s.parse::<usize>().ok()
}

/// What `String::from_utf8_lossy` makes of a byte string.
pub uninterp spec fn lossy_utf8(bytes: Seq<u8>) -> Seq<char>;

/// Calls `String::from_utf8_lossy`. The result depends on the bytes alone, and valid UTF-8 is
/// decoded as it stands. Which replacement characters stand for invalid bytes is left to the name
/// `lossy_utf8`.
#[verifier::external_body]
pub(crate) fn decode_lossy(bytes: &[u8]) -> (res: String)
    ensures
        res@ == lossy_utf8(bytes@),
        valid_utf8(bytes@) ==> res@ == decode_utf8(bytes@),
{
    String::from_utf8_lossy(bytes).into_owned()
}

/// A character with an ASCII capital letter made small.
pub open spec fn ascii_lower_char(c: char) -> char {
    if 'A' <= c <= 'Z' {
        (c as u32 + 32) as char
    } else {
        c
    }
}

/// A string with its ASCII capital letters made small.
pub open spec fn ascii_lowercase(s: Seq<char>) -> Seq<char> {
    s.map_values(|c: char| ascii_lower_char(c))
}

/// The part of a string before its first `#`, or all of it if there is none.
pub open spec fn before_hash(s: Seq<char>) -> Seq<char>
    decreases s.len(),
{
    if s.len() == 0 || s[0] == '#' {
        seq![]
    } else {
        seq![s[0]] + before_hash(s.drop_first())
    }
}

/// A byte with an ASCII capital letter made small.
spec fn lower_byte(b: u8) -> u8 {
    if 65 <= b <= 90 {
        (b + 32) as u8
    } else {
        b
    }
}

spec fn lower_bytes(s: Seq<u8>) -> Seq<u8> {
    s.map_values(|b: u8| lower_byte(b))
}

/// The bytes before the first `#`.
spec fn bytes_before_hash(s: Seq<u8>) -> Seq<u8>
    decreases s.len(),
{
    if s.len() == 0 || s[0] == 35 {
        seq![]
    } else {
        seq![s[0]] + bytes_before_hash(s.drop_first())
    }
}

/// An ASCII character is encoded as its own code, any other as bytes above the ASCII range.
proof fn lemma_encoded_char(c: char)
    ensures
        c <= '\u{7f}' ==> encode_scalar(c as u32) == seq![c as u8],
        c <= '\u{7f}' && c != '#' ==> c as u8 != 35,
        c > '\u{7f}' ==> encode_scalar(c as u32).len() > 0 && forall|i: int|
            0 <= i < encode_scalar(c as u32).len() ==> #[trigger] encode_scalar(c as u32)[i] >= 128,
{
    let v = c as u32;
    vstd::utf8::char_is_scalar(c);
    if c <= '\u{7f}' {
        assert((v & 0x7F) as u8 == v as u8) by (bit_vector)
            requires
                v <= 0x7f,
        ;
        assert(encode_scalar(v) =~= seq![c as u8]);
    } else {
        assert(forall|y: u8| #[trigger] (0xC0u8 | y) >= 128) by (bit_vector);
        assert(forall|y: u8| #[trigger] (0xE0u8 | y) >= 128) by (bit_vector);
        assert(forall|y: u8| #[trigger] (0xF0u8 | y) >= 128) by (bit_vector);
        assert(forall|y: u8| #[trigger] (0x80u8 | y) >= 128) by (bit_vector);
    }
}

/// Lower-casing the bytes of an encoded string lower-cases the string.
proof fn lemma_lower_bytes(s: Seq<char>)
    ensures
        lower_bytes(encode_utf8(s)) == encode_utf8(ascii_lowercase(s)),
    decreases s.len(),
{
    if s.len() == 0 {
        assert(lower_bytes(encode_utf8(s)) =~= encode_utf8(ascii_lowercase(s)));
    } else {
        let c = s[0];
        let d = ascii_lower_char(c);
        lemma_lower_bytes(s.drop_first());
        lemma_encoded_char(c);
        lemma_encoded_char(d);
        assert(ascii_lowercase(s).drop_first() =~= ascii_lowercase(s.drop_first()));
        assert(ascii_lowercase(s)[0] == d);
        assert(lower_bytes(encode_scalar(c as u32)) =~= encode_scalar(d as u32)) by {
            if c <= '\u{7f}' {
                assert(lower_byte(c as u8) == d as u8);
            } else {
                assert(d == c);
            }
        }
        assert(lower_bytes(encode_utf8(s)) =~= lower_bytes(encode_scalar(c as u32)) + lower_bytes(
            encode_utf8(s.drop_first()),
        ));
    }
}

/// A part without the byte `#` stays in front of the first `#` behind it.
proof fn lemma_bytes_before_hash_concat(a: Seq<u8>, b: Seq<u8>)
    requires
        forall|i: int| 0 <= i < a.len() ==> #[trigger] a[i] != 35,
    ensures
        bytes_before_hash(a + b) == a + bytes_before_hash(b),
    decreases a.len(),
{
    if a.len() == 0 {
        assert(a + b =~= b);
        assert(a + bytes_before_hash(b) =~= bytes_before_hash(b));
    } else {
        assert((a + b).drop_first() =~= a.drop_first() + b);
        lemma_bytes_before_hash_concat(a.drop_first(), b);
        assert(seq![a[0]] + (a.drop_first() + bytes_before_hash(b)) =~= a + bytes_before_hash(b));
    }
}

/// Cutting the bytes of an encoded string at `#` cuts the string there.
proof fn lemma_bytes_before_hash(s: Seq<char>)
    ensures
        bytes_before_hash(encode_utf8(s)) == encode_utf8(before_hash(s)),
    decreases s.len(),
{
    if s.len() > 0 {
        let c = s[0];
        lemma_encoded_char(c);
        if c == '#' {
            assert(encode_utf8(s)[0] == 35);
        } else {
            lemma_bytes_before_hash(s.drop_first());
            lemma_bytes_before_hash_concat(encode_scalar(c as u32), encode_utf8(s.drop_first()));
            let t = before_hash(s);
            assert(t.drop_first() =~= before_hash(s.drop_first()));
            assert(t[0] == c);
        }
    }
}

/// The bytes before the first `#` are those before an index that is known to be the first.
proof fn lemma_bytes_before_hash_at(s: Seq<u8>, k: int)
    requires
        0 <= k <= s.len(),
        forall|i: int| 0 <= i < k ==> #[trigger] s[i] != 35,
        k < s.len() ==> s[k] == 35,
    ensures
        bytes_before_hash(s) == s.take(k),
{
    let a = s.take(k);
    let b = s.skip(k);
    assert(s =~= a + b);
    lemma_bytes_before_hash_concat(a, b);
    assert(bytes_before_hash(b) =~= seq![]);
    assert(a + bytes_before_hash(b) =~= a);
}

/// The UTF-8 bytes of a string in ASCII lower case.
pub fn lowercase_bytes(s: &str) -> (res: Vec<u8>)
    ensures
        res@ == encode_utf8(ascii_lowercase(s@)),
{
    let bytes = s.as_bytes();
    let mut out: Vec<u8> = Vec::new();
    let mut i: usize = 0;
    while i < bytes.len()
        invariant
            i <= bytes@.len(),
            out@ == lower_bytes(bytes@.take(i as int)),
        decreases bytes@.len() - i,
    {
        let b: u8 = bytes[i];
        out.push(if 65 <= b && b <= 90 {
            b + 32
        } else {
            b
        });
        i += 1;
        assert(out@ =~= lower_bytes(bytes@.take(i as int)));
    }
    proof {
        assert(bytes@.take(i as int) =~= bytes@);
        lemma_lower_bytes(s@);
    }
    out
}

/// The UTF-8 bytes, in ASCII lower case, of the part of a string before its first `#`.
pub fn lowercase_bytes_before_hash(s: &str) -> (res: Vec<u8>)
    ensures
        res@ == encode_utf8(ascii_lowercase(before_hash(s@))),
{
    let bytes = s.as_bytes();
    let mut out: Vec<u8> = Vec::new();
    let mut i: usize = 0;
    while i < bytes.len() && bytes[i] != 35
        invariant
            i <= bytes@.len(),
            out@ == lower_bytes(bytes@.take(i as int)),
            forall|k: int| 0 <= k < i ==> #[trigger] bytes@[k] != 35,
        decreases bytes@.len() - i,
    {
        let b: u8 = bytes[i];
        out.push(if 65 <= b && b <= 90 {
            b + 32
        } else {
            b
        });
        i += 1;
        assert(out@ =~= lower_bytes(bytes@.take(i as int)));
    }
    proof {
        lemma_bytes_before_hash_at(bytes@, i as int);
        lemma_bytes_before_hash(s@);
        lemma_lower_bytes(before_hash(s@));
    }
    out
}

/// Whether `a` comes before `b` when byte strings are ordered lexicographically.
pub open spec fn bytes_less(a: Seq<u8>, b: Seq<u8>) -> bool
    decreases a.len(),
{
    if b.len() == 0 {
        false
    } else if a.len() == 0 {
        true
    } else if a[0] != b[0] {
        a[0] < b[0]
    } else {
        bytes_less(a.drop_first(), b.drop_first())
    }
}

/// The lexicographic order is strict and total.
pub proof fn lemma_bytes_less_strict(a: Seq<u8>, b: Seq<u8>)
    ensures
        a == b ==> !bytes_less(a, b),
        a != b ==> (bytes_less(a, b) <==> !bytes_less(b, a)),
    decreases a.len(),
{
    if a.len() > 0 && b.len() > 0 && a[0] == b[0] {
        lemma_bytes_less_strict(a.drop_first(), b.drop_first());
        if a.drop_first() == b.drop_first() {
            assert(a =~= seq![a[0]] + a.drop_first());
            assert(b =~= seq![b[0]] + b.drop_first());
        }
    } else if a.len() == 0 && b.len() == 0 {
        assert(a =~= b);
    }
}

/// The lexicographic order is transitive.
pub proof fn lemma_bytes_less_transitive(a: Seq<u8>, b: Seq<u8>, c: Seq<u8>)
    requires
        bytes_less(a, b),
        bytes_less(b, c),
    ensures
        bytes_less(a, c),
    decreases a.len(),
{
    if a.len() > 0 && a[0] == b[0] && b[0] == c[0] {
        lemma_bytes_less_transitive(a.drop_first(), b.drop_first(), c.drop_first());
    }
}

/// Decides the lexicographic order of two byte strings.
pub fn bytes_precede(a: &Vec<u8>, b: &Vec<u8>) -> (res: bool)
    ensures
        res == bytes_less(a@, b@),
{
    let mut i: usize = 0;
    proof {
        assert(a@.skip(0) =~= a@);
        assert(b@.skip(0) =~= b@);
    }
    while i < a.len() && i < b.len() && a[i] == b[i]
        invariant
            i <= a@.len(),
            i <= b@.len(),
            bytes_less(a@, b@) == bytes_less(a@.skip(i as int), b@.skip(i as int)),
        decreases a@.len() - i,
    {
        proof {
            assert(a@.skip(i as int).drop_first() =~= a@.skip(i + 1));
            assert(b@.skip(i as int).drop_first() =~= b@.skip(i + 1));
        }
        i += 1;
    }
    if i >= b.len() {
        false
    } else if i >= a.len() {
        true
    } else {
        a[i] < b[i]
    }
}

/// Decides whether two byte strings are equal.
pub fn bytes_equal(a: &Vec<u8>, b: &Vec<u8>) -> (res: bool)
    ensures
        res == (a@ == b@),
{
    if a.len() != b.len() {
        return false;
    }
    let mut i: usize = 0;
    while i < a.len()
        invariant
            i <= a@.len(),
            a@.len() == b@.len(),
            forall|k: int| 0 <= k < i ==> a@[k] == b@[k],
        decreases a@.len() - i,
    {
        if a[i] != b[i] {
            return false;
        }
        i += 1;
    }
    assert(a@ =~= b@);
    true
}

/// Whether `needle` stands in `hay` at byte `at`.
pub open spec fn occurs_at(hay: Seq<u8>, needle: Seq<u8>, at: int) -> bool {
    &&& 0 <= at
    &&& at + needle.len() <= hay.len()
    &&& hay.subrange(at, at + needle.len()) == needle
}

/// Where `needle` stands in `hay` from byte `from` on, read from left to right, each occurrence
/// sought behind the end of the one before it. An empty needle is not sought.
pub open spec fn matches_from(hay: Seq<u8>, needle: Seq<u8>, from: int) -> Seq<int>
    decreases hay.len() - from,
{
    if needle.len() == 0 || from < 0 || from + needle.len() > hay.len() {
        seq![]
    } else if occurs_at(hay, needle, from) {
        seq![from] + matches_from(hay, needle, from + needle.len())
    } else {
        matches_from(hay, needle, from + 1)
    }
}

/// Matches are occurrences of the needle, in ascending order and without overlaps.
pub proof fn lemma_matches(hay: Seq<u8>, needle: Seq<u8>, from: int)
    ensures
        forall|k: int|
            0 <= k < matches_from(hay, needle, from).len() ==> {
                &&& from <= #[trigger] matches_from(hay, needle, from)[k]
                &&& occurs_at(hay, needle, matches_from(hay, needle, from)[k])
            },
        forall|a: int, b: int|
            0 <= a < b < matches_from(hay, needle, from).len() ==> #[trigger] matches_from(
                hay,
                needle,
                from,
            )[a] + needle.len() <= #[trigger] matches_from(hay, needle, from)[b],
    decreases hay.len() - from,
{
    let m = matches_from(hay, needle, from);
    if needle.len() == 0 || from < 0 || from + needle.len() > hay.len() {
    } else if occurs_at(hay, needle, from) {
        let rest = matches_from(hay, needle, from + needle.len());
        lemma_matches(hay, needle, from + needle.len());
        assert(m == seq![from] + rest);
        assert(m[0] == from);
        assert forall|k: int| 0 <= k < m.len() implies from <= #[trigger] m[k] && occurs_at(
            hay,
            needle,
            m[k],
        ) by {
            if k > 0 {
                assert(m[k] == rest[k - 1]);
            }
        }
        assert forall|a: int, b: int| 0 <= a < b < m.len() implies #[trigger] m[a] + needle.len()
            <= #[trigger] m[b] by {
            assert(m[b] == rest[b - 1]);
            if a > 0 {
                assert(m[a] == rest[a - 1]);
            }
        }
    } else {
        lemma_matches(hay, needle, from + 1);
        assert(m == matches_from(hay, needle, from + 1));
    }
}

/// No occurrence of the needle is free of matches: one that is not a match itself overlaps a match
/// before it.
pub proof fn lemma_matches_complete(hay: Seq<u8>, needle: Seq<u8>, from: int, p: int)
    requires
        0 <= from <= p,
        needle.len() > 0,
        occurs_at(hay, needle, p),
    ensures
        exists|k: int|
            0 <= k < matches_from(hay, needle, from).len() && #[trigger] matches_from(
                hay,
                needle,
                from,
            )[k] <= p < matches_from(hay, needle, from)[k] + needle.len(),
    decreases hay.len() - from,
{
    let m = matches_from(hay, needle, from);
    if occurs_at(hay, needle, from) {
        let rest = matches_from(hay, needle, from + needle.len());
        assert(m == seq![from] + rest);
        if p < from + needle.len() {
            assert(m[0] <= p < m[0] + needle.len());
        } else {
            lemma_matches_complete(hay, needle, from + needle.len(), p);
            let k = choose|k: int|
                0 <= k < rest.len() && #[trigger] rest[k] <= p < rest[k] + needle.len();
            assert(m[k + 1] == rest[k]);
        }
    } else {
        lemma_matches_complete(hay, needle, from + 1, p);
    }
}

/// A list of offsets as mathematical integers.
pub open spec fn as_ints(s: Seq<usize>) -> Seq<int> {
    s.map_values(|p: usize| p as int)
}

/// Decides whether `needle` stands in `hay` at byte `at`.
fn stands_at(hay: &[u8], needle: &[u8], at: usize) -> (res: bool)
    requires
        at + needle@.len() <= hay@.len(),
    ensures
        res == occurs_at(hay@, needle@, at as int),
{
    let end: usize = hay.len();
    let mut i: usize = 0;
    while i < needle.len()
        invariant
            i <= needle@.len(),
            end == hay@.len(),
            at + needle@.len() <= end,
            forall|k: int| 0 <= k < i ==> hay@[at + k] == #[trigger] needle@[k],
        decreases needle@.len() - i,
    {
        if hay[at + i] != needle[i] {
            proof {
                let window = hay@.subrange(at as int, at + needle@.len());
                assert(window[i as int] != needle@[i as int]);
            }
            return false;
        }
        i += 1;
    }
    assert(hay@.subrange(at as int, at + needle@.len()) =~= needle@);
    true
}

/// Finds where a needle that is not empty stands in `hay`, without overlaps, from left to right.
pub fn find_matches(hay: &[u8], needle: &[u8]) -> (res: Vec<usize>)
    ensures
        as_ints(res@) == matches_from(hay@, needle@, 0),
        res@.len() == matches_from(hay@, needle@, 0).len(),
        forall|k: int|
            0 <= k < res@.len() ==> #[trigger] res@[k] == matches_from(hay@, needle@, 0)[k],
{
    let mut out: Vec<usize> = Vec::new();
    assert(as_ints(out@) =~= seq![]);
    if needle.len() == 0 || needle.len() > hay.len() {
        return out;
    }
    let end: usize = hay.len();
    let last: usize = end - needle.len();
    let mut at: usize = 0;
    assert(as_ints(out@) + matches_from(hay@, needle@, 0) =~= matches_from(hay@, needle@, 0));
    while at <= last
        invariant
            needle@.len() > 0,
            end == hay@.len(),
            last == end - needle@.len(),
            at <= end,
            as_ints(out@) + matches_from(hay@, needle@, at as int) == matches_from(
                hay@,
                needle@,
                0,
            ),
        decreases hay@.len() - at,
    {
        if stands_at(hay, needle, at) {
            let ghost before = out@;
            out.push(at);
            proof {
                let rest = matches_from(hay@, needle@, at + needle@.len());
                assert(as_ints(out@) =~= as_ints(before).push(at as int));
                assert(as_ints(before) + (seq![at as int] + rest) =~= as_ints(out@) + rest);
            }
            at = at + needle.len();
        } else {
            at = at + 1;
        }
    }
    assert(as_ints(out@) + matches_from(hay@, needle@, at as int) =~= as_ints(out@));
    assert forall|k: int| 0 <= k < out@.len() implies #[trigger] out@[k] == matches_from(
        hay@,
        needle@,
        0,
    )[k] by {
        assert(as_ints(out@)[k] == out@[k]);
    }
    out
}

/// White space, by the codes of the characters.
pub proof fn lemma_white_space(c: char)
    ensures
        is_white_space(c) <==> {
            let code = c as u32;
            ||| 9 <= code <= 13
            ||| 0x2000 <= code <= 0x200a
            ||| code == 32 || code == 0x85 || code == 0xa0 || code == 0x1680
            ||| code == 0x2028 || code == 0x2029 || code == 0x202f || code == 0x205f
            ||| code == 0x3000
        },
{
}


/// Trimming drops the white space round a string and nothing else.
pub proof fn lemma_trim_drops_margins(before: Seq<char>, s: Seq<char>, after: Seq<char>)
    requires
        forall|i: int| 0 <= i < before.len() ==> is_white_space(#[trigger] before[i]),
        forall|i: int| 0 <= i < after.len() ==> is_white_space(#[trigger] after[i]),
        s.len() > 0 ==> !is_white_space(s[0]) && !is_white_space(s.last()),
    ensures
        trim(before + s + after) == s,
    decreases before.len() + after.len(),
{
    let all = before + s + after;
    if before.len() > 0 {
        assert(all[0] == before[0]);
        assert(all.drop_first() =~= before.drop_first() + s + after);
        lemma_trim_drops_margins(before.drop_first(), s, after);
    } else if after.len() > 0 {
        assert(all.last() == after[after.len() - 1]);
        assert(all.drop_last() =~= before + s + after.drop_last());
        lemma_trim_drops_margins(before, s, after.drop_last());
        if is_white_space(all[0]) {
            assert(s.len() == 0);
            assert(all =~= after);
            assert(all.drop_first() =~= before + s + after.drop_first());
            lemma_trim_drops_margins(before, s, after.drop_first());
        }
    } else {
        assert(all =~= s);
    }
}

/// Making letters small changes the ASCII capital letters, each into the letter whose code is
/// greater by 32, and no other character.
pub proof fn lemma_ascii_lowercase(s: Seq<char>)
    ensures
        ascii_lowercase(s).len() == s.len(),
        forall|i: int|
            0 <= i < s.len() ==> {
                let (c, d) = (s[i] as u32, (#[trigger] ascii_lowercase(s)[i]) as u32);
                if 65 <= c <= 90 {
                    d == c + 32
                } else {
                    ascii_lowercase(s)[i] == s[i]
                }
            },
{
    assert forall|i: int| 0 <= i < s.len() implies ({
        let (c, d) = (s[i] as u32, (#[trigger] ascii_lowercase(s)[i]) as u32);
        if 65 <= c <= 90 {
            d == c + 32
        } else {
            ascii_lowercase(s)[i] == s[i]
        }
    }) by {
        lemma_lower_code(s[i]);
    }
}

proof fn lemma_lower_code(c: char)
    ensures
        if 65 <= c as u32 <= 90 {
            ascii_lower_char(c) as u32 == c as u32 + 32
        } else {
            ascii_lower_char(c) == c
        },
{
}

/// What stands before the first `#` is all of a string that has none, and else the part that ends
/// at a `#` and holds none.
pub proof fn lemma_before_hash(s: Seq<char>)
    ensures
        before_hash(s).len() <= s.len(),
        before_hash(s) == s.take(before_hash(s).len() as int),
        !before_hash(s).contains('#'),
        before_hash(s).len() < s.len() ==> s[before_hash(s).len() as int] == '#',
    decreases s.len(),
{
    if s.len() > 0 && s[0] != '#' {
        let rest = s.drop_first();
        lemma_before_hash(rest);
        let b = before_hash(s);
        assert(b =~= s.take(b.len() as int)) by {
            assert forall|i: int| 0 <= i < b.len() implies b[i] == s.take(b.len() as int)[i] by {
                if i > 0 {
                    assert(before_hash(rest)[i - 1] == rest[i - 1]);
                }
            }
        }
        if b.contains('#') {
            let i = choose|i: int| 0 <= i < b.len() && b[i] == '#';
            assert(before_hash(rest)[i - 1] == '#');
        }
    } else {
        assert(before_hash(s) =~= s.take(0));
    }
}

/// The first byte in which two byte strings differ orders them, and one that goes on comes behind
/// one that ends.
pub proof fn lemma_bytes_first_difference(common: Seq<u8>, a: Seq<u8>, b: Seq<u8>)
    requires
        b.len() > 0,
        a.len() == 0 || a[0] < b[0],
    ensures
        bytes_less(common + a, common + b),
        !bytes_less(common + b, common + a),
    decreases common.len(),
{
    if common.len() > 0 {
        assert((common + a).drop_first() =~= common.drop_first() + a);
        assert((common + b).drop_first() =~= common.drop_first() + b);
        lemma_bytes_first_difference(common.drop_first(), a, b);
    } else {
        assert(common + a =~= a);
        assert(common + b =~= b);
    }
}

/// A byte string that is not empty is matched where it stands, unless a match that starts earlier
/// reaches so far. Matches are listed in ascending order, each once. An empty one is not matched.
pub proof fn lemma_match_rule(hay: Seq<u8>, needle: Seq<u8>, at: int)
    ensures
        matches_from(hay, needle, 0).contains(at) <==> {
            &&& needle.len() > 0
            &&& 0 <= at <= hay.len() - needle.len()
            &&& hay.subrange(at, at + needle.len()) == needle
            &&& forall|earlier: int| #[trigger]
                matches_from(hay, needle, 0).contains(earlier) && earlier < at ==> earlier
                    + needle.len() <= at
        },
        forall|a: int, b: int|
            0 <= a < b < matches_from(hay, needle, 0).len() ==> #[trigger] matches_from(
                hay,
                needle,
                0,
            )[a] < #[trigger] matches_from(hay, needle, 0)[b],
{
    let m = matches_from(hay, needle, 0);
    lemma_matches(hay, needle, 0);
    if m.contains(at) {
        let k = choose|k: int| 0 <= k < m.len() && m[k] == at;
        assert(occurs_at(hay, needle, m[k]));
        assert forall|earlier: int| #[trigger] m.contains(earlier) && earlier < at implies earlier
            + needle.len() <= at by {
            let l = choose|l: int| 0 <= l < m.len() && m[l] == earlier;
            if k < l {
                assert(m[k] + needle.len() <= m[l]);
            } else {
                assert(m[l] + needle.len() <= m[k]);
            }
        }
    } else if needle.len() > 0 && occurs_at(hay, needle, at) {
        lemma_matches_complete(hay, needle, 0, at);
        let k = choose|k: int| 0 <= k < m.len() && #[trigger] m[k] <= at < m[k] + needle.len();
        assert(m.contains(m[k]));
    }
}

} // verus!
