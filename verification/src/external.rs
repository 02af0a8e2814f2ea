//! The calls this library makes into the clock, the random number
//! generators and std's string and time functions. Each item here is
//! trusted: its contract is believed, not proved.
use vstd::prelude::*;
use rand::Rng;

verus! {

/// A character of the Unicode `White_Space` property, the set that
/// `char::is_whitespace` and `str::trim` go by.
pub open spec fn is_unicode_space(c: char) -> bool {
    ||| '\u{9}' <= c <= '\u{d}'
    ||| c == ' '
    ||| c == '\u{85}'
    ||| c == '\u{a0}'
    ||| c == '\u{1680}'
    ||| '\u{2000}' <= c <= '\u{200a}'
    ||| c == '\u{2028}'
    ||| c == '\u{2029}'
    ||| c == '\u{202f}'
    ||| c == '\u{205f}'
    ||| c == '\u{3000}'
}

/// The string without its leading white space.
pub open spec fn trim_start(s: Seq<char>) -> Seq<char>
    decreases s.len(),
{
    if s.len() > 0 && is_unicode_space(s[0]) {
        trim_start(s.drop_first())
    } else {
        s
    }
}

/// The string without its trailing white space.
pub open spec fn trim_end(s: Seq<char>) -> Seq<char>
    decreases s.len(),
{
    if s.len() > 0 && is_unicode_space(s.last()) {
        trim_end(s.drop_last())
    } else {
        s
    }
}

/// What `str::trim` returns for a string: the string without its leading
/// and trailing Unicode white space.
pub open spec fn spec_trim(s: Seq<char>) -> Seq<char> {
    trim_end(trim_start(s))
}

/// What `str::to_uppercase` returns for a string, by Unicode case mapping.
pub uninterp spec fn spec_to_uppercase(s: Seq<char>) -> Seq<char>;

/// The current time, read with `chrono::Utc::now()` and expressed in
/// microseconds since the Unix epoch (`DateTime::timestamp_micros`).
/// chrono panics when the system clock is before the epoch, so a value that
/// comes back is never negative. Nothing else is promised: the value depends
/// on the clock.
#[verifier::external_body]
pub fn now_micros() -> (t: i64)
    ensures
        t >= 0,
{
    chrono::Utc::now().timestamp_micros()
}

/// The version nibble of a 128-bit identifier reads 4 and its variant bits
/// read `10`: the shape of a random (version 4) UUID.
pub open spec fn is_v4_id(id: u128) -> bool {
    (id >> 76u128) & 0xfu128 == 4 && (id >> 62u128) & 0x3u128 == 2
}

/// Every identifier of the sequence has the shape of a version 4 UUID.
pub open spec fn all_v4(ids: Seq<u128>) -> bool {
    forall|i: int| 0 <= i < ids.len() ==> is_v4_id(#[trigger] ids[i])
}

/// A fresh random identifier from `uuid::Uuid::new_v4()`, as its 128-bit
/// big-endian value (`Uuid::as_u128`). The uuid source sets the version
/// nibble to 4 and the variant bits to `10`; the other bits are random and
/// nothing is promised of them.
#[verifier::external_body]
pub fn new_random_id() -> (id: u128)
    ensures
        (id >> 76u128) & 0xfu128 == 4,
        (id >> 62u128) & 0x3u128 == 2,
{
    uuid::Uuid::new_v4().as_u128()
}

/// `str::trim`, returned as an owned string: std documents it as removing
/// the leading and trailing characters of the `White_Space` property, which
/// is what `spec_trim` spells out.
#[verifier::external_body]
pub fn trim_string(s: &str) -> (r: String)
    ensures
        r@ == spec_trim(s@),
{
    s.trim().to_string()
}

/// `str::to_uppercase`. The result is named by `spec_to_uppercase`: it
/// depends on the argument alone.
#[verifier::external_body]
pub fn to_uppercase_string(s: &str) -> (r: String)
    ensures
        r@ == spec_to_uppercase(s@),
{
    s.to_uppercase()
}

/// The pieces of `s` between occurrences of `sep`, in order: as many pieces
/// as separators plus one, each possibly empty.
pub open spec fn split_on(s: Seq<char>, sep: char) -> Seq<Seq<char>>
    decreases s.len(),
{
    if s.len() == 0 {
        seq![Seq::empty()]
    } else {
        let rest = split_on(s.drop_last(), sep);
        if s.last() == sep {
            rest.push(Seq::empty())
        } else {
            rest.update(rest.len() - 1, rest.last().push(s.last()))
        }
    }
}

/// `str::split` with a `char` pattern, each piece copied into a `String`.
/// std documents the pieces as the substrings separated by the pattern,
/// empty ones included, which is what `split_on` spells out.
#[verifier::external_body]
pub fn split_string(s: &str, sep: char) -> (r: Vec<String>)
    ensures
        r@.map_values(|p: String| p@) == split_on(s@, sep),
{
    s.split(sep).map(|p| p.to_string()).collect()
}

/// A character with ASCII letters mapped to lower case.
pub open spec fn ascii_lower(c: char) -> char {
    if 'A' <= c && c <= 'Z' {
        ((c as u32) + 32) as char
    } else {
        c
    }
}

/// Equal lengths and equal characters up to ASCII case.
pub open spec fn ascii_case_eq(a: Seq<char>, b: Seq<char>) -> bool {
    a.len() == b.len() && forall|i: int| 0 <= i < a.len() ==> ascii_lower(#[trigger] a[i]) == ascii_lower(b[i])
}

/// `str::eq_ignore_ascii_case`: std documents it as equality of the two
/// strings after `to_ascii_lowercase`, that is equal lengths and equal
/// characters up to ASCII case.
#[verifier::external_body]
pub fn eq_ignore_ascii_case(a: &str, b: &str) -> (r: bool)
    ensures
        r == ascii_case_eq(a@, b@),
{
    a.eq_ignore_ascii_case(b)
}

/// What `Duration::from_millis` returns for a number of milliseconds.
pub uninterp spec fn spec_duration_from_millis(ms: u64) -> std::time::Duration;

/// `std::time::Duration::from_millis`; the result is named by
/// `spec_duration_from_millis`, a function of the argument alone.
#[verifier::external_body]
pub fn duration_from_millis(ms: u64) -> (d: std::time::Duration)
    ensures
        d == spec_duration_from_millis(ms),
{
    std::time::Duration::from_millis(ms)
}

/// `Rng::random_ratio` on the thread-local generator (`rand::rng()`): true
/// with probability `numerator / denominator`. rand panics when the
/// denominator is zero or below the numerator, and documents that the result
/// is always false for a zero numerator and always true when both are equal;
/// otherwise it is random.
#[verifier::external_body]
pub fn random_ratio(numerator: u32, denominator: u32) -> (b: bool)
    requires
        0 < denominator,
        numerator <= denominator,
    ensures
        numerator == 0 ==> !b,
        numerator == denominator ==> b,
{
    rand::rng().random_ratio(numerator, denominator)
}

/// `Rng::random_range(low..=high)` on the thread-local generator: a random
/// value between the bounds, both included. rand panics on an empty range.
#[verifier::external_body]
pub fn random_in(low: i64, high: i64) -> (r: i64)
    requires
        low <= high,
    ensures
        low <= r <= high,
{
    rand::rng().random_range(low..=high)
}

} // verus!
