//! The local time as text.
use crate::text::is_digit;
use vstd::prelude::*;

verus! {

/// Whether a text can be part of a file's name.
pub open spec fn has_no_slash(s: Seq<char>) -> bool {
    s.len() > 0 && forall|i: int| 0 <= i < s.len() ==> #[trigger] s[i] != '/'
}

/// Whether `s[from..to]` are digits.
pub open spec fn are_digits(s: Seq<char>, from: int, to: int) -> bool {
    forall|i: int| from <= i < to ==> is_digit(#[trigger] s[i])
}

/// Whether `s` ends in a date of the form `dddddddd`. A year may have more than four digits.
pub open spec fn is_date(s: Seq<char>) -> bool {
    s.len() >= 8 && are_digits(s, s.len() - 8, s.len() as int)
}

/// Whether `s` ends in a time of the form `dddddddd-dddddd`.
pub open spec fn is_timestamp(s: Seq<char>) -> bool {
    let n = s.len() as int;
    &&& n >= 15
    &&& are_digits(s, n - 15, n - 7)
    &&& s[n - 7] == '-'
    &&& are_digits(s, n - 6, n)
}

/// Whether `s` ends in a time of the form `dddd-dd-dd dd:dd:dd`.
pub open spec fn is_readable_time(s: Seq<char>) -> bool {
    let n = s.len() as int;
    &&& n >= 19
    &&& are_digits(s, n - 19, n - 15)
    &&& s[n - 15] == '-'
    &&& are_digits(s, n - 14, n - 12)
    &&& s[n - 12] == '-'
    &&& are_digits(s, n - 11, n - 9)
    &&& s[n - 9] == ' '
    &&& are_digits(s, n - 8, n - 6)
    &&& s[n - 6] == ':'
    &&& are_digits(s, n - 5, n - 3)
    &&& s[n - 3] == ':'
    &&& are_digits(s, n - 2, n)
}

/// `chrono::Local::now` and `DateTime::format` give the local time in the form that `pattern`
/// tells: the year in four digits or more, the month, the day, the hour, the minute and the second
/// in two digits each. With these patterns nothing else is in the text but the signs of the
/// pattern and, for a year far away, one before the year. Which time it tells is not stated.
#[verifier::external_body]
fn local_time(pattern: &str) -> (r: String)
    requires
        pattern@ == "%Y%m%d"@ || pattern@ == "%Y%m%d-%H%M%S"@ || pattern@ == "%Y-%m-%d %H:%M:%S"@,
    ensures
        has_no_slash(r@),
        pattern@ == "%Y%m%d"@ ==> is_date(r@),
        pattern@ == "%Y%m%d-%H%M%S"@ ==> is_timestamp(r@),
        pattern@ == "%Y-%m-%d %H:%M:%S"@ ==> is_readable_time(r@),
{
    chrono::Local::now().format(pattern).to_string()
}

/// Today's date, such as `20260716`.
pub fn today() -> (r: String)
    ensures
        has_no_slash(r@),
        is_date(r@),
{
    local_time("%Y%m%d")
}

/// The time, such as `20260716-142000`.
pub fn timestamp() -> (r: String)
    ensures
        has_no_slash(r@),
        is_timestamp(r@),
{
    local_time("%Y%m%d-%H%M%S")
}

/// The time to be read, such as `2026-07-16 14:20:00`.
pub fn readable_time() -> (r: String)
    ensures
        has_no_slash(r@),
        is_readable_time(r@),
{
    local_time("%Y-%m-%d %H:%M:%S")
}

/// The three forms are told apart by their last characters.
pub proof fn forms_of_time_differ(s: Seq<char>)
    ensures
        !(is_date(s) && is_timestamp(s)),
        !(is_date(s) && is_readable_time(s)),
        !(is_timestamp(s) && is_readable_time(s)),
{
    let n = s.len() as int;
    if is_date(s) {
        assert(n >= 8 ==> is_digit(s[n - 7]) && is_digit(s[n - 3]));
    }
    if is_timestamp(s) {
        assert(is_digit(s[n - 3]));
    }
}

} // verus!
