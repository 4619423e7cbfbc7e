//! Times and identifiers.

use vstd::prelude::*;

verus! {

/// A hexadecimal digit in lower case.
pub open spec fn is_hex(c: char) -> bool {
    '0' <= c <= '9' || 'a' <= c <= 'f'
}

/// The text of an identifier: 32 hexadecimal digits in five groups.
pub open spec fn is_id(s: Seq<char>) -> bool {
    s.len() == 36 && forall|i: int|
        0 <= i < 36 ==> if i == 8 || i == 13 || i == 18 || i == 23 {
            #[trigger] s[i] == '-'
        } else {
            is_hex(s[i])
        }
}

/// A digit.
pub open spec fn is_digit(c: char) -> bool {
    '0' <= c <= '9'
}

/// Two digits stand in `s` at `i`.
pub open spec fn two_digits(s: Seq<char>, i: int) -> bool {
    is_digit(s[i]) && is_digit(s[i + 1])
}

/// A year: four digits, or a sign and at least four digits.
pub open spec fn is_year(s: Seq<char>) -> bool {
    &&& s.len() >= 4
    &&& forall|i: int| 0 < i < s.len() ==> is_digit(#[trigger] s[i])
    &&& is_digit(s[0]) || (s.len() > 4 && (s[0] == '+' || s[0] == '-'))
}

/// What follows the year in a time, at `i`: month and day, the given character, and
/// hours, minutes and seconds, with two digits each.
pub open spec fn is_day_and_time(s: Seq<char>, i: int, between: char) -> bool {
    &&& s[i] == '-' && two_digits(s, i + 1)
    &&& s[i + 3] == '-' && two_digits(s, i + 4)
    &&& s[i + 6] == between && two_digits(s, i + 7)
    &&& s[i + 9] == ':' && two_digits(s, i + 10)
    &&& s[i + 12] == ':' && two_digits(s, i + 13)
}

/// A text with the parts of RFC 3339: `year` characters for the year, day and time, `part`
/// characters for a fraction of a second, and the offset in hours and minutes.
pub open spec fn has_rfc3339_parts(s: Seq<char>, year: int, part: int) -> bool {
    &&& 4 <= year
    &&& part == 0 || part == 4 || part == 7 || part == 10
    &&& s.len() == year + 15 + part + 6
    &&& is_year(s.take(year))
    &&& is_day_and_time(s, year, 'T')
    &&& part > 0 ==> s[year + 15] == '.'
    &&& forall|i: int| year + 15 < i < year + 15 + part ==> is_digit(#[trigger] s[i])
    &&& s[year + 15 + part] == '+' || s[year + 15 + part] == '-'
    &&& two_digits(s, year + part + 16)
    &&& s[year + part + 18] == ':'
    &&& two_digits(s, year + part + 19)
}

/// A text with the form of RFC 3339.
pub open spec fn is_rfc3339(s: Seq<char>) -> bool {
    exists|year: int, part: int| has_rfc3339_parts(s, year, part)
}

/// A text with a time in the form in which it is shown: year, month and day, a space, and
/// hours, minutes and seconds.
pub open spec fn is_shown_time(s: Seq<char>) -> bool {
    s.len() >= 19 && is_year(s.take(s.len() - 15)) && is_day_and_time(s, s.len() - 15, ' ')
}

/// `Uuid::new_v4` and its `to_string`: a random identifier in the form with
/// hyphens, in lower case. Which one it is, is left to chance.
#[verifier::external_body]
pub(crate) fn new_id() -> (r: String)
    ensures
        is_id(r@),
{
    uuid::Uuid::new_v4().to_string()
}

/// `chrono::Local::now` and `DateTime::to_rfc3339`: the time by the clock and the
/// time zone of the machine, in the form of RFC 3339. Which time it is, is left open.
#[verifier::external_body]
pub(crate) fn now_text() -> (r: String)
    ensures
        is_rfc3339(r@),
{
    chrono::Local::now().to_rfc3339()
}

/// `chrono::Local::now` and `DateTime::timestamp`: the seconds since 1970 by the
/// clock of the machine. Nothing is claimed of them.
#[verifier::external_body]
pub(crate) fn now_seconds() -> (r: i64) {
    chrono::Local::now().timestamp()
}

/// `chrono::Local::now` and `DateTime::timestamp_millis`: the milliseconds since
/// 1970 by the clock of the machine. Nothing is claimed of them.
#[verifier::external_body]
pub(crate) fn now_millis() -> (r: i64) {
    chrono::Local::now().timestamp_millis()
}

} // verus!
