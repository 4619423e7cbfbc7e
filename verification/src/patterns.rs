//! The regular expressions of this library, and what the `regex` crate does with
//! them.

use vstd::prelude::*;
use vstd::utf8::*;
use crate::text;

verus! {

/// A question number at the start of a line.
pub const NUMBERED: &'static str = r"(?m)^(?:Q(?:uestion)?\s*\d+|第\s*\d+\s*题|\d+\s*[\.\):、])";

/// The letter of a choice at the start of a line.
pub const CHOICE_HEAD: &'static str = r"(?m)^(?:[A-D][\.\):、]|[①②③④])";

/// A line with one choice.
pub const OPTION_LINE: &'static str = r"(?m)^\s*[A-D][\.\):、]\s+.+$";

/// The letters of the choices in an answer.
pub const CHOICE: &'static str = r"(?i)\b([A-D]{1,4})\b";

/// A run of letters and digits.
pub const TOKEN: &'static str = r"[\p{L}\p{N}]+";

/// A question number after the word or its first letter.
pub const NUMBER_WORD: &'static str = r"(?i)\bq(?:uestion)?\s*([0-9]{1,3})\b";

/// A question number between the Chinese signs for it.
pub const NUMBER_CHINESE: &'static str = r"第\s*([0-9]{1,3})\s*题";

/// A question number at the start of a text.
pub const NUMBER_START: &'static str = r"^\s*([0-9]{1,3})\s*[\.\):、]";

/// A run of spaces and tabs.
pub const BLANKS: &'static str = r"[ \t]+";

/// Three or more line ends.
pub const LINE_ENDS: &'static str = r"\n{3,}";

/// The patterns that are searched for.
pub open spec fn is_searched(pattern: Seq<char>) -> bool {
    pattern == NUMBERED@ || pattern == CHOICE_HEAD@ || pattern == OPTION_LINE@ || pattern == TOKEN@
}

/// The patterns whose first group gives a question number.
pub open spec fn is_number_pattern(pattern: Seq<char>) -> bool {
    pattern == NUMBER_WORD@ || pattern == NUMBER_CHINESE@ || pattern == NUMBER_START@
}

/// The first and the last byte position of each match of a pattern in a text.
pub uninterp spec fn match_spans(pattern: Seq<char>, text: Seq<char>) -> Seq<(usize, usize)>;

/// What the first group of the first match of a pattern in a text holds.
pub uninterp spec fn first_group(pattern: Seq<char>, text: Seq<char>) -> Option<Seq<char>>;

/// The piece of `s` from byte position `from` to before byte position `to`.
pub open spec fn byte_slice(s: Seq<char>, from: int, to: int) -> Seq<char> {
    decode_utf8(encode_utf8(s).subrange(from, to))
}

/// The spans lie in `s` at the boundaries of its characters, in their order and
/// without overlap.
pub open spec fn spans_fit(spans: Seq<(usize, usize)>, s: Seq<char>) -> bool {
    &&& forall|i: int|
        0 <= i < spans.len() ==> {
            &&& (#[trigger] spans[i]).0 <= spans[i].1 <= encode_utf8(s).len()
            &&& is_char_boundary(encode_utf8(s), spans[i].0 as int)
            &&& is_char_boundary(encode_utf8(s), spans[i].1 as int)
        }
    &&& forall|i: int, j: int|
        0 <= i < j < spans.len() ==> (#[trigger] spans[i]).1 <= (#[trigger] spans[j]).0
}

/// A question number of up to three digits.
pub open spec fn is_short_number(s: Seq<char>) -> bool {
    1 <= s.len() <= 3 && forall|i: int| 0 <= i < s.len() ==> '0' <= #[trigger] s[i] <= '9'
}

/// One to four letters from A to D, in either case.
pub open spec fn is_choice_letters(s: Seq<char>) -> bool {
    1 <= s.len() <= 4 && forall|i: int|
        0 <= i < s.len() ==> 'A' <= #[trigger] s[i] <= 'D' || 'a' <= s[i] <= 'd'
}

/// `Regex::find_iter`: the byte spans of the successive matches of the pattern in
/// the text. They do not overlap and come in their order; a match of a pattern on
/// text starts and ends at the boundary of a character. A match of the pattern
/// for a numbered line is not empty and starts with a letter, a digit or a
/// Chinese sign, so not with white space. Each of the patterns asks for a letter, a digit
/// or such a sign, so none matches in a text of white space.
#[verifier::external_body]
pub(crate) fn find_spans(pattern: &str, text: &str) -> (r: Vec<(usize, usize)>)
    requires
        is_searched(pattern@),
    ensures
        r@ == match_spans(pattern@, text@),
        spans_fit(r@, text@),
        text::is_blank(text@) ==> r@.len() == 0,
        pattern@ == NUMBERED@ ==> forall|i: int|
            0 <= i < r@.len() ==> (#[trigger] r@[i]).0 < r@[i].1 && !text::is_white(
                byte_slice(text@, r@[i].0 as int, r@[i].1 as int)[0],
            ),
{
    regex::Regex::new(pattern).expect("valid regex").find_iter(text)
        .map(|m| (m.start(), m.end())).collect()
}

/// `Regex::is_match`: whether the pattern matches anywhere in the text, which is
/// so where there is a first match.
#[verifier::external_body]
pub(crate) fn is_match(pattern: &str, text: &str) -> (r: bool)
    requires
        is_searched(pattern@),
    ensures
        r == (match_spans(pattern@, text@).len() > 0),
{
    regex::Regex::new(pattern).expect("valid regex").is_match(text)
}

/// `Regex::captures` and `Captures::get`: the text of the first group of the first
/// match. The group of each number pattern is one to three of the digits 0 to 9;
/// the group of the choice pattern is one to four letters from A to D in either
/// case.
#[verifier::external_body]
pub(crate) fn find_group(pattern: &str, text: &str) -> (r: Option<String>)
    requires
        pattern@ == CHOICE@ || is_number_pattern(pattern@),
    ensures
        text::view_opt(r) == first_group(pattern@, text@),
        r matches Some(s) ==> pattern@ == CHOICE@ ==> is_choice_letters(s@),
        r matches Some(s) ==> is_number_pattern(pattern@) ==> is_short_number(s@),
{
    regex::Regex::new(pattern).expect("valid regex").captures(text)
        .and_then(|c| c.get(1).map(|m| m.as_str().to_string()))
}

/// A space or a tab.
pub open spec fn is_blank(c: char) -> bool {
    c == ' ' || c == '\t'
}

/// `s` with one space in place of each run of spaces and tabs.
pub open spec fn blanks_collapsed(s: Seq<char>) -> Seq<char>
    decreases s.len(),
{
    if s.len() == 0 {
        s
    } else if !is_blank(s.last()) {
        blanks_collapsed(s.drop_last()).push(s.last())
    } else if s.len() >= 2 && is_blank(s[s.len() - 2]) {
        blanks_collapsed(s.drop_last())
    } else {
        blanks_collapsed(s.drop_last()).push(' ')
    }
}

/// `s` ends with three line ends.
pub open spec fn ends_with_three_line_ends(s: Seq<char>) -> bool {
    s.len() >= 3 && s.last() == '\n' && s[s.len() - 2] == '\n' && s[s.len() - 3] == '\n'
}

/// `s` with two line ends in place of each run of three or more.
pub open spec fn line_ends_collapsed(s: Seq<char>) -> Seq<char>
    decreases s.len(),
{
    if s.len() == 0 {
        s
    } else if ends_with_three_line_ends(s) {
        line_ends_collapsed(s.drop_last())
    } else {
        line_ends_collapsed(s.drop_last()).push(s.last())
    }
}

/// `Regex::replace_all`: each match is replaced by the given text, in which no `$`
/// stands. The matches of the first pattern are the longest runs of spaces and
/// tabs, those of the second the longest runs of at least three line ends.
#[verifier::external_body]
pub(crate) fn replace_matches(pattern: &str, text: &str, with: &str) -> (r: String)
    requires
        (pattern@ == BLANKS@ && with@ == " "@) || (pattern@ == LINE_ENDS@ && with@ == "\n\n"@),
    ensures
        pattern@ == BLANKS@ && with@ == " "@ ==> r@ == blanks_collapsed(text@),
        pattern@ == LINE_ENDS@ && with@ == "\n\n"@ ==> r@ == line_ends_collapsed(text@),
{
    regex::Regex::new(pattern).expect("valid regex").replace_all(text, with).into_owned()
}

/// A boundary of a text is a boundary of the part of it before a later one.
proof fn lemma_boundary_of_head(bytes: Seq<u8>, from: int, to: int)
    requires
        valid_utf8(bytes),
        is_char_boundary(bytes, from),
        is_char_boundary(bytes, to),
        0 <= from <= to <= bytes.len(),
    ensures
        valid_utf8(bytes.subrange(0, to)),
        is_char_boundary(bytes.subrange(0, to), from),
{
    let head = bytes.subrange(0, to);
    valid_utf8_split(bytes, to);
    if from == to {
        is_char_boundary_start_end_of_seq(head);
    } else {
        is_char_boundary_iff_not_is_continuation_byte(bytes, from);
        is_char_boundary_iff_not_is_continuation_byte(head, from);
        assert(head[from] == bytes[from]);
    }
}

/// A boundary of a text between two others is a boundary of the slice between
/// them, which is a text.
pub proof fn lemma_boundary_of_slice(bytes: Seq<u8>, a: int, b: int, c: int)
    requires
        valid_utf8(bytes),
        is_char_boundary(bytes, a),
        is_char_boundary(bytes, b),
        is_char_boundary(bytes, c),
        0 <= a <= b <= c <= bytes.len(),
    ensures
        valid_utf8(bytes.subrange(a, c)),
        is_char_boundary(bytes.subrange(a, c), b - a),
{
    let head = bytes.subrange(0, c);
    let slice = bytes.subrange(a, c);
    lemma_boundary_of_head(bytes, a, c);
    valid_utf8_split(head, a);
    assert(head.subrange(a, head.len() as int) =~= slice);
    if b == c {
        is_char_boundary_start_end_of_seq(slice);
    } else {
        is_char_boundary_iff_not_is_continuation_byte(bytes, b);
        is_char_boundary_iff_not_is_continuation_byte(slice, b - a);
        assert(slice[b - a] == bytes[b]);
    }
}

/// The piece of `s` from byte position `from` to before byte position `to`.
pub fn slice_bytes(s: &str, from: usize, to: usize) -> (r: String)
    requires
        from <= to <= encode_utf8(s@).len(),
        is_char_boundary(encode_utf8(s@), from as int),
        is_char_boundary(encode_utf8(s@), to as int),
    ensures
        r@ == byte_slice(s@, from as int, to as int),
{
    proof {
        encode_utf8_valid_utf8(s@);
        lemma_boundary_of_head(encode_utf8(s@), from as int, to as int);
    }
    let (head, _tail) = s.split_at(to);
    let (_skipped, piece) = head.split_at(from);
    proof {
        assert(encode_utf8(piece@) =~= encode_utf8(s@).subrange(from as int, to as int));
        encode_utf8_decode_utf8(piece@);
    }
    piece.to_owned()
}

} // verus!
