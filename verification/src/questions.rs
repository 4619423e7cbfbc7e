//! Cutting a recognised text into questions.

use vstd::prelude::*;
use vstd::utf8::*;
use crate::parser;
use crate::patterns;
use crate::text;

verus! {

/// The positions lie in `s` at the boundaries of its characters, in their order.
pub open spec fn starts_fit(starts: Seq<usize>, s: Seq<char>) -> bool {
    &&& forall|i: int|
        0 <= i < starts.len() ==> (#[trigger] starts[i]) <= encode_utf8(s).len()
            && is_char_boundary(encode_utf8(s), starts[i] as int)
    &&& forall|i: int, j: int|
        0 <= i < j < starts.len() ==> (#[trigger] starts[i]) <= (#[trigger] starts[j])
}

/// Where the part that starts at the `i`-th position ends: at the next one, or at
/// the end of `s`.
pub open spec fn part_end(s: Seq<char>, starts: Seq<usize>, i: int) -> int {
    if i + 1 < starts.len() {
        starts[i + 1] as int
    } else {
        encode_utf8(s).len() as int
    }
}

/// The part of `s` that starts at the `i`-th position.
pub open spec fn part(s: Seq<char>, starts: Seq<usize>, i: int) -> Seq<char> {
    patterns::byte_slice(s, starts[i] as int, part_end(s, starts, i))
}

/// The parts of `s` that start at the given positions.
pub open spec fn parts(s: Seq<char>, starts: Seq<usize>) -> Seq<Seq<char>> {
    Seq::new(starts.len(), |i: int| part(s, starts, i))
}

/// The parts of the text that start at the given byte positions, trimmed, without
/// the blank ones.
pub fn split_by_markers(text: &str, starts: &Vec<usize>) -> (r: Vec<String>)
    requires
        starts_fit(starts@, text@),
    ensures
        text::views(r@) == text::non_blank(parts(text@, starts@)),
{
    let n: usize = text::byte_len(text);
    let mut items: Vec<String> = Vec::new();
    let ghost all = parts(text@, starts@);
    let mut i: usize = 0;
    assert(text::views(items@) =~= text::non_blank(all.take(0)));
    while i < starts.len()
        invariant
            i <= starts@.len(),
            n == encode_utf8(text@).len(),
            starts_fit(starts@, text@),
            all == parts(text@, starts@),
            text::views(items@) == text::non_blank(all.take(i as int)),
        decreases starts@.len() - i,
    {
        let start: usize = starts[i];
        let end: usize = if i + 1 < starts.len() {
            starts[i + 1]
        } else {
            n
        };
        proof {
            encode_utf8_valid_utf8(text@);
            is_char_boundary_start_end_of_seq(encode_utf8(text@));
            assert(i + 1 < starts@.len() ==> starts@[i as int] <= starts@[i + 1]);
            assert(all.take(i + 1).drop_last() =~= all.take(i as int));
            assert(all.take(i + 1).last() == part(text@, starts@, i as int));
        }
        let whole = patterns::slice_bytes(text, start, end);
        let piece = text::trimmed(whole.as_str());
        if !piece.as_str().is_empty() {
            let ghost before = items@;
            items.push(piece);
            assert(text::views(items@) =~= text::views(before).push(piece@));
        }
        i += 1;
    }
    assert(all.take(i as int) =~= all);
    items
}

/// Parts that all have something else than white space in them are all kept.
proof fn lemma_non_blank_keeps(parts: Seq<Seq<char>>)
    requires
        forall|i: int| 0 <= i < parts.len() ==> text::trim(#[trigger] parts[i]).len() > 0,
    ensures
        text::non_blank(parts).len() == parts.len(),
    decreases parts.len(),
{
    if parts.len() > 0 {
        let body = parts.drop_last();
        assert(parts.last() == parts[parts.len() - 1]);
        assert forall|i: int| 0 <= i < body.len() implies text::trim(#[trigger] body[i]).len()
            > 0 by {
            assert(body[i] == parts[i]);
        }
        lemma_non_blank_keeps(body);
    }
}

/// The parts one after the other.
pub open spec fn concat(parts: Seq<Seq<char>>) -> Seq<char>
    decreases parts.len(),
{
    if parts.len() == 0 {
        Seq::empty()
    } else {
        concat(parts.drop_last()) + parts.last()
    }
}

/// A slice of a text is made of the slices on both sides of a boundary in it.
proof fn lemma_slice_split(s: Seq<char>, a: int, b: int, c: int)
    requires
        0 <= a <= b <= c <= encode_utf8(s).len(),
        is_char_boundary(encode_utf8(s), a),
        is_char_boundary(encode_utf8(s), b),
        is_char_boundary(encode_utf8(s), c),
    ensures
        patterns::byte_slice(s, a, c) == patterns::byte_slice(s, a, b) + patterns::byte_slice(
            s,
            b,
            c,
        ),
{
    let bytes = encode_utf8(s);
    encode_utf8_valid_utf8(s);
    patterns::lemma_boundary_of_slice(bytes, a, b, c);
    let whole = bytes.subrange(a, c);
    decode_utf8_split(whole, b - a);
    assert(whole.subrange(0, b - a) =~= bytes.subrange(a, b));
    assert(whole.subrange(b - a, whole.len() as int) =~= bytes.subrange(b, c));
}

/// Nothing between the first marker and the end of the text is lost: the parts one
/// after the other are the text from the first marker on.
pub proof fn parts_cover_the_text(s: Seq<char>, starts: Seq<usize>)
    requires
        starts_fit(starts, s),
        starts.len() > 0,
    ensures
        concat(parts(s, starts)) == patterns::byte_slice(
            s,
            starts[0] as int,
            encode_utf8(s).len() as int,
        ),
{
    lemma_parts_cover(s, starts, starts.len() as int);
    assert(parts(s, starts).take(starts.len() as int) =~= parts(s, starts));
}

/// The first `k` parts one after the other are the text from the first marker to
/// the end of the last of them.
proof fn lemma_parts_cover(s: Seq<char>, starts: Seq<usize>, k: int)
    requires
        starts_fit(starts, s),
        0 < k <= starts.len(),
    ensures
        concat(parts(s, starts).take(k)) == patterns::byte_slice(
            s,
            starts[0] as int,
            part_end(s, starts, k - 1),
        ),
    decreases k,
{
    let all = parts(s, starts);
    let bytes = encode_utf8(s);
    encode_utf8_valid_utf8(s);
    is_char_boundary_start_end_of_seq(bytes);
    let last = part(s, starts, k - 1);
    assert(all.take(k).drop_last() =~= all.take(k - 1));
    assert(all.take(k).last() == last);
    if k == 1 {
        assert(all.take(0) =~= Seq::<Seq<char>>::empty());
        assert(concat(all.take(0)) =~= Seq::<char>::empty());
        assert(concat(all.take(1)) =~= last);
    } else {
        lemma_parts_cover(s, starts, k - 1);
        assert(starts[0] <= starts[k - 1]);
        if k < starts.len() {
            assert(starts[k - 1] <= starts[k]);
        }
        lemma_slice_split(s, starts[0] as int, starts[k - 1] as int, part_end(s, starts, k - 1));
    }
}

/// The number of matches of a pattern in a text.
pub open spec fn match_count(pattern: Seq<char>, s: Seq<char>) -> nat {
    patterns::match_spans(pattern, s).len()
}

/// A text with at least two lines of choices and at most one question number is
/// one question.
pub open spec fn is_single_choice(option_lines: nat, numbers: nat) -> bool {
    option_lines >= 2 && numbers <= 1
}

/// Whether the text is one question with its choices.
pub fn looks_like_single_choice_question(text: &str) -> (r: bool)
    ensures
        r == is_single_choice(
            match_count(patterns::OPTION_LINE@, text@),
            match_count(patterns::NUMBERED@, text@),
        ),
{
    let option_count: usize = patterns::find_spans(patterns::OPTION_LINE, text).len();
    if option_count < 2 {
        return false;
    }
    patterns::find_spans(patterns::NUMBERED, text).len() <= 1
}

/// The lines of a text that are not blank, trimmed.
pub open spec fn solid_lines(s: Seq<char>) -> Seq<Seq<char>> {
    text::non_blank(text::split_on(s, "\n"@))
}

/// A text that has a line which is not blank, and in which each such line is one
/// choice.
pub open spec fn is_options_only(s: Seq<char>) -> bool {
    let lines = solid_lines(s);
    lines.len() > 0 && forall|i: int|
        0 <= i < lines.len() ==> match_count(patterns::OPTION_LINE@, #[trigger] lines[i]) > 0
}

/// Whether the text holds nothing but choices.
pub fn is_choice_option_only(text: &str) -> (r: bool)
    ensures
        r == is_options_only(text@),
{
    proof {
        reveal_strlit("\n");
    }
    let lines = text::split_non_blank(text, "\n");
    let ghost all = text::views(lines@);
    if lines.len() == 0 {
        assert(all.len() == 0);
        return false;
    }
    let mut i: usize = 0;
    while i < lines.len()
        invariant
            i <= lines@.len(),
            all == text::views(lines@),
            all == solid_lines(text@),
            forall|k: int|
                0 <= k < i ==> match_count(patterns::OPTION_LINE@, #[trigger] all[k]) > 0,
        decreases lines@.len() - i,
    {
        assert(all[i as int] == lines@[i as int]@);
        if !patterns::is_match(patterns::OPTION_LINE, lines[i].as_str()) {
            return false;
        }
        i += 1;
    }
    assert(all.len() > 0);
    true
}

/// The first positions of the spans.
pub open spec fn firsts(spans: Seq<(usize, usize)>) -> Seq<usize> {
    spans.map_values(|s: (usize, usize)| s.0)
}

/// The text with its line ends written as one character.
pub open spec fn with_line_ends(s: Seq<char>) -> Seq<char> {
    text::replaced(s, "\r\n"@, "\n"@)
}

/// The questions in `s`, given what was found in it: where its question numbers
/// start, how many lines of choices it has, how many of its paragraphs have the
/// letter of a choice at the start of a line, and whether all paragraphs after the
/// first hold nothing but choices.
pub open spec fn questions_given(
    s: Seq<char>,
    starts: Seq<usize>,
    option_lines: nat,
    headed: nat,
    rest_is_options: bool,
) -> Seq<Seq<char>> {
    if starts.len() >= 2 {
        text::non_blank(parts(s, starts))
    } else if is_single_choice(option_lines, starts.len()) {
        if text::trim(s).len() == 0 {
            Seq::empty()
        } else {
            seq![text::trim(s)]
        }
    } else if parser::paragraphs(s).len() >= 2 && headed < parser::paragraphs(s).len() && !rest_is_options {
        parser::paragraphs(s)
    } else {
        seq![text::trim(s)]
    }
}

/// How many of the texts have the letter of a choice at the start of a line.
pub open spec fn headed_count(segs: Seq<Seq<char>>) -> nat
    decreases segs.len(),
{
    if segs.len() == 0 {
        0
    } else {
        headed_count(segs.drop_last()) + (if match_count(patterns::CHOICE_HEAD@, segs.last()) > 0 {
            1nat
        } else {
            0nat
        })
    }
}

/// All texts after the first hold nothing but choices.
pub open spec fn rest_is_options(segs: Seq<Seq<char>>) -> bool {
    forall|i: int| 1 <= i < segs.len() ==> is_options_only(#[trigger] segs[i])
}

/// The questions in a recognised text.
pub open spec fn questions_of(text: Seq<char>) -> Seq<Seq<char>> {
    let s = with_line_ends(text);
    questions_given(
        s,
        firsts(patterns::match_spans(patterns::NUMBERED@, s)),
        match_count(patterns::OPTION_LINE@, s),
        headed_count(parser::paragraphs(s)),
        rest_is_options(parser::paragraphs(s)),
    )
}

/// The questions in `text`, whose line ends are written as one character, given
/// what was found in it: where its question numbers start, how many lines of
/// choices it has, its paragraphs, how many of them have the letter of a choice at
/// the start of a line, and whether all but the first hold nothing but choices.
pub fn split_given(
    text: &str,
    starts: &Vec<usize>,
    option_lines: usize,
    segs: Vec<String>,
    headed: usize,
    rest_is_options: bool,
) -> (r: Vec<String>)
    requires
        starts_fit(starts@, text@),
        text::views(segs@) == parser::paragraphs(text@),
    ensures
        text::views(r@) == questions_given(
            text@,
            starts@,
            option_lines as nat,
            headed as nat,
            rest_is_options,
        ),
{
    if starts.len() >= 2 {
        return split_by_markers(text, starts);
    }
    let whole = text::trimmed(text);
    let mut one: Vec<String> = Vec::new();
    if option_lines >= 2 {
        if !whole.as_str().is_empty() {
            one.push(whole);
            assert(text::views(one@) =~= seq![whole@]);
        } else {
            assert(text::views(one@) =~= Seq::<Seq<char>>::empty());
        }
        return one;
    }
    assert(segs@.len() == parser::paragraphs(text@).len());
    if segs.len() >= 2 && headed < segs.len() && !rest_is_options {
        return segs;
    }
    one.push(whole);
    assert(text::views(one@) =~= seq![whole@]);
    one
}

/// How many of the texts have the letter of a choice at the start of a line.
fn count_headed(segs: &Vec<String>) -> (r: usize)
    ensures
        r == headed_count(text::views(segs@)),
{
    let ghost all = text::views(segs@);
    let mut n: usize = 0;
    let mut i: usize = 0;
    while i < segs.len()
        invariant
            i <= segs@.len(),
            n <= i,
            all == text::views(segs@),
            n == headed_count(all.take(i as int)),
        decreases segs@.len() - i,
    {
        proof {
            assert(all.take(i + 1).drop_last() =~= all.take(i as int));
            assert(all.take(i + 1).last() == segs@[i as int]@);
        }
        if patterns::is_match(patterns::CHOICE_HEAD, segs[i].as_str()) {
            n += 1;
        }
        i += 1;
    }
    assert(all.take(i as int) =~= all);
    n
}

/// Whether all texts after the first hold nothing but choices.
fn rest_holds_options(segs: &Vec<String>) -> (r: bool)
    ensures
        r == rest_is_options(text::views(segs@)),
{
    let ghost all = text::views(segs@);
    let mut i: usize = 1;
    while i < segs.len()
        invariant
            1 <= i,
            all == text::views(segs@),
            i <= segs@.len() || segs@.len() == 0,
            forall|k: int| 1 <= k < i && k < segs@.len() ==> is_options_only(#[trigger] all[k]),
        decreases segs@.len() - i,
    {
        assert(all[i as int] == segs@[i as int]@);
        if !is_choice_option_only(segs[i].as_str()) {
            return false;
        }
        i += 1;
    }
    true
}

/// The questions in a recognised text: its numbered parts where it has two
/// question numbers or more; the whole text where it is one question with its
/// choices; its paragraphs, unless those are the choices of one question; else the whole text. A text with more than white space in it has at
/// least one question, and none of its questions is blank. A blank text has one question
/// without any character.
pub fn split_questions(text: &str) -> (r: Vec<String>)
    ensures
        text::views(r@) == questions_of(text@),
        !text::is_blank(text@) ==> r@.len() > 0 && parser::all_solid(text::views(r@)),
        text::is_blank(text@) ==> text::views(r@) == seq![Seq::<char>::empty()],
        match_count(patterns::NUMBERED@, with_line_ends(text@)) >= 2 ==> r@.len() == match_count(
            patterns::NUMBERED@,
            with_line_ends(text@),
        ),
{
    proof {
        reveal_strlit("\r\n");
        reveal_strlit("\n\n");
    }
    let normalized = text::replace_all(text, "\r\n", "\n");
    let s = normalized.as_str();
    let spans = patterns::find_spans(patterns::NUMBERED, s);
    let mut starts: Vec<usize> = Vec::new();
    let mut i: usize = 0;
    while i < spans.len()
        invariant
            i <= spans@.len(),
            starts@ == firsts(spans@).take(i as int),
        decreases spans@.len() - i,
    {
        starts.push(spans[i].0);
        assert(firsts(spans@).take(i + 1) =~= firsts(spans@).take(i as int).push(spans@[i as int].0));
        i += 1;
    }
    assert(starts@ =~= firsts(spans@));
    proof {
        assert forall|a: int, b: int| 0 <= a < b < starts@.len() implies (#[trigger] starts@[a]) <= (
        #[trigger] starts@[b]) by {
            assert(spans@[a].1 <= spans@[b].0);
        }
        assert forall|a: int| 0 <= a < starts@.len() implies (#[trigger] starts@[a])
            <= encode_utf8(s@).len() && is_char_boundary(encode_utf8(s@), starts@[a] as int) by {
            assert(spans@[a].0 <= spans@[a].1);
        }
    }
    let option_lines: usize = patterns::find_spans(patterns::OPTION_LINE, s).len();
    let segs = text::split_non_blank(s, "\n\n");
    let headed = count_headed(&segs);
    let rest = rest_holds_options(&segs);
    let r = split_given(s, &starts, option_lines, segs, headed, rest);
    proof {
        let v = text::views(r@);
        assert(v.len() == r@.len());
        text::lemma_non_blank(parts(s@, starts@));
        text::lemma_non_blank(text::split_on(s@, "\n\n"@));
        text::lemma_trim(s@);
        text::lemma_blank(s@);
        reveal_strlit("\n");
        text::lemma_blank_replaced(text@, "\r\n"@, "\n"@);
        if text::is_blank(s@) {
            text::lemma_blank_pieces(s@, "\n\n"@);
            assert(text::trim(s@) =~= Seq::<char>::empty());
        }
        if starts@.len() >= 2 {
            assert forall|k: int| 0 <= k < starts@.len() implies text::trim(
                #[trigger] parts(s@, starts@)[k],
            ).len() > 0 by {
                lemma_part_is_solid(s@, spans@, k);
            }
            lemma_non_blank_keeps(parts(s@, starts@));
        }
    }
    r
}

/// A part that starts with a match which does not start with white space is not
/// blank.
proof fn lemma_part_is_solid(s: Seq<char>, spans: Seq<(usize, usize)>, k: int)
    requires
        patterns::spans_fit(spans, s),
        0 <= k < spans.len(),
        spans[k].0 < spans[k].1,
        !text::is_white(patterns::byte_slice(s, spans[k].0 as int, spans[k].1 as int)[0]),
    ensures
        text::trim(part(s, firsts(spans), k)).len() > 0,
{
    let starts = firsts(spans);
    let bytes = encode_utf8(s);
    let a = spans[k].0 as int;
    let b = spans[k].1 as int;
    let c = part_end(s, starts, k);
    encode_utf8_valid_utf8(s);
    is_char_boundary_start_end_of_seq(bytes);
    if k + 1 < spans.len() {
        assert(spans[k].1 <= spans[k + 1].0);
        assert(spans[k + 1].0 <= spans[k + 1].1);
    }
    lemma_slice_split(s, a, b, c);
    patterns::lemma_boundary_of_slice(bytes, a, b, b);
    let head = patterns::byte_slice(s, a, b);
    assert(bytes.subrange(a, b).len() > 0);
    assert(head.len() > 0);
    let whole = part(s, starts, k);
    assert(whole[0] == head[0]);
    text::lemma_trim(whole);
    let (i, j) = choose|i: int, j: int|
        0 <= i <= j <= whole.len() && text::trim(whole) == #[trigger] whole.subrange(i, j) && (
        forall|m: int| 0 <= m < i || j <= m < whole.len() ==> text::is_white(whole[m]));
    assert(i == 0 && j > 0);
}

/// Not more texts are counted than there are, and fewer where one has no such letter.
proof fn lemma_headed_count(segs: Seq<Seq<char>>)
    ensures
        headed_count(segs) <= segs.len(),
        headed_count(segs) == segs.len() <==> forall|i: int|
            0 <= i < segs.len() ==> match_count(patterns::CHOICE_HEAD@, #[trigger] segs[i]) > 0,
    decreases segs.len(),
{
    if segs.len() > 0 {
        let body = segs.drop_last();
        lemma_headed_count(body);
        assert(segs.last() == segs[segs.len() - 1]);
        assert forall|i: int| 0 <= i < body.len() implies #[trigger] body[i] == segs[i] by {}
        if headed_count(segs) == segs.len() {
            assert forall|i: int| 0 <= i < segs.len() implies match_count(
                patterns::CHOICE_HEAD@,
                #[trigger] segs[i],
            ) > 0 by {
                if i < body.len() {
                    assert(body[i] == segs[i]);
                }
            }
        } else if forall|i: int|
            0 <= i < segs.len() ==> match_count(patterns::CHOICE_HEAD@, #[trigger] segs[i]) > 0 {
            assert forall|i: int| 0 <= i < body.len() implies match_count(
                patterns::CHOICE_HEAD@,
                #[trigger] body[i],
            ) > 0 by {
                assert(body[i] == segs[i]);
            }
        }
    }
}

/// A text of lines holds nothing but choices where each line is one, and holds something
/// else where a line that is not blank is none.
pub proof fn lines_decide_on_choices(lines: Seq<Seq<char>>)
    requires
        lines.len() > 0,
        forall|i: int| 0 <= i < lines.len() ==> !(#[trigger] lines[i]).contains('\n'),
    ensures
        (exists|i: int|
            0 <= i < lines.len() && !text::is_blank(#[trigger] lines[i]) && match_count(
                patterns::OPTION_LINE@,
                text::trim(lines[i]),
            ) == 0) ==> !is_options_only(text::join(lines, "\n"@)),
        (forall|i: int|
            0 <= i < lines.len() ==> !text::is_blank(#[trigger] lines[i]) && match_count(
                patterns::OPTION_LINE@,
                text::trim(lines[i]),
            ) > 0) ==> is_options_only(text::join(lines, "\n"@)),
{
    let s = text::join(lines, "\n"@);
    text::lemma_split_lines(lines);
    assert(solid_lines(s) == text::non_blank(lines));
    if exists|i: int|
        0 <= i < lines.len() && !text::is_blank(#[trigger] lines[i]) && match_count(
            patterns::OPTION_LINE@,
            text::trim(lines[i]),
        ) == 0 {
        let i = choose|i: int|
            0 <= i < lines.len() && !text::is_blank(#[trigger] lines[i]) && match_count(
                patterns::OPTION_LINE@,
                text::trim(lines[i]),
            ) == 0;
        text::lemma_non_blank_holds(lines, i);
    }
    if forall|i: int|
        0 <= i < lines.len() ==> !text::is_blank(#[trigger] lines[i]) && match_count(
            patterns::OPTION_LINE@,
            text::trim(lines[i]),
        ) > 0 {
        text::lemma_non_blank_all(lines);
        let solid = text::non_blank(lines);
        assert forall|i: int| 0 <= i < solid.len() implies match_count(
            patterns::OPTION_LINE@,
            #[trigger] solid[i],
        ) > 0 by {
            assert(solid[i] == text::trim(lines[i]));
        }
    }
}

/// A text without carriage returns before its line ends is cut as it is.
proof fn lemma_plain_line_ends(s: Seq<char>)
    requires
        !text::contains(s, "\r\n"@),
    ensures
        with_line_ends(s) == s,
{
    reveal_strlit("\r\n");
    text::lemma_replaced_none(s, "\r\n"@, "\n"@);
}

/// Paragraphs that are parted by blank lines are the questions, each as it stands, however
/// many there are: in a text with at most one question number and at most one line of a
/// choice, where one paragraph does not start a line with the letter of a choice, and one
/// behind the first has a line that is not a choice (the line `m` of the paragraph `k`).
pub proof fn parted_paragraphs_are_the_questions(
    gaps: Seq<Seq<char>>,
    pars: Seq<Seq<char>>,
    end: Seq<char>,
    unheaded: int,
    k: int,
    lines: Seq<Seq<char>>,
    m: int,
)
    requires
        pars.len() >= 2,
        forall|i: int| 0 <= i < pars.len() ==> parser::is_paragraph(#[trigger] pars[i]),
        parser::gaps_fit(gaps, pars),
        text::is_blank(end),
        !text::contains(parser::laid_out(gaps, pars) + end, "\r\n"@),
        match_count(patterns::NUMBERED@, parser::laid_out(gaps, pars) + end) < 2,
        match_count(patterns::OPTION_LINE@, parser::laid_out(gaps, pars) + end) < 2,
        0 <= unheaded < pars.len(),
        match_count(patterns::CHOICE_HEAD@, pars[unheaded]) == 0,
        1 <= k < pars.len(),
        pars[k] == text::join(lines, "\n"@),
        forall|i: int| 0 <= i < lines.len() ==> !(#[trigger] lines[i]).contains('\n'),
        0 <= m < lines.len(),
        !text::is_blank(lines[m]),
        match_count(patterns::OPTION_LINE@, text::trim(lines[m])) == 0,
    ensures
        questions_of(parser::laid_out(gaps, pars) + end).len() == pars.len(),
        forall|i: int|
            0 <= i < pars.len() ==> #[trigger] questions_of(parser::laid_out(gaps, pars) + end)[i]
                == pars[i],
{
    let s = parser::laid_out(gaps, pars) + end;
    lemma_plain_line_ends(s);
    parser::laid_out_paragraphs_are_found(gaps, pars, end);
    lemma_headed_count(pars);
    lines_decide_on_choices(lines);
    assert(!is_options_only(pars[k]));
    assert(!rest_is_options(pars));
}

/// A question whose choices stand in paragraphs of their own stays one question: in a text
/// with at most one question number and at most one line of a choice, where all lines
/// behind the first paragraph are choices, or each paragraph starts a line with the letter
/// of a choice.
pub proof fn choices_stay_with_their_question(
    gaps: Seq<Seq<char>>,
    pars: Seq<Seq<char>>,
    end: Seq<char>,
    lines: Seq<Seq<Seq<char>>>,
)
    requires
        pars.len() > 0,
        forall|i: int| 0 <= i < pars.len() ==> parser::is_paragraph(#[trigger] pars[i]),
        parser::gaps_fit(gaps, pars),
        text::is_blank(end),
        !text::contains(parser::laid_out(gaps, pars) + end, "\r\n"@),
        match_count(patterns::NUMBERED@, parser::laid_out(gaps, pars) + end) < 2,
        match_count(patterns::OPTION_LINE@, parser::laid_out(gaps, pars) + end) < 2,
        lines.len() == pars.len(),
        forall|i: int|
            0 <= i < pars.len() ==> (#[trigger] lines[i]).len() > 0 && pars[i] == text::join(
                lines[i],
                "\n"@,
            ),
        forall|i: int, m: int|
            0 <= i < pars.len() && 0 <= m < lines[i].len() ==> !(
            #[trigger] lines[i][m]).contains('\n') && !text::is_blank(lines[i][m]),
        (forall|i: int, m: int|
            1 <= i < pars.len() && 0 <= m < lines[i].len() ==> match_count(
                patterns::OPTION_LINE@,
                text::trim(#[trigger] lines[i][m]),
            ) > 0) || (forall|i: int|
            0 <= i < pars.len() ==> match_count(patterns::CHOICE_HEAD@, #[trigger] pars[i]) > 0),
    ensures
        questions_of(parser::laid_out(gaps, pars) + end).len() == 1,
        questions_of(parser::laid_out(gaps, pars) + end)[0] == text::trim(
            parser::laid_out(gaps, pars) + end,
        ),
{
    let s = parser::laid_out(gaps, pars) + end;
    lemma_plain_line_ends(s);
    parser::laid_out_paragraphs_are_found(gaps, pars, end);
    lemma_headed_count(pars);
    if forall|i: int, m: int|
        1 <= i < pars.len() && 0 <= m < lines[i].len() ==> match_count(
            patterns::OPTION_LINE@,
            text::trim(#[trigger] lines[i][m]),
        ) > 0 {
        assert forall|i: int| 1 <= i < pars.len() implies is_options_only(#[trigger] pars[i]) by {
            let l = lines[i];
            assert forall|m: int| 0 <= m < l.len() implies !(#[trigger] l[m]).contains('\n')
                && !text::is_blank(l[m]) && match_count(
                patterns::OPTION_LINE@,
                text::trim(l[m]),
            ) > 0 by {
                assert(l[m] == lines[i][m]);
            }
            lines_decide_on_choices(l);
        }
    }
}

/// A text with two lines of choices or more, and with at most one question number, is one
/// question, whatever blank lines stand in it.
pub proof fn a_choice_question_is_one_question(s: Seq<char>)
    requires
        !text::contains(s, "\r\n"@),
        !text::is_blank(s),
        match_count(patterns::OPTION_LINE@, s) >= 2,
        match_count(patterns::NUMBERED@, s) <= 1,
    ensures
        questions_of(s).len() == 1,
        questions_of(s)[0] == text::trim(s),
{
    lemma_plain_line_ends(s);
    text::lemma_blank(s);
}

/// Texts one after the other.
proof fn lemma_concat_take(pieces: Seq<Seq<char>>, i: int)
    requires
        0 <= i < pieces.len(),
    ensures
        concat(pieces.take(i + 1)) == concat(pieces.take(i)) + pieces[i],
{
    assert(pieces.take(i + 1).drop_last() =~= pieces.take(i));
}

/// The texts up to a place are the start of them all.
proof fn lemma_concat_prefix(pieces: Seq<Seq<char>>, i: int)
    requires
        0 <= i <= pieces.len(),
    ensures
        exists|rest: Seq<char>| concat(pieces) == #[trigger] (concat(pieces.take(i)) + rest),
    decreases pieces.len() - i,
{
    if i == pieces.len() {
        assert(pieces.take(i) =~= pieces);
        assert(concat(pieces) =~= concat(pieces.take(i)) + Seq::<char>::empty());
    } else {
        lemma_concat_take(pieces, i);
        lemma_concat_prefix(pieces, i + 1);
        let rest = choose|rest: Seq<char>|
            concat(pieces) == #[trigger] (concat(pieces.take(i + 1)) + rest);
        assert(concat(pieces) =~= concat(pieces.take(i)) + (pieces[i] + rest));
    }
}

/// A slice at the bytes of a text gives the text.
proof fn lemma_slice_of_concat(a: Seq<char>, b: Seq<char>, c: Seq<char>)
    ensures
        patterns::byte_slice(
            a + b + c,
            text::utf8_len(a) as int,
            (text::utf8_len(a) + text::utf8_len(b)) as int,
        ) == b,
{
    text::lemma_encode_concat(a, b);
    text::lemma_encode_concat(a + b, c);
    let from = text::utf8_len(a) as int;
    let to = from + text::utf8_len(b);
    assert(encode_utf8(a + b + c).subrange(from, to) =~= encode_utf8(b));
    encode_utf8_decode_utf8(b);
}

/// A text with two question numbers or more is cut right before each number: where it is
/// made of what stands before the first number and of the pieces that start with the
/// numbers, these pieces are its questions, in their order.
pub proof fn a_numbered_text_is_cut_at_its_numbers(pieces: Seq<Seq<char>>)
    requires
        pieces.len() >= 3,
        !text::contains(concat(pieces), "\r\n"@),
        match_count(patterns::NUMBERED@, concat(pieces)) == pieces.len() - 1,
        forall|i: int|
            0 <= i < pieces.len() - 1 ==> (#[trigger] patterns::match_spans(
                patterns::NUMBERED@,
                concat(pieces),
            )[i]).0 == text::utf8_len(concat(pieces.take(i + 1))),
        forall|i: int| 1 <= i < pieces.len() ==> !text::is_blank(#[trigger] pieces[i]),
    ensures
        questions_of(concat(pieces)).len() == pieces.len() - 1,
        forall|i: int|
            0 <= i < pieces.len() - 1 ==> #[trigger] questions_of(concat(pieces))[i] == text::trim(
                pieces[i + 1],
            ),
{
    let s = concat(pieces);
    let spans = patterns::match_spans(patterns::NUMBERED@, s);
    let starts = firsts(spans);
    lemma_plain_line_ends(s);
    let all = parts(s, starts);
    assert forall|i: int| 0 <= i < all.len() implies #[trigger] all[i] == pieces[i + 1] by {
        let a = concat(pieces.take(i + 1));
        lemma_concat_take(pieces, i + 1);
        lemma_concat_prefix(pieces, i + 2);
        let rest = choose|rest: Seq<char>|
            concat(pieces) == #[trigger] (concat(pieces.take(i + 2)) + rest);
        assert(s =~= a + pieces[i + 1] + rest);
        lemma_slice_of_concat(a, pieces[i + 1], rest);
        text::lemma_utf8_len_concat(a, pieces[i + 1]);
        assert(starts[i] == spans[i].0);
        if i + 1 < starts.len() {
            assert(starts[i + 1] == spans[i + 1].0);
        } else {
            assert(pieces.take(i + 2) =~= pieces);
        }
    }
    assert forall|i: int| 0 <= i < all.len() implies !text::is_blank(#[trigger] all[i]) by {
        assert(all[i] == pieces[i + 1]);
    }
    text::lemma_non_blank_all(all);
    assert forall|i: int| 0 <= i < pieces.len() - 1 implies #[trigger] questions_of(s)[i]
        == text::trim(pieces[i + 1]) by {
        assert(all[i] == pieces[i + 1]);
        assert(text::non_blank(all)[i] == text::trim(all[i]));
    }
}

/// A text gives the same questions when its lines end with a carriage return and a line
/// feed.
pub proof fn line_ends_do_not_matter(s: Seq<char>)
    requires
        !text::contains(s, "\r\n"@),
    ensures
        questions_of(text::replaced(s, "\n"@, "\r\n"@)) == questions_of(s),
{
    reveal_strlit("\n");
    reveal_strlit("\r\n");
    let one = "\n"@;
    let two = "\r\n"@;
    let lines = text::split_on(s, one);
    text::lemma_join_split(s, one);
    assert forall|k: int| 0 <= k < lines.len() implies text::ends_first(
        #[trigger] lines[k],
        two,
    ) by {
        let p = lines[k];
        text::lemma_split_free(s, one, k);
        assert forall|j: int| 0 <= j < p.len() implies !#[trigger] text::occurs_at(
            p + two,
            two,
            j,
        ) by {
            if text::occurs_at(p + two, two, j) {
                assert((p + two).subrange(j, j + 2)[1] == (p + two)[j + 1]);
                if j + 1 < p.len() {
                    assert(p.subrange(j + 1, j + 2) =~= one);
                    assert(text::occurs_at(p, one, j + 1));
                }
            }
        }
    }
    text::lemma_split_join(lines, two);
    lemma_plain_line_ends(s);
}

} // verus!
