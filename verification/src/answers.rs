//! Short answers, their previews, and the names of the documents they go into.

use vstd::prelude::*;
use crate::ai::{QuickAnswer, QuickAnswerView};
use crate::models::{AiSolvedQuestion, AiSolvedQuestionView, SolvedQuestion, SolvedQuestionView};
use crate::models;
use crate::patterns;
use crate::stamp;
use crate::text;

verus! {

/// The first three words of a text, with one space between each two.
pub open spec fn first_three_words(s: Seq<char>) -> Seq<char> {
    let words = text::words(s);
    text::join(
        if words.len() <= 3 {
            words
        } else {
            words.take(3)
        },
        seq![' '],
    )
}

/// The short form of an answer, given the letters of a choice that were found in
/// it: the short form that came with it, the letters in upper case, or its first
/// three words.
pub open spec fn brief_given(
    answer_brief: Seq<char>,
    choice: Option<Seq<char>>,
    answer: Seq<char>,
) -> Seq<char> {
    if text::trim(answer_brief).len() > 0 {
        text::trim(answer_brief)
    } else {
        match choice {
            Some(letters) => letters.map_values(|c: char| text::upper_char(c)),
            None => first_three_words(answer),
        }
    }
}

/// The short form of an answer.
pub open spec fn brief_of(answer_brief: Seq<char>, answer: Seq<char>) -> Seq<char> {
    brief_given(answer_brief, patterns::first_group(patterns::CHOICE@, answer), answer)
}

/// The short form of an answer, given the letters of a choice that were found in
/// it.
pub fn brief_from(answer_brief: &str, choice: Option<String>, answer: &str) -> (r: String)
    ensures
        r@ == brief_given(answer_brief@, text::view_opt(choice), answer@),
{
    let trimmed = text::trimmed(answer_brief);
    if !trimmed.as_str().is_empty() {
        return trimmed;
    }
    match choice {
        Some(letters) => text::ascii_upper(letters.as_str()),
        None => text::first_words(answer, 3),
    }
}

/// The short form of an answer: the one that came with it where that is not blank,
/// else the letters of the choice in the answer, else its first words.
pub fn normalize_answer_brief(answer_brief: &str, answer: &str) -> (r: String)
    ensures
        r@ == brief_of(answer_brief@, answer@),
{
    let choice = patterns::find_group(patterns::CHOICE, answer);
    brief_from(answer_brief, choice, answer)
}

/// A short form that is not blank is kept, but for the white space around it; doing
/// so again changes nothing.
pub proof fn given_brief_is_kept(answer_brief: Seq<char>, answer: Seq<char>)
    requires
        !text::is_blank(answer_brief),
    ensures
        brief_of(answer_brief, answer) == text::trim(answer_brief),
        brief_of(brief_of(answer_brief, answer), answer) == brief_of(answer_brief, answer),
{
    text::lemma_blank(answer_brief);
    text::trim_is_idempotent(answer_brief);
}

/// The first of three texts that is there.
pub open spec fn first_found(
    a: Option<Seq<char>>,
    b: Option<Seq<char>>,
    c: Option<Seq<char>>,
) -> Option<Seq<char>> {
    if a is Some {
        a
    } else if b is Some {
        b
    } else {
        c
    }
}

/// The number of a question, as its text gives it.
pub open spec fn number_of(question: Seq<char>) -> Option<Seq<char>> {
    first_found(
        patterns::first_group(patterns::NUMBER_WORD@, question),
        patterns::first_group(patterns::NUMBER_CHINESE@, question),
        patterns::first_group(patterns::NUMBER_START@, question),
    )
}

/// The first of three numbers that was found.
pub fn number_from(
    after_word: Option<String>,
    between_signs: Option<String>,
    at_start: Option<String>,
) -> (r: Option<String>)
    ensures
        text::view_opt(r) == first_found(
            text::view_opt(after_word),
            text::view_opt(between_signs),
            text::view_opt(at_start),
        ),
        r == after_word || r == between_signs || r == at_start,
{
    if after_word.is_some() {
        after_word
    } else if between_signs.is_some() {
        between_signs
    } else {
        at_start
    }
}

/// The number of a question, as its text gives it: one to three digits after the
/// word for a question, between the Chinese signs, or at the start.
pub fn extract_question_number(question: &str) -> (r: Option<String>)
    ensures
        text::view_opt(r) == number_of(question@),
        r matches Some(s) ==> patterns::is_short_number(s@),
{
    let after_word = patterns::find_group(patterns::NUMBER_WORD, question);
    let between_signs = patterns::find_group(patterns::NUMBER_CHINESE, question);
    let at_start = patterns::find_group(patterns::NUMBER_START, question);
    number_from(after_word, between_signs, at_start)
}

/// What a preview shows of one answer: its number, a point and the answer. Without
/// a number of its own the question counts from 1 by its place.
pub open spec fn preview_entry(number: Option<Seq<char>>, index: nat, brief: Seq<char>) -> Seq<
    char,
> {
    (match number {
        Some(n) => n,
        None => text::decimal(index + 1),
    }) + "."@ + brief
}

/// What a preview shows of one answer.
pub fn preview_line(number: Option<String>, index: usize, brief: &str) -> (r: String)
    requires
        index < usize::MAX,
    ensures
        r@ == preview_entry(text::view_opt(number), index as nat, brief@),
{
    let mut line = match number {
        Some(n) => n,
        None => text::decimal_text((index + 1) as u64),
    };
    line.append(".");
    line.append(brief);
    line
}

/// What a preview shows of the quick answers.
pub open spec fn quick_entries(answers: Seq<QuickAnswerView>) -> Seq<Seq<char>> {
    Seq::new(
        answers.len(),
        |i: int|
            preview_entry(
                number_of(answers[i].question),
                i as nat,
                brief_of(answers[i].answer_brief, answers[i].answer_brief),
            ),
    )
}

/// What a preview shows where no answer came: a question mark for each question.
pub open spec fn open_entries(expected_len: nat) -> Seq<Seq<char>> {
    Seq::new(expected_len, |i: int| text::decimal((i + 1) as nat) + ".?"@)
}

/// The preview of the given entries; where there are none, of as many open
/// questions as were asked.
pub open spec fn preview_given(entries: Seq<Seq<char>>, expected_len: nat) -> Seq<char> {
    text::join(
        if entries.len() == 0 {
            open_entries(expected_len)
        } else {
            entries
        },
        "  "@,
    )
}

/// The preview of the given entries; where there are none, of as many open
/// questions as were asked.
pub fn preview_from(entries: Vec<String>, expected_len: usize) -> (r: String)
    ensures
        r@ == preview_given(text::views(entries@), expected_len as nat),
{
    if entries.len() > 0 {
        return text::join_strings(&entries, "  ");
    }
    let mut open: Vec<String> = Vec::new();
    let mut i: usize = 0;
    while i < expected_len
        invariant
            i <= expected_len,
            text::views(open@) == open_entries(i as nat),
        decreases expected_len - i,
    {
        let mut line = text::decimal_text((i + 1) as u64);
        line.append(".?");
        let ghost before = open@;
        open.push(line);
        i += 1;
        proof {
            assert(text::views(open@) =~= text::views(before).push(line@));
            assert(open_entries(i as nat) =~= open_entries((i - 1) as nat).push(line@));
        }
    }
    assert(text::views(entries@).len() == 0);
    text::join_strings(&open, "  ")
}

/// The preview of the quick answers.
pub fn build_quick_preview(answers: &[QuickAnswer], expected_len: usize) -> (r: String)
    ensures
        r@ == preview_given(quick_entries(text::views(answers@)), expected_len as nat),
{
    let n: usize = answers.len();
    let ghost all = quick_entries(text::views(answers@));
    let mut entries: Vec<String> = Vec::new();
    let mut i: usize = 0;
    while i < n
        invariant
            i <= n,
            n == answers@.len(),
            all == quick_entries(text::views(answers@)),
            text::views(entries@) == all.take(i as int),
        decreases n - i,
    {
        let item = &answers[i];
        let brief = normalize_answer_brief(item.answer_brief.as_str(), item.answer_brief.as_str());
        let number = extract_question_number(item.question.as_str());
        let line = preview_line(number, i, brief.as_str());
        let ghost before = entries@;
        entries.push(line);
        proof {
            assert(text::views(answers@)[i as int] == item@);
            assert(line@ == all[i as int]);
            assert(text::views(entries@) =~= text::views(before).push(line@));
            assert(all.take(i + 1) =~= all.take(i as int).push(all[i as int]));
        }
        i += 1;
    }
    assert(all.take(i as int) =~= all);
    preview_from(entries, expected_len)
}

/// What a preview shows of the solved questions.
pub open spec fn answer_entries(items: Seq<SolvedQuestionView>) -> Seq<Seq<char>> {
    Seq::new(
        items.len(),
        |i: int|
            text::decimal(items[i].ordinal as nat) + "."@ + brief_of(
                items[i].answer_brief,
                items[i].answer,
            ),
    )
}

/// The preview of the solved questions.
pub fn build_answer_preview(items: &Vec<SolvedQuestion>) -> (r: String)
    ensures
        r@ == text::join(answer_entries(text::views(items@)), "  "@),
{
    let ghost all = answer_entries(text::views(items@));
    let mut entries: Vec<String> = Vec::new();
    let mut i: usize = 0;
    while i < items.len()
        invariant
            i <= items@.len(),
            all == answer_entries(text::views(items@)),
            text::views(entries@) == all.take(i as int),
        decreases items@.len() - i,
    {
        let item = &items[i];
        let brief = normalize_answer_brief(item.answer_brief.as_str(), item.answer.as_str());
        let mut line = text::decimal_text(item.ordinal as u64);
        line.append(".");
        line.append(brief.as_str());
        let ghost before = entries@;
        entries.push(line);
        proof {
            assert(text::views(items@)[i as int] == item@);
            assert(line@ == all[i as int]);
            assert(text::views(entries@) =~= text::views(before).push(line@));
            assert(all.take(i + 1) =~= all.take(i as int).push(all[i as int]));
        }
        i += 1;
    }
    assert(all.take(i as int) =~= all);
    text::join_strings(&entries, "  ")
}

/// A character that must not stand in the name of a file.
pub open spec fn is_forbidden(c: char) -> bool {
    c == '/' || c == '\\' || c == ':' || c == '*' || c == '?' || c == '"' || c == '<' || c == '>'
        || c == '|'
}

/// `c`, or `_` where it must not stand in the name of a file.
pub open spec fn safe_char(c: char) -> char {
    if is_forbidden(c) {
        '_'
    } else {
        c
    }
}

/// A name made safe for a file.
pub open spec fn safe_name(name: Seq<char>) -> Seq<char> {
    text::trim(name.map_values(|c: char| safe_char(c)))
}

/// The name with `_` in place of the characters that must not stand in the name of
/// a file, and without white space at its ends.
pub fn sanitize_file_name(name: &str) -> (r: String)
    ensures
        r@ == safe_name(name@),
{
    let c = text::chars_of(name);
    let ghost mapped = name@.map_values(|c: char| safe_char(c));
    let mut safe: Vec<char> = Vec::new();
    let mut i: usize = 0;
    while i < c.len()
        invariant
            i <= c@.len(),
            c@ == name@,
            mapped == name@.map_values(|c: char| safe_char(c)),
            safe@ == mapped.take(i as int),
        decreases c@.len() - i,
    {
        let ch = c[i];
        let forbidden = ch == '/' || ch == '\\' || ch == ':' || ch == '*' || ch == '?' || ch == '"'
            || ch == '<' || ch == '>' || ch == '|';
        safe.push(
            if forbidden {
                '_'
            } else {
                ch
            },
        );
        assert(mapped.take(i + 1) =~= mapped.take(i as int).push(mapped[i as int]));
        i += 1;
    }
    assert(mapped.take(i as int) =~= mapped);
    let (from, to) = text::trim_bounds(&safe, 0, safe.len());
    assert(safe@.subrange(0, safe@.len() as int) =~= safe@);
    text::string_from(&safe, from, to)
}

/// A safe name has no forbidden character and no white space at its ends, and
/// making it safe again changes nothing.
pub proof fn safe_names_are_safe(name: Seq<char>)
    ensures
        forall|i: int|
            0 <= i < safe_name(name).len() ==> !is_forbidden(#[trigger] safe_name(name)[i]),
        text::is_trimmed(safe_name(name)),
        safe_name(safe_name(name)) == safe_name(name),
{
    let mapped = name.map_values(|c: char| safe_char(c));
    let safe = safe_name(name);
    text::lemma_trim(mapped);
    let (a, b) = choose|a: int, b: int|
        0 <= a <= b <= mapped.len() && text::trim(mapped) == #[trigger] mapped.subrange(a, b) && (
        forall|k: int| 0 <= k < a || b <= k < mapped.len() ==> text::is_white(mapped[k]));
    assert forall|i: int| 0 <= i < safe.len() implies !is_forbidden(#[trigger] safe[i]) by {
        assert(safe[i] == mapped[a + i]);
        assert(mapped[a + i] == safe_char(name[a + i]));
    }
    assert(safe.map_values(|c: char| safe_char(c)) =~= safe);
    text::lemma_trim_fixed(safe);
}

/// `n` in decimal, with its sign where it is negative.
pub open spec fn signed_decimal(n: int) -> Seq<char> {
    if n < 0 {
        "-"@ + text::decimal((-n) as nat)
    } else {
        text::decimal(n as nat)
    }
}

/// A file name made of a time.
pub open spec fn dated_name(timestamp: int) -> Seq<char> {
    "questions-"@ + signed_decimal(timestamp)
}

/// `n` in decimal, with its sign where it is negative.
pub fn signed_decimal_text(n: i64) -> (r: String)
    ensures
        r@ == signed_decimal(n as int),
{
    if n < 0 {
        let size: u64 = if n == i64::MIN {
            0x8000_0000_0000_0000
        } else {
            (-n) as u64
        };
        let mut r = "-".to_owned();
        let digits = text::decimal_text(size);
        r.append(digits.as_str());
        r
    } else {
        text::decimal_text(n as u64)
    }
}

/// A file name made of a time.
pub fn dated_stem(timestamp: i64) -> (r: String)
    ensures
        r@ == dated_name(timestamp as int),
{
    let mut stem = "questions-".to_owned();
    let number = signed_decimal_text(timestamp);
    stem.append(number.as_str());
    stem
}

/// A file name made of the numbers of the questions, or of the first words of the
/// first one; none where there are neither.
pub open spec fn stem_given(numbers: Seq<Seq<char>>, tokens: Seq<Seq<char>>) -> Option<Seq<char>> {
    if numbers.len() > 1 {
        Some("第"@ + numbers[0] + "-"@ + numbers.last() + "题"@)
    } else if numbers.len() == 1 {
        Some("第"@ + numbers[0] + "题"@)
    } else if tokens.len() > 0 {
        Some(safe_name(text::join(tokens, "-"@)))
    } else {
        None
    }
}

/// A file name made of the numbers of the questions, or of the first words of the
/// first one.
pub fn named_stem(numbers: &Vec<String>, tokens: &Vec<String>) -> (r: Option<String>)
    ensures
        text::view_opt(r) == stem_given(text::views(numbers@), text::views(tokens@)),
{
    assert(text::views(numbers@).len() == numbers@.len());
    assert(text::views(tokens@).len() == tokens@.len());
    if numbers.len() > 0 {
        let mut stem = "第".to_owned();
        stem.append(numbers[0].as_str());
        if numbers.len() > 1 {
            stem.append("-");
            stem.append(numbers[numbers.len() - 1].as_str());
        }
        stem.append("题");
        return Some(stem);
    }
    if tokens.len() > 0 {
        let joined = text::join_strings(tokens, "-");
        return Some(sanitize_file_name(joined.as_str()));
    }
    None
}

/// The numbers of those questions that have one.
pub open spec fn numbers_of(questions: Seq<Seq<char>>) -> Seq<Seq<char>>
    decreases questions.len(),
{
    if questions.len() == 0 {
        Seq::empty()
    } else {
        match number_of(questions.last()) {
            Some(n) => numbers_of(questions.drop_last()).push(n),
            None => numbers_of(questions.drop_last()),
        }
    }
}

/// The first three runs of letters and digits in a text.
pub open spec fn tokens_of(s: Seq<char>) -> Seq<Seq<char>> {
    let spans = patterns::match_spans(patterns::TOKEN@, s);
    let n = if spans.len() <= 3 {
        spans.len()
    } else {
        3
    };
    Seq::new(n, |i: int| patterns::byte_slice(s, spans[i].0 as int, spans[i].1 as int))
}

/// The first three runs of letters and digits in a text.
fn first_tokens(s: &str) -> (r: Vec<String>)
    ensures
        text::views(r@) == tokens_of(s@),
{
    let spans = patterns::find_spans(patterns::TOKEN, s);
    let mut tokens: Vec<String> = Vec::new();
    let mut i: usize = 0;
    while i < spans.len() && i < 3
        invariant
            i <= spans@.len(),
            i <= 3,
            spans@ == patterns::match_spans(patterns::TOKEN@, s@),
            patterns::spans_fit(spans@, s@),
            tokens@.len() == i,
            forall|k: int| 0 <= k < i ==> (#[trigger] tokens@[k])@ == tokens_of(s@)[k],
        decreases spans@.len() - i,
    {
        assert(spans@[i as int].0 <= spans@[i as int].1);
        let (from, to) = spans[i];
        tokens.push(patterns::slice_bytes(s, from, to));
        i += 1;
    }
    assert(text::views(tokens@) =~= tokens_of(s@));
    tokens
}

/// The texts of the questions.
pub open spec fn question_texts(items: Seq<SolvedQuestionView>) -> Seq<Seq<char>> {
    items.map_values(|item: SolvedQuestionView| item.question)
}

/// A file name for the questions, where they give one.
pub open spec fn stem_of(questions: Seq<Seq<char>>) -> Option<Seq<char>> {
    stem_given(
        numbers_of(questions),
        if questions.len() == 0 {
            Seq::empty()
        } else {
            tokens_of(questions[0])
        },
    )
}

/// The file name for the questions is the one that they give, or one made of some time
/// where they give none.
pub open spec fn is_stem_for(questions: Seq<Seq<char>>, stem: Seq<char>) -> bool {
    match stem_of(questions) {
        Some(s) => stem == s,
        None => exists|t: i64| stem == #[trigger] dated_name(t as int),
    }
}

/// A file name for the solved questions: made of their numbers, of the first words
/// of the first one, or of the time.
pub fn suggest_file_stem(items: &Vec<SolvedQuestion>) -> (r: String)
    ensures
        is_stem_for(question_texts(text::views(items@)), r@),
{
    let ghost questions = question_texts(text::views(items@));
    let mut numbers: Vec<String> = Vec::new();
    let mut i: usize = 0;
    assert(text::views(numbers@) =~= numbers_of(questions.take(0)));
    while i < items.len()
        invariant
            i <= items@.len(),
            questions == question_texts(text::views(items@)),
            text::views(numbers@) == numbers_of(questions.take(i as int)),
        decreases items@.len() - i,
    {
        proof {
            assert(questions.take(i + 1).drop_last() =~= questions.take(i as int));
            assert(questions.take(i + 1).last() == items@[i as int].question@);
        }
        match extract_question_number(items[i].question.as_str()) {
            Some(n) => {
                let ghost before = numbers@;
                numbers.push(n);
                assert(text::views(numbers@) =~= text::views(before).push(n@));
            },
            None => {},
        }
        i += 1;
    }
    assert(questions.take(i as int) =~= questions);
    let tokens = if items.len() > 0 {
        assert(questions[0] == items@[0].question@);
        first_tokens(items[0].question.as_str())
    } else {
        Vec::new()
    };
    assert(questions.len() == 0 ==> text::views(tokens@) =~= Seq::<Seq<char>>::empty());
    match named_stem(&numbers, &tokens) {
        Some(stem) => stem,
        None => {
            let timestamp: i64 = stamp::now_seconds();
            let r = dated_stem(timestamp);
            assert(r@ == dated_name(timestamp as int));
            r
        },
    }
}

/// The decimal form of a number ends with its last digit, and what stands before
/// is the decimal form of the rest.
proof fn lemma_decimal_is_unique(a: nat, b: nat)
    requires
        text::decimal(a) == text::decimal(b),
    ensures
        a == b,
    decreases a,
{
    lemma_decimal_len(a);
    lemma_decimal_len(b);
    let x = text::decimal(a);
    let y = text::decimal(b);
    assert(x.last() == text::digit(a % 10));
    assert(y.last() == text::digit(b % 10));
    assert(a % 10 == b % 10);
    if a < 10 || b < 10 {
        assert(x.len() == 1);
    } else {
        assert(x.drop_last() =~= text::decimal(a / 10));
        assert(y.drop_last() =~= text::decimal(b / 10));
        lemma_decimal_is_unique(a / 10, b / 10);
    }
}

/// A number has one digit just where it is less than ten.
proof fn lemma_decimal_len(n: nat)
    ensures
        text::decimal(n).len() >= 1,
        text::decimal(n).len() == 1 <==> n < 10,
    decreases n,
{
    if n >= 10 {
        lemma_decimal_len(n / 10);
    }
}

/// The name of the document at the given attempt, counted from 1.
pub open spec fn candidate_name(stem: Seq<char>, attempt: nat) -> Seq<char> {
    if attempt == 1 {
        stem + ".docx"@
    } else {
        stem + "-"@ + text::decimal(attempt) + ".docx"@
    }
}

/// The search for a name that no file has yet.
#[derive(Debug, Clone)]
pub struct OutputSearch {
    pub stem: String,
    pub attempt: usize,
}

/// A stem for the names of documents: the given one made safe; one made of the
/// time where nothing is left of it.
pub open spec fn stem_given_time(file_stem: Seq<char>, timestamp: int) -> Seq<char> {
    if safe_name(file_stem).len() == 0 {
        dated_name(timestamp)
    } else {
        safe_name(file_stem)
    }
}

impl OutputSearch {
    /// The search with the given stem, or with one made of the given time where
    /// nothing is left of it when it is made safe.
    pub fn starting(file_stem: &str, timestamp: i64) -> (r: OutputSearch)
        ensures
            r.stem@ == stem_given_time(file_stem@, timestamp as int),
            r.attempt == 1,
    {
        let safe = sanitize_file_name(file_stem);
        let stem = text::trimmed(safe.as_str());
        proof {
            safe_names_are_safe(file_stem@);
            text::lemma_trim_fixed(safe@);
        }
        OutputSearch {
            stem: if stem.as_str().is_empty() {
                dated_stem(timestamp)
            } else {
                stem
            },
            attempt: 1,
        }
    }

    /// The name to try.
    pub fn candidate(&self) -> (r: String)
        ensures
            r@ == candidate_name(self.stem@, self.attempt as nat),
    {
        let mut name = self.stem.clone();
        if self.attempt != 1 {
            name.append("-");
            let digits = text::decimal_text(self.attempt as u64);
            name.append(digits.as_str());
        }
        name.append(".docx");
        name
    }

    /// Goes on with the next name, because a file has the one that was tried.
    pub fn taken(&mut self)
        requires
            old(self).attempt < usize::MAX,
        ensures
            final(self).stem@ == old(self).stem@,
            final(self).attempt == old(self).attempt + 1,
    {
        self.attempt = self.attempt + 1;
    }
}

/// The stem is the given one made safe, or one made of some time where nothing is left
/// of it.
pub open spec fn is_safe_stem(file_stem: Seq<char>, stem: Seq<char>) -> bool {
    exists|t: i64| stem == #[trigger] stem_given_time(file_stem, t as int)
}

/// The search for a name that no file has yet. Which files there are, the caller
/// finds out name by name.
pub fn ensure_unique_output_path(file_stem: &str) -> (r: OutputSearch)
    ensures
        r.attempt == 1,
        is_safe_stem(file_stem@, r.stem@),
        safe_name(file_stem@).len() > 0 ==> r.stem@ == safe_name(file_stem@),
{
    let timestamp: i64 = stamp::now_seconds();
    let r = OutputSearch::starting(file_stem, timestamp);
    assert(r.stem@ == stem_given_time(file_stem@, timestamp as int));
    r
}

/// No name is tried twice: different attempts try different names.
pub proof fn candidates_differ(stem: Seq<char>, a: nat, b: nat)
    requires
        1 <= a < b,
    ensures
        candidate_name(stem, a) != candidate_name(stem, b),
{
    reveal_strlit("-");
    reveal_strlit(".docx");
    let x = candidate_name(stem, a);
    let y = candidate_name(stem, b);
    let n = stem.len() as int;
    lemma_decimal_len(b);
    if x == y {
        if a == 1 {
            assert(x.len() == n + 5);
            assert(y.len() > n + 5);
        } else {
            assert(x.subrange(n + 1, x.len() - 5) =~= text::decimal(a));
            assert(y.subrange(n + 1, y.len() - 5) =~= text::decimal(b));
            lemma_decimal_is_unique(a, b);
        }
    }
}

/// The suggested stems are safe already, so that the names of the documents start
/// with them.
pub proof fn suggested_stems_are_safe(numbers: Seq<Seq<char>>, tokens: Seq<Seq<char>>)
    requires
        forall|i: int|
            0 <= i < numbers.len() ==> patterns::is_short_number(#[trigger] numbers[i]),
    ensures
        stem_given(numbers, tokens) matches Some(stem) ==> safe_name(stem) == stem,
{
    reveal_strlit("第");
    reveal_strlit("题");
    reveal_strlit("-");
    if numbers.len() > 0 {
        let stem = stem_given(numbers, tokens)->0;
        assert(patterns::is_short_number(numbers[0]));
        assert(patterns::is_short_number(numbers.last()));
        assert forall|i: int| 0 <= i < stem.len() implies !is_forbidden(#[trigger] stem[i]) by {
            if 0 < i <= numbers[0].len() {
                assert(stem[i] == numbers[0][i - 1]);
            }
        }
        assert(stem.map_values(|c: char| safe_char(c)) =~= stem);
        text::lemma_trim_fixed(stem);
    } else if tokens.len() > 0 {
        safe_names_are_safe(text::join(tokens, "-"@));
    }
}

/// One solved question, made of the question as the model at place `i` solved it.
pub open spec fn solved_item(i: nat, item: AiSolvedQuestionView) -> SolvedQuestionView {
    SolvedQuestionView {
        ordinal: (i + 1) as usize,
        question: item.question,
        question_zh: item.question_zh,
        answer: item.answer,
        answer_brief: brief_of(item.answer_brief, item.answer),
        explanation: item.explanation,
        sources: item.sources,
        confidence: item.confidence,
        low_confidence: item.low_confidence,
    }
}

/// The solved questions, numbered from 1.
pub open spec fn solved_items(items: Seq<AiSolvedQuestionView>) -> Seq<SolvedQuestionView> {
    Seq::new(items.len(), |i: int| solved_item(i as nat, items[i]))
}

/// The solved questions, made of those that a model gave, in their order and
/// numbered from 1.
pub fn number_answers(questions: Vec<AiSolvedQuestion>) -> (r: Vec<SolvedQuestion>)
    ensures
        text::views(r@) == solved_items(text::views(questions@)),
{
    let n: usize = questions.len();
    let ghost all = text::views(questions@);
    let mut items: Vec<SolvedQuestion> = Vec::new();
    let mut i: usize = 0;
    while i < n
        invariant
            i <= n,
            n == questions@.len(),
            all == text::views(questions@),
            items@.len() == i,
            forall|k: int| 0 <= k < i ==> (#[trigger] items@[k])@ == solved_item(k as nat, all[k]),
        decreases n - i,
    {
        let item = &questions[i];
        let answer_brief = normalize_answer_brief(item.answer_brief.as_str(), item.answer.as_str());
        items.push(
            SolvedQuestion {
                ordinal: i + 1,
                question: item.question.clone(),
                question_zh: item.question_zh.clone(),
                answer: item.answer.clone(),
                answer_brief,
                explanation: item.explanation.clone(),
                sources: models::clone_sources(&item.sources),
                confidence: item.confidence,
                low_confidence: item.low_confidence,
            },
        );
        assert(all[i as int] == item@);
        i += 1;
    }
    assert(text::views(items@) =~= solved_items(all));
    items
}

/// The preview that goes with a result: the one of the quick answers where it is
/// not blank, else one made of the solved questions.
pub fn result_preview(quick_preview: &str, items: &Vec<SolvedQuestion>) -> (r: String)
    ensures
        text::is_blank(quick_preview@) ==> r@ == text::join(
            answer_entries(text::views(items@)),
            "  "@,
        ),
        !text::is_blank(quick_preview@) ==> r@ == quick_preview@,
{
    proof {
        text::lemma_blank(quick_preview@);
    }
    if text::trimmed(quick_preview).as_str().is_empty() {
        build_answer_preview(items)
    } else {
        quick_preview.to_owned()
    }
}

/// One of the solved questions needs a human review.
pub open spec fn any_low(items: Seq<SolvedQuestionView>) -> bool {
    exists|i: int| 0 <= i < items.len() && (#[trigger] items[i]).low_confidence
}

/// Whether one of the solved questions needs a human review.
pub fn any_low_confidence(items: &Vec<SolvedQuestion>) -> (r: bool)
    ensures
        r == any_low(text::views(items@)),
{
    let ghost all = text::views(items@);
    let mut i: usize = 0;
    while i < items.len()
        invariant
            i <= items@.len(),
            all == text::views(items@),
            forall|k: int| 0 <= k < i ==> !(#[trigger] all[k]).low_confidence,
        decreases items@.len() - i,
    {
        assert(all[i as int] == items@[i as int]@);
        if items[i].low_confidence {
            return true;
        }
        i += 1;
    }
    false
}

/// The solved questions keep the order and the texts of the answers of the model,
/// and the preview made of them counts them from 1.
pub proof fn numbering_keeps_order(items: Seq<AiSolvedQuestionView>, i: int)
    requires
        0 <= i < items.len() < usize::MAX,
    ensures
        solved_items(items).len() == items.len(),
        solved_items(items)[i].ordinal == i + 1,
        solved_items(items)[i].question == items[i].question,
        solved_items(items)[i].answer == items[i].answer,
        answer_entries(solved_items(items))[i] == text::decimal((i + 1) as nat) + "."@ + brief_of(
            brief_of(items[i].answer_brief, items[i].answer),
            items[i].answer,
        ),
{
}

/// Nothing of what a model answered is lost or changed but the short answer: the `i`-th
/// solved question has the translation, the explanation, the sources and the confidence of
/// the `i`-th answer, each at its own place.
pub proof fn answers_are_kept_whole(items: Seq<AiSolvedQuestionView>, i: int)
    requires
        0 <= i < items.len(),
    ensures
        ({
            let given = items[i];
            let r = solved_items(items)[i];
            &&& solved_items(items).len() == items.len()
            &&& r.question == given.question
            &&& r.question_zh == given.question_zh
            &&& r.answer == given.answer
            &&& r.explanation == given.explanation
            &&& r.sources == given.sources
            &&& r.confidence == given.confidence
            &&& r.low_confidence == given.low_confidence
            &&& !text::is_blank(given.answer_brief) ==> r.answer_brief == text::trim(
                given.answer_brief,
            )
            &&& text::is_blank(given.answer_brief) ==> r.answer_brief == brief_of(
                Seq::empty(),
                given.answer,
            )
        }),
{
    text::lemma_blank(items[i].answer_brief);
    text::lemma_blank(Seq::empty());
}

/// One of the letters from A to D is kept, and one from a to d is put in upper case.
proof fn lemma_choice_letter(c: char)
    requires
        'A' <= c <= 'D' || 'a' <= c <= 'd',
    ensures
        c == 'A' || c == 'a' ==> text::upper_char(c) == 'A',
        c == 'B' || c == 'b' ==> text::upper_char(c) == 'B',
        c == 'C' || c == 'c' ==> text::upper_char(c) == 'C',
        c == 'D' || c == 'd' ==> text::upper_char(c) == 'D',
{
}

/// An answer without a short form that names choices is shortened to their letters, each in
/// upper case and in their order.
pub proof fn choices_are_shown_by_their_letters(
    answer_brief: Seq<char>,
    letters: Seq<char>,
    answer: Seq<char>,
    i: int,
)
    requires
        text::is_blank(answer_brief),
        patterns::is_choice_letters(letters),
        0 <= i < letters.len(),
    ensures
        ({
            let r = brief_given(answer_brief, Some(letters), answer);
            &&& r.len() == letters.len()
            &&& letters[i] == 'A' || letters[i] == 'a' ==> r[i] == 'A'
            &&& letters[i] == 'B' || letters[i] == 'b' ==> r[i] == 'B'
            &&& letters[i] == 'C' || letters[i] == 'c' ==> r[i] == 'C'
            &&& letters[i] == 'D' || letters[i] == 'd' ==> r[i] == 'D'
        }),
{
    text::lemma_blank(answer_brief);
    lemma_choice_letter(letters[i]);
}

/// An answer without a short form and without choices is shortened to its first three
/// words, whatever white space stands between its words.
pub proof fn long_answers_are_cut_to_three_words(
    answer_brief: Seq<char>,
    gaps: Seq<Seq<char>>,
    list: Seq<Seq<char>>,
    end: Seq<char>,
)
    requires
        text::is_blank(answer_brief),
        gaps.len() == list.len(),
        forall|i: int| 0 <= i < list.len() ==> text::is_word(#[trigger] list[i]),
        forall|i: int| 0 <= i < gaps.len() ==> text::is_blank(#[trigger] gaps[i]),
        forall|i: int| 1 <= i < gaps.len() ==> (#[trigger] gaps[i]).len() > 0,
        text::is_blank(end),
    ensures
        ({
            let r = brief_given(answer_brief, None, text::spaced_out(gaps, list) + end);
            &&& list.len() == 0 ==> r == Seq::<char>::empty()
            &&& list.len() == 1 ==> r == list[0]
            &&& list.len() == 2 ==> r == list[0] + seq![' '] + list[1]
            &&& list.len() >= 3 ==> r == list[0] + seq![' '] + list[1] + seq![' '] + list[2]
        }),
{
    text::lemma_blank(answer_brief);
    text::spaced_out_words_are_found(gaps, list, end);
    if list.len() >= 2 {
        let three = if list.len() <= 3 {
            list
        } else {
            list.take(3)
        };
        let two = list.take(2);
        assert(two.drop_last() =~= seq![list[0]]);
        assert(two.last() == list[1]);
        text::joining_is_by_parts(seq![list[0]], seq![list[1]], seq![' ']);
        text::joining_is_by_parts(seq![list[1]], seq![list[1]], seq![' ']);
        assert(two =~= seq![list[0]] + seq![list[1]]);
        assert(text::join(two, seq![' ']) == list[0] + seq![' '] + list[1]);
        if list.len() >= 3 {
            assert(three.drop_last() =~= two);
            assert(three.last() == list[2]);
        } else {
            assert(three =~= two);
        }
    }
}

/// The short form depends on the choices that are found in the answer only where none came
/// with it.
pub proof fn briefs_look_for_choices(answer_brief: Seq<char>, answer: Seq<char>)
    ensures
        brief_of(answer_brief, answer) == brief_given(
            answer_brief,
            patterns::first_group(patterns::CHOICE@, answer),
            answer,
        ),
        text::is_blank(answer_brief) ==> brief_of(answer_brief, answer) == brief_of(
            Seq::empty(),
            answer,
        ),
{
    text::lemma_blank(answer_brief);
    text::lemma_blank(Seq::empty());
}

/// A number behind the word for a question comes before one between the Chinese signs, and
/// that one before a number at the start; without any there is none.
pub proof fn numbers_are_looked_for_in_order(question: Seq<char>)
    ensures
        ({
            let word = patterns::first_group(patterns::NUMBER_WORD@, question);
            let signs = patterns::first_group(patterns::NUMBER_CHINESE@, question);
            let start = patterns::first_group(patterns::NUMBER_START@, question);
            &&& word is Some ==> number_of(question) == word
            &&& word is None && signs is Some ==> number_of(question) == signs
            &&& word is None && signs is None ==> number_of(question) == start
        }),
{
}

/// A further quick answer is shown behind the others, after two spaces: under the number of
/// its question, or under its place where the question has none.
pub proof fn quick_answers_are_shown_in_order(
    answers: Seq<QuickAnswerView>,
    next: QuickAnswerView,
    expected_len: nat,
)
    ensures
        ({
            let before = preview_given(quick_entries(answers), expected_len);
            let all = preview_given(quick_entries(answers.push(next)), expected_len);
            let shown = (match number_of(next.question) {
                Some(n) => n,
                None => text::decimal(answers.len() + 1),
            }) + "."@ + brief_of(next.answer_brief, next.answer_brief);
            &&& answers.len() == 0 ==> all == shown
            &&& answers.len() > 0 ==> all == before + "  "@ + shown
        }),
{
    let some = quick_entries(answers);
    let shown = preview_entry(
        number_of(next.question),
        answers.len(),
        brief_of(next.answer_brief, next.answer_brief),
    );
    assert(quick_entries(answers.push(next)) =~= some + seq![shown]);
    text::joining_is_by_parts(some, seq![shown], "  "@);
    text::joining_is_by_parts(seq![shown], some, "  "@);
    if answers.len() == 0 {
        assert(some + seq![shown] =~= seq![shown]);
    }
}

/// Where no quick answer came, each question is shown with a question mark, by its place.
pub proof fn open_questions_are_shown_in_order(count: nat)
    ensures
        preview_given(Seq::empty(), 0) == Seq::<char>::empty(),
        preview_given(Seq::empty(), 1) == "1.?"@,
        count > 0 ==> preview_given(Seq::empty(), count + 1) == preview_given(Seq::empty(), count)
            + "  "@ + text::decimal(count + 1) + ".?"@,
{
    reveal_strlit("1.?");
    reveal_strlit(".?");
    assert(open_entries(1) =~= seq![text::decimal(1) + ".?"@]);
    text::joining_is_by_parts(open_entries(1), open_entries(1), "  "@);
    text::joining_is_by_parts(open_entries(0), open_entries(0), "  "@);
    assert(text::decimal(1) + ".?"@ =~= "1.?"@);
    let last = text::decimal(count + 1) + ".?"@;
    assert(open_entries(count + 1) =~= open_entries(count) + seq![last]);
    text::joining_is_by_parts(open_entries(count), seq![last], "  "@);
    text::joining_is_by_parts(seq![last], seq![last], "  "@);
    if count > 0 {
        assert(preview_given(Seq::empty(), count + 1) =~= preview_given(Seq::empty(), count)
            + "  "@ + text::decimal(count + 1) + ".?"@);
    }
}

/// A further solved question is shown behind the others, after two spaces and under its
/// number, with its short answer.
pub proof fn solved_questions_are_shown_in_order(
    items: Seq<SolvedQuestionView>,
    next: SolvedQuestionView,
)
    ensures
        ({
            let before = text::join(answer_entries(items), "  "@);
            let all = text::join(answer_entries(items.push(next)), "  "@);
            let shown = text::decimal(next.ordinal as nat) + "."@ + brief_of(
                next.answer_brief,
                next.answer,
            );
            &&& items.len() == 0 ==> all == shown
            &&& items.len() > 0 ==> all == before + "  "@ + shown
        }),
{
    let some = answer_entries(items);
    let shown = text::decimal(next.ordinal as nat) + "."@ + brief_of(
        next.answer_brief,
        next.answer,
    );
    assert(answer_entries(items.push(next)) =~= some + seq![shown]);
    text::joining_is_by_parts(some, seq![shown], "  "@);
    text::joining_is_by_parts(seq![shown], some, "  "@);
    if items.len() == 0 {
        assert(some + seq![shown] =~= seq![shown]);
    }
}

/// Of a name without white space at its ends only the nine characters are changed that must
/// not stand in the name of a file, each to `_`.
pub proof fn only_forbidden_characters_are_replaced(name: Seq<char>, i: int)
    requires
        text::is_trimmed(name),
        0 <= i < name.len(),
    ensures
        safe_name(name).len() == name.len(),
        "/\\:*?\"<>|"@.contains(name[i]) ==> safe_name(name)[i] == '_',
        !"/\\:*?\"<>|"@.contains(name[i]) ==> safe_name(name)[i] == name[i],
{
    reveal_strlit("/\\:*?\"<>|");
    let marks = "/\\:*?\"<>|"@;
    let mapped = name.map_values(|c: char| safe_char(c));
    assert(!text::is_white(mapped[0]));
    assert(!text::is_white(mapped[mapped.len() - 1]));
    text::lemma_trim_fixed(mapped);
    assert(marks[0] == '/' && marks[1] == '\\' && marks[2] == ':' && marks[3] == '*' && marks[4]
        == '?' && marks[5] == '"' && marks[6] == '<' && marks[7] == '>' && marks[8] == '|');
    assert(is_forbidden(name[i]) <==> marks.contains(name[i]));
}

/// White space around a name is left out of the name of its file.
pub proof fn names_are_trimmed(before: Seq<char>, name: Seq<char>, behind: Seq<char>)
    requires
        text::is_blank(before),
        text::is_blank(behind),
    ensures
        safe_name(before + name + behind) == safe_name(name),
{
    let f = |c: char| safe_char(c);
    assert((before + name + behind).map_values(f) =~= before.map_values(f) + name.map_values(f)
        + behind.map_values(f));
    assert(before.map_values(f) =~= before) by {
        assert forall|i: int| 0 <= i < before.len() implies safe_char(before[i]) == before[i] by {
            assert(text::is_white(before[i]));
        }
    }
    assert(behind.map_values(f) =~= behind) by {
        assert forall|i: int| 0 <= i < behind.len() implies safe_char(behind[i]) == behind[i] by {
            assert(text::is_white(behind[i]));
        }
    }
    text::white_space_around_is_trimmed(before, name.map_values(f), behind);
}

/// The numbers that questions have are taken in their order, and questions without one give
/// none.
pub proof fn numbers_are_taken_in_order(questions: Seq<Seq<char>>, next: Seq<char>)
    ensures
        numbers_of(Seq::empty()) == Seq::<Seq<char>>::empty(),
        number_of(next) matches Some(n) ==> numbers_of(questions.push(next)) == numbers_of(
            questions,
        ).push(n),
        number_of(next) is None ==> numbers_of(questions.push(next)) == numbers_of(questions),
{
    assert(questions.push(next).drop_last() =~= questions);
}

/// A document is named by the numbers of its first and last question, by the one number of
/// its questions, or by the first words of its first question; without any it is named by
/// the time.
pub proof fn documents_are_named_by_their_questions(
    first: Seq<char>,
    between_them: Seq<Seq<char>>,
    last: Seq<char>,
    tokens: Seq<Seq<char>>,
)
    ensures
        stem_given(seq![first] + between_them + seq![last], tokens) == Some(
            "第"@ + first + "-"@ + last + "题"@,
        ),
        stem_given(seq![first], tokens) == Some("第"@ + first + "题"@),
        tokens.len() > 0 ==> stem_given(Seq::empty(), tokens) == Some(
            safe_name(text::join(tokens, "-"@)),
        ),
        stem_given(Seq::empty(), Seq::empty()) is None,
{
}

/// At most three words name a document: those that are found first in the question.
pub proof fn at_most_three_words_name_a_document(s: Seq<char>, i: int)
    requires
        0 <= i < tokens_of(s).len(),
    ensures
        ({
            let spans = patterns::match_spans(patterns::TOKEN@, s);
            &&& tokens_of(s).len() <= 3
            &&& tokens_of(s).len() <= spans.len()
            &&& tokens_of(s).len() < 3 ==> tokens_of(s).len() == spans.len()
            &&& tokens_of(s)[i] == patterns::byte_slice(s, spans[i].0 as int, spans[i].1 as int)
        }),
{
}

/// A name for a document is its stem with the ending for documents; from the second attempt
/// on the number of the attempt stands between them.
pub proof fn candidates_are_numbered(stem: Seq<char>, attempt: nat)
    ensures
        candidate_name(stem, 1) == stem + ".docx"@,
        attempt >= 2 ==> candidate_name(stem, attempt) == stem + ("-"@ + text::decimal(attempt))
            + ".docx"@,
        text::starts_with(candidate_name(stem, attempt), stem),
        text::ends_with(candidate_name(stem, attempt), ".docx"@),
{
    let r = candidate_name(stem, attempt);
    assert(r.take(stem.len() as int) =~= stem);
    assert(r.skip(r.len() - ".docx"@.len()) =~= ".docx"@);
    if attempt >= 2 {
        assert(r =~= stem + ("-"@ + text::decimal(attempt)) + ".docx"@);
    }
}

/// A number is written with its digits, behind a minus where it is below 0.
pub proof fn signs_are_written(n: nat)
    ensures
        signed_decimal(n as int) == text::decimal(n),
        n > 0 ==> signed_decimal(-(n as int)) == seq!['-'] + text::decimal(n),
        dated_name(n as int) == "questions-"@ + text::decimal(n),
{
    reveal_strlit("-");
    assert("-"@ =~= seq!['-']);
}

/// The questions name their document where they can: by their numbers, else by the words of
/// the first of them; only where they cannot, the time does.
pub proof fn the_time_names_a_document_last(
    first: Seq<char>,
    others: Seq<Seq<char>>,
    stem: Seq<char>,
    t: i64,
)
    ensures
        ({
            let questions = seq![first] + others;
            let numbers = numbers_of(questions);
            &&& stem_of(questions) == stem_given(numbers, tokens_of(first))
            &&& stem_of(Seq::empty()) is None
            &&& numbers.len() > 0 || tokens_of(first).len() > 0 ==> (is_stem_for(questions, stem)
                <==> stem_of(questions) == Some(stem))
            &&& numbers.len() == 0 && tokens_of(first).len() == 0 ==> is_stem_for(
                questions,
                "questions-"@ + signed_decimal(t as int),
            )
        }),
{
    let questions = seq![first] + others;
    assert(questions[0] == first);
    assert(dated_name(t as int) == "questions-"@ + signed_decimal(t as int));
}

/// A name of which something is left when it is made safe is kept so; else the time names
/// the document.
pub proof fn empty_names_are_replaced(file_stem: Seq<char>, timestamp: int)
    ensures
        safe_name(file_stem).len() > 0 ==> stem_given_time(file_stem, timestamp) == safe_name(
            file_stem,
        ),
        text::is_blank(file_stem) ==> stem_given_time(file_stem, timestamp) == "questions-"@
            + signed_decimal(timestamp),
{
    let none = Seq::<char>::empty();
    if text::is_blank(file_stem) {
        names_are_trimmed(file_stem, none, none);
        assert(file_stem + none + none =~= file_stem);
        assert(none.map_values(|c: char| safe_char(c)) =~= none);
        text::lemma_blank(none);
    }
}

/// The texts of the questions are those of the items, in their order.
pub proof fn question_texts_are_those_of_the_items(items: Seq<SolvedQuestionView>, i: int)
    requires
        0 <= i < items.len(),
    ensures
        question_texts(items).len() == items.len(),
        question_texts(items)[i] == items[i].question,
{
}

} // verus!
