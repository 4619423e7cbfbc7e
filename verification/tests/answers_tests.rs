use flnder::ai::QuickAnswer;
use flnder::answers::{
    any_low_confidence, brief_from, build_answer_preview, build_quick_preview, dated_stem,
    ensure_unique_output_path, extract_question_number, named_stem, normalize_answer_brief,
    number_answers, number_from, preview_from, preview_line, result_preview, sanitize_file_name,
    signed_decimal_text, suggest_file_stem, OutputSearch,
};
use flnder::models::{AiSolvedQuestion, Score, SolveSource, SolvedQuestion};

fn owned(parts: &[&str]) -> Vec<String> {
    parts.iter().map(|p| p.to_string()).collect()
}

fn quick(question: &str, brief: &str) -> QuickAnswer {
    QuickAnswer { question: question.to_string(), answer_brief: brief.to_string() }
}

fn solved(ordinal: usize, question: &str, brief: &str, answer: &str) -> SolvedQuestion {
    SolvedQuestion {
        ordinal,
        question: question.to_string(),
        question_zh: String::new(),
        answer: answer.to_string(),
        answer_brief: brief.to_string(),
        explanation: String::new(),
        sources: vec![],
        confidence: Score { bits: 0 },
        low_confidence: false,
    }
}

#[test]
fn a_short_answer_is_trimmed() {
    assert_eq!(normalize_answer_brief("  B ", "The answer is C"), "B");
}

#[test]
fn without_a_short_answer_the_choice_is_taken() {
    assert_eq!(normalize_answer_brief(" ", "the answer is bc, surely"), "BC");
    assert_eq!(normalize_answer_brief("", "(d)"), "D");
}

#[test]
fn without_a_choice_the_first_words_are_taken() {
    assert_eq!(normalize_answer_brief("", "forty  two\nis right"), "forty two is");
    assert_eq!(normalize_answer_brief("", ""), "");
}

#[test]
fn a_short_answer_follows_from_what_was_found() {
    assert_eq!(brief_from(" x ", Some("a".to_string()), "y"), "x");
    assert_eq!(brief_from("", Some("aB".to_string()), "y"), "AB");
    assert_eq!(brief_from("", None, "one two three four"), "one two three");
}

#[test]
fn normalizing_a_short_answer_twice_changes_nothing() {
    let once = normalize_answer_brief(" BC ", "x");
    assert_eq!(normalize_answer_brief(&once, "x"), once);
}

#[test]
fn question_numbers_are_found() {
    assert_eq!(extract_question_number("Question 12: what"), Some("12".to_string()));
    assert_eq!(extract_question_number("see q7 now"), Some("7".to_string()));
    assert_eq!(extract_question_number("第 3 题 求解"), Some("3".to_string()));
    assert_eq!(extract_question_number(" 45) x"), Some("45".to_string()));
    assert_eq!(extract_question_number("1. see Q2"), Some("2".to_string()));
    assert_eq!(extract_question_number("none"), None);
    assert_eq!(extract_question_number("1234. too long"), None);
}

#[test]
fn the_first_number_counts() {
    let s = |x: &str| Some(x.to_string());
    assert_eq!(number_from(s("1"), s("2"), s("3")), s("1"));
    assert_eq!(number_from(None, s("2"), s("3")), s("2"));
    assert_eq!(number_from(None, None, s("3")), s("3"));
    assert_eq!(number_from(None, None, None), None);
}

#[test]
fn quick_previews_show_number_and_answer() {
    let answers = vec![quick("Q5 what", "A"), quick("no number", " 42 "), quick("x", "")];
    assert_eq!(build_quick_preview(&answers, 3), "5.A  2.42  3.");
}

#[test]
fn without_answers_the_questions_stay_open() {
    assert_eq!(build_quick_preview(&[], 3), "1.?  2.?  3.?");
    assert_eq!(build_quick_preview(&[], 0), "");
}

#[test]
fn preview_lines_and_previews_follow_their_parts() {
    assert_eq!(preview_line(Some("9".to_string()), 0, "B"), "9.B");
    assert_eq!(preview_line(None, 0, "B"), "1.B");
    assert_eq!(preview_from(owned(&["1.A", "2.B"]), 7), "1.A  2.B");
    assert_eq!(preview_from(vec![], 2), "1.?  2.?");
}

#[test]
fn answer_previews_count_by_ordinal() {
    let items = vec![solved(1, "q", " A ", "x"), solved(2, "q", "", "long answer text here")];
    assert_eq!(build_answer_preview(&items), "1.A  2.long answer text");
    assert_eq!(build_answer_preview(&vec![]), "");
}

#[test]
fn file_names_are_made_safe() {
    assert_eq!(sanitize_file_name(" a/b\\c:d*e?f\"g<h>i|j "), "a_b_c_d_e_f_g_h_i_j");
    assert_eq!(sanitize_file_name("第1题"), "第1题");
    assert_eq!(sanitize_file_name("  "), "");
    let once = sanitize_file_name(" ? x ");
    assert_eq!(sanitize_file_name(&once), once);
}

#[test]
fn file_stems_are_made_of_numbers() {
    let items = vec![solved(1, "Q3 a", "", ""), solved(2, "b", "", ""), solved(3, "Q9 c", "", "")];
    assert_eq!(suggest_file_stem(&items), "第3-9题");
    assert_eq!(suggest_file_stem(&vec![solved(1, "第 4 题", "", "")]), "第4题");
}

#[test]
fn file_stems_are_made_of_words() {
    assert_eq!(
        suggest_file_stem(&vec![solved(1, "What, is: the matter", "", "")]),
        "What-is-the"
    );
    assert_eq!(suggest_file_stem(&vec![solved(1, "求 x²!", "", "")]), "求-x²");
}

#[test]
fn file_stems_are_made_of_the_time_at_last() {
    for items in [vec![], vec![solved(1, "?!", "", "")]] {
        let stem = suggest_file_stem(&items);
        let digits = stem.strip_prefix("questions-").unwrap();
        assert!(digits.parse::<i64>().unwrap() > 1_600_000_000);
    }
}

#[test]
fn stems_follow_from_what_was_found() {
    assert_eq!(named_stem(&owned(&["1", "5", "7"]), &owned(&["x"])), Some("第1-7题".to_string()));
    assert_eq!(named_stem(&owned(&["2"]), &vec![]), Some("第2题".to_string()));
    assert_eq!(named_stem(&vec![], &owned(&["a", "b"])), Some("a-b".to_string()));
    assert_eq!(named_stem(&vec![], &vec![]), None);
    assert_eq!(dated_stem(17), "questions-17");
    assert_eq!(dated_stem(-5), "questions--5");
}

#[test]
fn signed_numbers_are_written_in_decimal() {
    for n in [0i64, -1, 42, i64::MAX, i64::MIN] {
        assert_eq!(signed_decimal_text(n), n.to_string());
    }
}

#[test]
fn names_are_tried_one_by_one() {
    let mut search = ensure_unique_output_path(" a:b ");
    assert_eq!(search.candidate(), "a_b.docx");
    search.taken();
    assert_eq!(search.candidate(), "a_b-2.docx");
    search.taken();
    assert_eq!(search.candidate(), "a_b-3.docx");
}

#[test]
fn a_blank_stem_becomes_a_time() {
    assert_eq!(OutputSearch::starting("  ", 99).candidate(), "questions-99.docx");
    assert_eq!(OutputSearch::starting("x", 99).candidate(), "x.docx");
    assert!(ensure_unique_output_path(" ").candidate().starts_with("questions-"));
}

#[test]
fn suggested_stems_are_kept() {
    for stem in ["第3-9题", "第4题", "What-is-the"] {
        assert_eq!(OutputSearch::starting(stem, 0).candidate(), format!("{}.docx", stem));
    }
}

#[test]
fn answers_are_numbered_in_their_order() {
    let ai = |q: &str, brief: &str, answer: &str| AiSolvedQuestion {
        question: q.to_string(),
        question_zh: "z".to_string(),
        answer: answer.to_string(),
        answer_brief: brief.to_string(),
        explanation: "e".to_string(),
        confidence: Score { bits: 7 },
        low_confidence: true,
        sources: vec![SolveSource { title: "t".to_string(), excerpt: "x".to_string() }],
    };
    let items = number_answers(vec![ai("q1", "", "b"), ai("q2", " C ", "")]);
    assert_eq!(items.len(), 2);
    assert_eq!(items[0].ordinal, 1);
    assert_eq!(items[0].question, "q1");
    assert_eq!(items[0].answer_brief, "B");
    assert_eq!(items[0].answer, "b");
    assert_eq!(items[0].sources[0].title, "t");
    assert_eq!(items[1].ordinal, 2);
    assert_eq!(items[1].answer_brief, "C");
    assert_eq!(items[1].confidence.bits, 7);
    assert!(any_low_confidence(&items));
    assert!(!any_low_confidence(&vec![solved(1, "", "", "")]));
    assert!(!any_low_confidence(&vec![]));
}

#[test]
fn the_quick_preview_is_kept() {
    let items = vec![solved(1, "q", "A", "x")];
    assert_eq!(result_preview("1.B", &items), "1.B");
    assert_eq!(result_preview(" \n", &items), "1.A");
}
