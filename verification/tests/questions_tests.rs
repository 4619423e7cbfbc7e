use flnder::questions::{
    is_choice_option_only, looks_like_single_choice_question, split_by_markers, split_given,
    split_questions,
};

fn owned(parts: &[&str]) -> Vec<String> {
    parts.iter().map(|p| p.to_string()).collect()
}

#[test]
fn numbered_questions_are_cut_at_their_numbers() {
    assert_eq!(
        split_questions("intro\n1. What is A?\nmore\n2) What is B?\n"),
        owned(&["1. What is A?\nmore", "2) What is B?"])
    );
    assert_eq!(
        split_questions("Question 1 foo\r\nQ2 bar\r\n第 3 题 baz"),
        owned(&["Question 1 foo", "Q2 bar", "第 3 题 baz"])
    );
}

#[test]
fn a_question_with_choices_stays_whole() {
    let text = "What is it?\n\nA. one\nB. two\n\nC. three";
    assert_eq!(split_questions(text), owned(&[text]));
    assert!(looks_like_single_choice_question(text));
    assert!(!looks_like_single_choice_question("A. one"));
    assert!(!looks_like_single_choice_question("1. a\nA. x\nB. y\n2. b"));
    assert!(looks_like_single_choice_question("1. a\nA. x\nB. y"));
}

#[test]
fn segments_between_blank_lines_are_questions() {
    assert_eq!(split_questions("first\n\nsecond\n\n\n"), owned(&["first", "second"]));
}

#[test]
fn segments_that_are_choices_are_not() {
    assert_eq!(split_questions("What?\n\nA. yes"), owned(&["What?\n\nA. yes"]));
    assert_eq!(split_questions("① a\n\n② b"), owned(&["① a\n\n② b"]));
}

#[test]
fn other_text_is_one_question() {
    assert_eq!(split_questions("  only one  "), owned(&["only one"]));
    assert_eq!(split_questions(""), owned(&[""]));
}

#[test]
fn no_question_is_blank_unless_the_text_is() {
    for text in ["x", "1. a\n2. b", "a\n\nb\n\nc", "A. x\nB. y", " \n 第1题\n第2题 "] {
        let parts = split_questions(text);
        assert!(!parts.is_empty());
        assert!(parts.iter().all(|p| !p.is_empty() && p.trim() == p));
    }
}

#[test]
fn as_many_questions_as_numbers() {
    assert_eq!(split_questions("1.\n2.\n3.").len(), 3);
}

#[test]
fn choices_are_recognised() {
    assert!(is_choice_option_only("A. one\n\n B) two"));
    assert!(!is_choice_option_only("A. one\nother"));
    assert!(!is_choice_option_only(" \n"));
    assert!(!is_choice_option_only("E. five"));
}

#[test]
fn parts_start_at_their_markers() {
    assert_eq!(split_by_markers("题 a题 b", &vec![0, 5]), owned(&["题 a", "题 b"]));
    assert_eq!(split_by_markers("xyz", &vec![1]), owned(&["yz"]));
    assert_eq!(split_by_markers("x   ", &vec![0, 1]), owned(&["x"]));
    assert!(split_by_markers("xyz", &vec![]).is_empty());
}

#[test]
fn findings_decide_how_a_text_is_cut() {
    let text = "a\n\nb";
    let segs = owned(&["a", "b"]);
    assert_eq!(split_given(text, &vec![0, 3], 0, segs.clone(), 0, false), owned(&["a", "b"]));
    assert_eq!(split_given(text, &vec![], 2, segs.clone(), 0, false), owned(&["a\n\nb"]));
    assert_eq!(split_given(text, &vec![], 0, segs.clone(), 1, false), owned(&["a", "b"]));
    assert_eq!(split_given(text, &vec![], 0, segs.clone(), 2, false), owned(&["a\n\nb"]));
    assert_eq!(split_given(text, &vec![], 0, segs, 0, true), owned(&["a\n\nb"]));
    assert!(split_given("  ", &vec![], 2, vec![], 0, true).is_empty());
}

#[test]
fn nothing_behind_the_first_marker_is_lost() {
    let text = "intro 1.one 2.two";
    let parts = split_by_markers(text, &vec![6, 12]);
    assert_eq!(parts, owned(&["1.one", "2.two"]));
    assert_eq!(parts.join(" "), &text[6..]);
}

#[test]
fn a_blank_text_has_one_empty_question() {
    for text in ["", " ", "\n\n \n\n", "\r\n"] {
        assert_eq!(split_questions(text), owned(&[""]));
    }
}
