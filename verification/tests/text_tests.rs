use flnder::text::{
    ascii_lower, ascii_upper, byte_len, decimal_text, find_from, first_words, is_whitespace,
    join_strings, replace_all, same_text, split_non_blank, trimmed,
};

fn owned(parts: &[&str]) -> Vec<String> {
    parts.iter().map(|p| p.to_string()).collect()
}

#[test]
fn white_space_is_that_of_std() {
    for n in 0..=0x10ffffu32 {
        if let Some(c) = char::from_u32(n) {
            assert_eq!(is_whitespace(c), c.is_whitespace(), "{:x}", n);
        }
    }
}

#[test]
fn trimming_takes_white_space_off_both_ends() {
    for s in ["", " ", "a", " a b ", "\u{3000}题\n", "\t\r\n x", "x\u{a0}"] {
        assert_eq!(trimmed(s), s.trim());
    }
}

#[test]
fn trimming_twice_is_trimming_once() {
    for s in ["  a  ", "\n", "x"] {
        assert_eq!(trimmed(&trimmed(s)), trimmed(s));
    }
}

#[test]
fn replacing_goes_from_the_left() {
    assert_eq!(replace_all("aaa", "aa", "b"), "ba");
    assert_eq!(replace_all("a\r\nb\r\n", "\r\n", "\n"), "a\nb\n");
    assert_eq!(replace_all("x", "y", "z"), "x");
    assert_eq!(replace_all("", "y", "z"), "");
}

#[test]
fn joining_puts_the_separator_between() {
    assert_eq!(join_strings(&owned(&[]), ","), "");
    assert_eq!(join_strings(&owned(&["a"]), ","), "a");
    assert_eq!(join_strings(&owned(&["a", "", "c"]), ", "), "a, , c");
}

#[test]
fn splitting_leaves_blank_pieces_out() {
    assert_eq!(split_non_blank(" a \n\n\n\n b\n\n", "\n\n"), owned(&["a", "b"]));
    assert!(split_non_blank("  ", "\n\n").is_empty());
}

#[test]
fn numbers_are_written_in_decimal() {
    for n in [0u64, 7, 10, 99, 100, 12345, u64::MAX] {
        assert_eq!(decimal_text(n), n.to_string());
    }
}

#[test]
fn first_words_are_joined_by_single_spaces() {
    assert_eq!(first_words("  one \n two\tthree four", 3), "one two three");
    assert_eq!(first_words("one", 3), "one");
    assert_eq!(first_words(" \n", 3), "");
    assert_eq!(first_words("one two", 0), "");
}

#[test]
fn letters_change_their_case_in_ascii() {
    assert_eq!(ascii_lower("PdF É"), "pdf É");
    assert_eq!(ascii_upper("abÉé1"), "ABÉé1");
}

#[test]
fn texts_are_compared_and_measured() {
    assert!(same_text("题1", "题1"));
    assert!(!same_text("题1", "题"));
    assert!(!same_text("a", "b"));
    assert!(same_text("", ""));
    assert_eq!(byte_len("题1"), 4);
}

#[test]
fn searching_finds_the_first_place() {
    let c: Vec<char> = "abcabc".chars().collect();
    let bc = ['b', 'c'];
    assert_eq!(find_from(&c, &bc, 0), Some(1));
    assert_eq!(find_from(&c, &bc, 2), Some(4));
    assert_eq!(find_from(&c, &bc, 5), None);
    assert_eq!(find_from(&c, &[], 6), Some(6));
}
