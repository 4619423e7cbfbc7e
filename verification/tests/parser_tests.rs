use flnder::parser::{chunk_text, normalize_text};

#[test]
fn paragraphs_that_fit_share_a_chunk() {
    assert_eq!(chunk_text("aaa\n\nbbb\n\nccc", 100, 10), vec!["aaa\n\nbbb\n\nccc".to_string()]);
}

#[test]
fn a_new_chunk_starts_with_the_end_of_the_last_one() {
    assert_eq!(
        chunk_text("aaaa\n\nbbbb\n\ncccc", 10, 2),
        vec!["aaaa\n\nbbbb".to_string(), "bb\n\ncccc".to_string()]
    );
    assert_eq!(
        chunk_text("aaaa\n\nbbbb", 4, 0),
        vec!["aaaa".to_string(), "bbbb".to_string()]
    );
}

#[test]
fn blank_text_has_no_chunk() {
    assert!(chunk_text("", 10, 2).is_empty());
    assert!(chunk_text(" \n\n \n\n", 10, 2).is_empty());
}

#[test]
fn every_paragraph_stands_in_a_chunk() {
    let text = "first one\n\nsecond one, longer\n\nthird\n\n第四段";
    let chunks = chunk_text(text, 20, 5);
    for par in ["first one", "second one, longer", "third", "第四段"] {
        assert!(chunks.iter().any(|c| c.contains(par)));
    }
    for c in &chunks {
        assert_eq!(c.trim(), c);
        assert!(!c.is_empty());
    }
}

#[test]
fn a_long_paragraph_is_not_cut() {
    assert_eq!(chunk_text("abcdefghij", 3, 1), vec!["abcdefghij".to_string()]);
}

#[test]
fn text_is_tidied() {
    assert_eq!(normalize_text("  a \t b\r\n\r\n\r\n\r\nc  "), "a b\n\nc");
    assert_eq!(normalize_text("a\n\nb"), "a\n\nb");
    assert_eq!(normalize_text("\n\n"), "");
    assert_eq!(normalize_text("a\n \n\nb"), "a\n \n\nb");
}

#[test]
fn tidying_twice_is_tidying_once() {
    for s in ["a  b\n\n\n\nc", " x ", ""] {
        assert_eq!(normalize_text(&normalize_text(s)), normalize_text(s));
    }
    assert_ne!(normalize_text(&normalize_text("a\r\r\nb")), normalize_text("a\r\r\nb"));
}

#[test]
fn chunks_keep_to_their_bounds() {
    let text = "aaaaa\n\nbbbbb\n\nccccc\n\nddddd";
    for c in chunk_text(text, 12, 3) {
        assert!(c.len() <= 12);
    }
}

#[test]
fn joined_paragraphs_have_the_same_chunks() {
    let text = " aaaa \n\n\n\nbbbb\nb\n\n\n cccc";
    let joined = "aaaa\n\nbbbb\nb\n\ncccc";
    assert_eq!(chunk_text(text, 10, 2), chunk_text(joined, 10, 2));
}

#[test]
fn line_ends_are_stored_alike() {
    let text = "a\n\nb c\n\n\n\nd\r";
    assert_eq!(normalize_text(&text.replace('\n', "\r\n")), normalize_text(text));
    assert_ne!(normalize_text(&"a\r\nb".replace('\n', "\r\n")), normalize_text("a\r\nb"));
}
