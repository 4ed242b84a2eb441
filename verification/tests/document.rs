use behat_lsp::document::{word_replace_range, OpenDocuments, Position, Range};

fn at(line: u32, character: u32) -> Position {
    Position { line, character }
}

fn word(line: u32, from: u32, to: u32) -> Option<Range> {
    Some(Range { start: at(line, from), end: at(line, to) })
}

#[test]
fn the_word_before_the_position_is_found() {
    let text = "Feature: x\n  Given foo bar\n\n\tWhen";
    assert_eq!(word_replace_range(text, at(1, 11)), word(1, 8, 11));
    assert_eq!(word_replace_range(text, at(1, 9)), word(1, 8, 9));
    assert_eq!(word_replace_range(text, at(1, 8)), word(1, 8, 8));
    assert_eq!(word_replace_range(text, at(1, 15)), word(1, 12, 15));
    assert_eq!(word_replace_range(text, at(0, 7)), word(0, 0, 7));
    assert_eq!(word_replace_range(text, at(2, 0)), word(2, 0, 0));
    assert_eq!(word_replace_range(text, at(3, 5)), word(3, 1, 5));
}

#[test]
fn there_is_no_word_outside_the_text() {
    assert_eq!(word_replace_range("ab\ncd", at(0, 3)), None);
    assert_eq!(word_replace_range("ab\ncd", at(2, 0)), None);
    assert_eq!(word_replace_range("", at(0, 0)), word(0, 0, 0));
    assert_eq!(word_replace_range("", at(0, 1)), None);
    assert_eq!(word_replace_range("ab\n", at(1, 0)), word(1, 0, 0));
    assert_eq!(word_replace_range("ab", at(u32::MAX, 0)), None);
    assert_eq!(word_replace_range("ab", at(0, u32::MAX)), None);
}

#[test]
fn positions_count_bytes() {
    assert_eq!(word_replace_range("é x", at(0, 3)), word(0, 3, 3));
    assert_eq!(word_replace_range("é x", at(0, 4)), word(0, 3, 4));
    assert_eq!(word_replace_range("é x", at(0, 2)), word(0, 0, 2));
    assert_eq!(word_replace_range("é x", at(0, 5)), None);
}

#[test]
fn ascii_white_space_ends_a_word() {
    for space in [' ', '\t', '\u{c}', '\r'] {
        let text = format!("a{space}bc");
        assert_eq!(word_replace_range(text.as_str(), at(0, 4)), word(0, 2, 4));
    }
    assert_eq!(word_replace_range("a\u{b}bc", at(0, 4)), word(0, 0, 4));
    assert_eq!(word_replace_range("a\u{a0}b", at(0, 4)), word(0, 0, 4));
    assert_eq!(word_replace_range("ab\r\n", at(0, 3)), word(0, 3, 3));
}

#[test]
fn a_document_is_known_once_it_is_open() {
    let mut documents = OpenDocuments::new();
    assert_eq!(documents.replace_range("file:///a", at(0, 0)), None);
    documents.did_open("file:///a".to_string(), "one two".to_string());
    assert_eq!(documents.replace_range("file:///a", at(0, 7)), word(0, 4, 7));
    assert_eq!(documents.replace_range("file:///b", at(0, 0)), None);
}

#[test]
fn a_document_goes_by_its_last_text() {
    let mut documents = OpenDocuments::new();
    documents.did_open("a".to_string(), "one two".to_string());
    documents.did_open("a".to_string(), "three".to_string());
    assert_eq!(documents.replace_range("a", at(0, 5)), word(0, 0, 5));
    documents.did_change("a".to_string(), &vec!["x yz".to_string(), "other".to_string()]);
    assert_eq!(documents.replace_range("a", at(0, 4)), word(0, 2, 4));
    assert_eq!(documents.replace_range("a", at(0, 5)), None);
    documents.did_change("a".to_string(), &Vec::new());
    assert_eq!(documents.replace_range("a", at(0, 4)), word(0, 2, 4));
}

#[test]
fn a_change_leaves_the_other_documents_alone() {
    let mut documents = OpenDocuments::new();
    documents.did_open("a".to_string(), "one two".to_string());
    documents.did_change("b".to_string(), &vec!["zzz".to_string()]);
    assert_eq!(documents.replace_range("a", at(0, 7)), word(0, 4, 7));
    assert_eq!(documents.replace_range("b", at(0, 3)), word(0, 0, 3));
}

#[test]
fn each_line_has_its_own_length() {
    let text = "one\n\ntwo and\r\nend\n";
    for (n, line) in text.split('\n').enumerate() {
        let last = line.len() as u32;
        assert!(word_replace_range(text, at(n as u32, last)).is_some());
        assert!(word_replace_range(text, at(n as u32, last + 1)).is_none());
    }
}
