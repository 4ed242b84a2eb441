use std::path::PathBuf;

use behat_lsp::completion::{
    completion_item, completion_list, step_kind_to_completion_kind, CompletionEdit, CompletionKind,
};
use behat_lsp::document::{Position, Range};
use behat_lsp::steps::{format_step_detail, step_kind_keyword, step_origin, StepDef, StepKind};

fn step(kind: StepKind, text: &str, class: Option<&str>) -> StepDef {
    StepDef {
        text: text.to_string(),
        source: PathBuf::from("/p/Web.php"),
        class: class.map(|name| name.to_string()),
        kind,
    }
}

fn range() -> Range {
    Range {
        start: Position { line: 3, character: 4 },
        end: Position { line: 3, character: 9 },
    }
}

#[test]
fn kinds_have_their_words_and_signs() {
    let all = [
        (StepKind::Given, "Given", CompletionKind::Event),
        (StepKind::When, "When", CompletionKind::Function),
        (StepKind::Then, "Then", CompletionKind::Keyword),
        (StepKind::And, "And", CompletionKind::Field),
        (StepKind::But, "But", CompletionKind::Field),
        (StepKind::Other, "Given", CompletionKind::Text),
    ];
    for (kind, word, sign) in all {
        assert_eq!(step_kind_keyword(kind), word);
        assert_eq!(step_kind_to_completion_kind(kind), sign);
    }
}

#[test]
fn the_origin_of_a_step_is_shown() {
    assert_eq!(format_step_detail(&step(StepKind::Given, "x", Some("A\\B"))), "A\\B (/p/Web.php)");
    assert_eq!(format_step_detail(&step(StepKind::Given, "x", None)), "/p/Web.php");
    assert_eq!(step_origin(&Some("C".to_string()), "f".to_string()), "C (f)");
}

#[test]
fn a_step_replaces_the_word_before_the_cursor() {
    let item = completion_item(&step(StepKind::When, "/I pay :sum/", Some("A")), Some(range()));
    assert_eq!(item.label, "When I pay <sum>");
    assert_eq!(item.kind, CompletionKind::Function);
    assert_eq!(item.detail, "A (/p/Web.php)");
    assert!(item.is_snippet);
    match item.edit {
        CompletionEdit::Replace { range: at, new_text } => {
            assert_eq!(at, range());
            assert_eq!(new_text, "When I pay ${1:sum}");
        }
        CompletionEdit::Insert { .. } => panic!("inserted"),
    }
}

#[test]
fn without_a_word_a_step_is_inserted() {
    let item = completion_item(&step(StepKind::But, "x", None), None);
    assert!(matches!(item.edit, CompletionEdit::Insert { new_text } if new_text == "But x"));
}

#[test]
fn there_is_one_completion_for_each_step() {
    let steps = vec![step(StepKind::Given, "a", None), step(StepKind::Then, "b", None)];
    let list = completion_list(&steps, Some(range()));
    assert!(list.is_incomplete);
    let labels: Vec<&str> = list.items.iter().map(|item| item.label.as_str()).collect();
    assert_eq!(labels, vec!["Given a", "Then b"]);
    assert!(completion_list(&Vec::new(), None).items.is_empty());
}
