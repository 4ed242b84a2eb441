use std::path::PathBuf;

use behat_lsp::completion::CompletionEdit;
use behat_lsp::document::{Position, Range};
use behat_lsp::progress::{context_events, step_events, ProgressCounter, ProgressEvent};
use behat_lsp::psr4::IndexError;
use behat_lsp::server::{
    capabilities, choose_root, end_completion, end_rebuild, greeting, react_to_watcher,
    report_progress, requested_root, watcher_failed, BuildOutcome, ClientAction, LogLevel, Session,
    WatchReaction,
};
use behat_lsp::steps::{StepDef, StepKind};
use behat_lsp::watch::{WatchEvent, WatchKind};
use tower_lsp::lsp_types::Url;

fn step(text: &str) -> StepDef {
    StepDef {
        text: text.to_string(),
        source: PathBuf::from("/p/a.php"),
        class: None,
        kind: StepKind::Given,
    }
}

fn position(line: u32, character: u32) -> Position {
    Position { line, character }
}

fn labels(session: &Session) -> Vec<String> {
    let list = session.completion("none", position(0, 0));
    list.items.iter().map(|item| item.label.clone()).collect()
}

fn is_log(action: &ClientAction, wanted: LogLevel, line: &str) -> bool {
    matches!(action, ClientAction::Log { level, text } if *level == wanted && text == line)
}

fn is_end(action: &ClientAction, number: i32, line: &str) -> bool {
    matches!(action, ClientAction::End { token, message } if *token == number && message == line)
}

#[test]
fn work_starts_with_a_token_and_a_title() {
    let mut session = Session::new();
    let (token, actions) = session.begin_rebuild();
    assert_eq!(token, 1);
    assert_eq!(actions.len(), 2);
    assert!(matches!(&actions[0], ClientAction::CreateProgress { token: 1 }));
    assert!(matches!(&actions[1], ClientAction::Begin { token: 1, title, message }
        if title == "Behat index" && message == "Parsing contexts and steps"));
    let (token, actions) = session.begin_completion();
    assert_eq!(token, 2);
    assert!(matches!(&actions[0], ClientAction::CreateProgress { token: 2 }));
    assert!(matches!(&actions[1], ClientAction::Begin { token: 2, title, message }
        if title == "Behat completions" && message == "Preparing completions"));
}

#[test]
fn tokens_differ() {
    let mut session = Session::new();
    let mut last = 0;
    for _ in 0..100 {
        let (token, _) = session.begin_completion();
        assert_eq!(token, last + 1);
        last = token;
    }
}

#[test]
fn a_session_starts_in_the_current_directory() {
    let mut session = Session::new();
    assert_eq!(session.root(), &PathBuf::from("."));
    session.set_root(PathBuf::from("/p"));
    assert_eq!(session.root(), &PathBuf::from("/p"));
}

#[test]
fn the_steps_of_an_index_are_offered() {
    let mut session = Session::new();
    assert!(labels(&session).is_empty());
    session.install(BuildOutcome::Built(vec![step("a"), step("b")]));
    assert_eq!(labels(&session), vec!["Given a", "Given b"]);
    session.install(BuildOutcome::Built(vec![step("c")]));
    assert_eq!(labels(&session), vec!["Given c"]);
}

#[test]
fn without_a_new_index_the_old_steps_stay() {
    let mut session = Session::new();
    session.install(BuildOutcome::Built(vec![step("a")]));
    session.install(BuildOutcome::Failed(IndexError::Unreadable(PathBuf::from("x"))));
    assert_eq!(labels(&session), vec!["Given a"]);
    session.install(BuildOutcome::Aborted("panic".to_string()));
    assert_eq!(labels(&session), vec!["Given a"]);
}

#[test]
fn completions_replace_the_word_in_an_open_document() {
    let mut session = Session::new();
    session.install(BuildOutcome::Built(vec![step("a :b")]));
    session.did_open("u".to_string(), "x\n  Giv".to_string());
    let list = session.completion("u", position(1, 5));
    assert!(list.is_incomplete);
    match &list.items[0].edit {
        CompletionEdit::Replace { range, new_text } => {
            assert_eq!(*range, Range { start: position(1, 2), end: position(1, 5) });
            assert_eq!(new_text, "Given a ${1:b}");
        }
        CompletionEdit::Insert { .. } => panic!("inserted"),
    }
    session.did_change("u".to_string(), &vec!["x".to_string()]);
    let list = session.completion("u", position(1, 5));
    assert!(matches!(&list.items[0].edit, CompletionEdit::Insert { new_text } if new_text == "Given a ${1:b}"));
}

#[test]
fn the_place_only_sets_the_range() {
    let mut session = Session::new();
    session.install(BuildOutcome::Built(vec![step("a"), step("b")]));
    session.did_open("u".to_string(), "word".to_string());
    let here = session.completion("u", position(0, 4));
    let there = session.completion("v", position(9, 9));
    assert_eq!(here.items.len(), there.items.len());
    for i in 0..2 {
        assert_eq!(here.items[i].label, there.items[i].label);
        assert_eq!(here.items[i].detail, there.items[i].detail);
    }
}

#[test]
fn the_end_of_a_build_is_told() {
    let actions = end_rebuild(5, &BuildOutcome::Built(vec![step("a"), step("b")]));
    assert_eq!(actions.len(), 1);
    assert!(is_end(&actions[0], 5, "Index built (2 steps)"));
    let failed = BuildOutcome::Failed(IndexError::Unparsable(PathBuf::from("/p/composer.json")));
    let actions = end_rebuild(6, &failed);
    assert_eq!(actions.len(), 2);
    assert!(is_log(&actions[0], LogLevel::Error, "Index build failed: parse /p/composer.json"));
    assert!(is_end(&actions[1], 6, "Index build failed"));
    let actions = end_rebuild(-7, &BuildOutcome::Aborted("cancelled".to_string()));
    assert_eq!(actions.len(), 2);
    assert!(is_log(&actions[0], LogLevel::Error, "Index build task failed: cancelled"));
    assert!(is_end(&actions[1], -7, "Index build failed"));
}

#[test]
fn the_end_of_a_completion_is_told() {
    let actions = end_completion(3, 12);
    assert_eq!(actions.len(), 2);
    assert!(is_log(&actions[0], LogLevel::Info, "behat-lsp: completions ready (12)"));
    assert!(is_end(&actions[1], 3, "12 completion(s)"));
}

#[test]
fn progress_is_counted() {
    let mut counter = ProgressCounter::new();
    assert_eq!(counter.message(), "contexts 0, steps 0");
    counter.count(ProgressEvent::StepParsed);
    assert_eq!(counter.message(), "contexts 0, steps 1");
    counter.count(ProgressEvent::ContextParsed { total: 3 });
    assert_eq!(counter.message(), "contexts 1/3, steps 1");
    let report = report_progress(4, &counter);
    assert!(matches!(report, ClientAction::Report { token: 4, message } if message == "contexts 1/3, steps 1"));
}

#[test]
fn in_the_end_all_is_counted() {
    let mut counter = ProgressCounter::new();
    let mut events = context_events(2);
    events.extend(step_events(11));
    for event in events {
        assert!(counter.can_count(event));
        counter.count(event);
    }
    assert_eq!(counter.message(), "contexts 2/2, steps 11");
}

#[test]
fn a_full_counter_counts_no_more() {
    let full = ProgressCounter {
        contexts_done: usize::MAX,
        contexts_total: None,
        steps_done: 0,
    };
    assert!(!full.can_count(ProgressEvent::ContextParsed { total: 1 }));
    assert!(full.can_count(ProgressEvent::StepParsed));
}

#[test]
fn the_client_chooses_the_root() {
    let some = |text: &str| Some(PathBuf::from(text));
    assert_eq!(choose_root(some("/a"), some("/b")), PathBuf::from("/a"));
    assert_eq!(choose_root(some("/a"), None), PathBuf::from("/a"));
    assert_eq!(choose_root(None, some("/b")), PathBuf::from("/b"));
    assert_eq!(choose_root(None, None), PathBuf::from("."));
}

#[test]
fn the_root_is_where_the_url_of_the_client_leads() {
    let current = || Some(PathBuf::from("/here"));
    let url = Url::parse("file:///p/a%20b").unwrap();
    assert_eq!(requested_root(Some(&url), current()), PathBuf::from("/p/a b"));
    assert_eq!(requested_root(Some(&url), None), PathBuf::from("/p/a b"));
    let elsewhere = Url::parse("https://example.org/p").unwrap();
    assert_eq!(requested_root(Some(&elsewhere), current()), PathBuf::from("/here"));
    assert_eq!(requested_root(Some(&elsewhere), None), PathBuf::from("."));
    assert_eq!(requested_root(None, current()), PathBuf::from("/here"));
    assert_eq!(requested_root(None, None), PathBuf::from("."));
}

#[test]
fn the_client_is_told_what_the_server_can_do() {
    let told = capabilities();
    assert!(told.full_sync);
    assert_eq!(told.trigger_characters, vec![" ".to_string(), "/".to_string()]);
    assert!(is_log(&greeting(), LogLevel::Info, "behat-lsp initialized"));
    assert!(is_log(&watcher_failed("no"), LogLevel::Error, "Failed to start watcher: no"));
}

#[test]
fn news_from_the_file_system_are_weighed() {
    let event = |name: &str| WatchEvent {
        kind: WatchKind::Modify,
        paths: vec![PathBuf::from(name)],
    };
    assert!(matches!(react_to_watcher(Ok(event("a.php"))), WatchReaction::Rebuild));
    assert!(matches!(react_to_watcher(Ok(event("a.txt"))), WatchReaction::Ignore));
    match react_to_watcher(Err("lost".to_string())) {
        WatchReaction::Send(action) => {
            assert!(is_log(&action, LogLevel::Error, "Watcher error: lost"));
        }
        _ => panic!("not told"),
    }
}
