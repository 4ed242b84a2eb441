use std::path::PathBuf;

use behat_lsp::progress::ProgressEvent;
use behat_lsp::psr4::{ComposerFile, FoundFiles, IndexError};
use behat_lsp::stages::{Configured, IndexBuild, LocatingContexts, ReadingSources};

fn path(text: &str) -> PathBuf {
    PathBuf::from(text)
}

fn start() -> IndexBuild {
    IndexBuild { root: path("/p") }
}

fn located(configuration: &str) -> LocatingContexts {
    match start().with_configuration(Some(configuration)) {
        Configured::Locate(stage) => stage,
        Configured::Finished(_) => panic!("finished"),
    }
}

fn manifest() -> Vec<ComposerFile> {
    let contents = "{\"autoload-dev\":{\"psr-4\":{\"T\\\\\":\"tests\"}}}".to_string();
    vec![ComposerFile { path: path("/p/composer.json"), contents: Some(contents) }]
}

#[test]
fn the_configuration_lies_in_the_root() {
    assert_eq!(start().configuration_path(), path("/p/behat.yaml"));
}

#[test]
fn without_contexts_the_index_is_empty() {
    for configuration in [None, Some("a: 1"), Some("a: ["), Some("contexts: []")] {
        let next = start().with_configuration(configuration);
        assert!(matches!(next, Configured::Finished(steps) if steps.is_empty()));
    }
    let stage = located("contexts: ['\\A', B, A]");
    assert_eq!(stage.contexts, vec!["A".to_string(), "B".to_string()]);
    assert_eq!(stage.root, path("/p"));
}

#[test]
fn a_bad_composer_file_ends_the_work() {
    let unreadable = vec![ComposerFile { path: path("/p/composer.lock"), contents: None }];
    let error = located("contexts: [A]").with_composer_files(&unreadable).unwrap_err();
    assert!(matches!(error, IndexError::Unreadable(at) if at == path("/p/composer.lock")));
}

#[test]
fn an_index_is_made_in_turns() {
    let stage = located("contexts: [T\\Web, T\\Api, Gone]");
    let stage = stage.with_composer_files(&manifest()).unwrap();
    assert_eq!(stage.root, path("/p"));
    assert_eq!(stage.candidates.len(), 3);
    assert_eq!(stage.candidates[0].mapped, vec![path("/p/tests/Web.php")]);
    assert_eq!(stage.candidates[2].fallback, vec![path("/p/Gone.php"), path("/p/src/Gone.php")]);

    let found = vec![
        FoundFiles { mapped: vec![true], fallback: vec![true, true] },
        FoundFiles { mapped: vec![false], fallback: vec![false, true] },
        FoundFiles { mapped: Vec::new(), fallback: vec![false, false] },
    ];
    let (stage, events) = stage.with_found_files(&found);
    assert_eq!(events, vec![ProgressEvent::ContextParsed { total: 3 }; 3]);
    assert_eq!(stage.root, path("/p"));
    let files: Vec<PathBuf> = stage.files.iter().map(|file| file.path.clone()).collect();
    assert_eq!(files, vec![path("/p/tests/Web.php"), path("/p/src/T/Api.php")]);

    let sources = vec![
        Some("<?php namespace T; class Web { #[Given('a')] #[Then('b')] function f() {} }".to_string()),
        None,
    ];
    let (steps, events) = stage.with_sources(&sources);
    assert_eq!(events, vec![ProgressEvent::StepParsed; 2]);
    let texts: Vec<&str> = steps.iter().map(|step| step.text.as_str()).collect();
    assert_eq!(texts, vec!["a", "b"]);
    assert_eq!(steps[0].class, Some("T\\Web".to_string()));
    assert_eq!(steps[0].source, path("/p/tests/Web.php"));
}

#[test]
fn without_files_there_are_no_steps() {
    let stage = ReadingSources { root: path("/p"), files: Vec::new() };
    let (steps, events) = stage.with_sources(&vec![Some("<?php".to_string())]);
    assert!(steps.is_empty());
    assert!(events.is_empty());
}

/// The steps of a project with this configuration, by text, file, class and kind, in order.
fn steps_of(configuration: &str) -> Vec<String> {
    let stage = located(configuration).with_composer_files(&manifest()).unwrap();
    let found = stage
        .candidates
        .iter()
        .map(|c| FoundFiles { mapped: vec![true; c.mapped.len()], fallback: vec![false, true] })
        .collect();
    let (stage, _) = stage.with_found_files(&found);
    let sources = stage
        .files
        .iter()
        .map(|file| {
            let name = file.path.file_stem().unwrap().to_str().unwrap().to_string();
            Some(format!(
                "<?php namespace T; class {name} {{ #[Given('a')] #[Given('a')] function f() {{}} }} class Rest {{ #[But('b')] function g() {{}} }}"
            ))
        })
        .collect();
    let (steps, _) = stage.with_sources(&sources);
    let mut shown: Vec<String> = steps
        .iter()
        .map(|s| format!("{} {} {:?} {:?}", s.text, s.source.display(), s.class, s.kind))
        .collect();
    shown.sort();
    shown
}

#[test]
fn how_contexts_are_listed_does_not_change_the_steps() {
    let plain = steps_of("contexts: [T\\Web, T\\Api, Gone]");
    assert_eq!(plain.len(), 7);
    assert_eq!(steps_of("contexts: [Gone, T\\Api, T\\Web]"), plain);
    assert_eq!(steps_of("contexts: [T\\Web, Gone, T\\Web, T\\Api, T\\Web]"), plain);
    assert_eq!(steps_of("contexts: [\\T\\Api, \\\\T\\Web, T\\Web, \\Gone]"), plain);
    for step in &plain {
        assert!(step.contains("Some("));
        assert!(!step.contains("Other"));
    }
}
