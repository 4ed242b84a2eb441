use std::path::PathBuf;

use behat_lsp::index::{
    collect_file_steps, group_by_file, index_steps, locate_contexts, resolve_contexts, ContextFile,
    ContextPaths,
};
use behat_lsp::php::{ParsedClass, ParsedFile, ParsedStep};
use behat_lsp::psr4::{ComposerFile, FoundFiles, IndexError};
use behat_lsp::steps::{StepDef, StepKind};

fn path(text: &str) -> PathBuf {
    PathBuf::from(text)
}

fn names(list: &[&str]) -> Vec<String> {
    list.iter().map(|name| name.to_string()).collect()
}

fn class(fqcn: &str, steps: &[&str]) -> ParsedClass {
    ParsedClass {
        fqcn: fqcn.to_string(),
        steps: steps
            .iter()
            .map(|text| ParsedStep { text: text.to_string(), kind: StepKind::When })
            .collect(),
    }
}

fn shown(steps: &[StepDef]) -> Vec<(String, PathBuf, Option<String>, StepKind)> {
    steps.iter().map(|s| (s.text.clone(), s.source.clone(), s.class.clone(), s.kind)).collect()
}

fn expected(list: &[(&str, &str, &str)]) -> Vec<(String, PathBuf, Option<String>, StepKind)> {
    list.iter()
        .map(|(text, source, class)| {
            (text.to_string(), path(source), Some(class.to_string()), StepKind::When)
        })
        .collect()
}

#[test]
fn contexts_are_located_by_the_composer_files() {
    let manifest = "{\"autoload\":{\"psr-4\":{\"A\\\\\":\"src\",\"A\\\\B\\\\\":\"b\"}}}";
    let files = vec![ComposerFile {
        path: path("/p/composer.json"),
        contents: Some(manifest.to_string()),
    }];
    let found = locate_contexts(&names(&["A\\B\\C", "D"]), &path("/p"), &files).unwrap();
    assert_eq!(found.len(), 2);
    assert_eq!(found[0].context, "A\\B\\C");
    assert_eq!(found[0].mapped, vec![path("/p/b/C.php"), path("/p/src/B/C.php")]);
    assert_eq!(found[1].context, "D");
    assert!(found[1].mapped.is_empty());
    assert_eq!(found[1].fallback, vec![path("/p/D.php"), path("/p/src/D.php")]);

    let resolved = resolve_contexts(
        &found,
        &vec![FoundFiles { mapped: vec![true, true], fallback: Vec::new() }],
    );
    assert_eq!(resolved.len(), 2);
    assert_eq!(resolved[0].context, "A\\B\\C");
    assert_eq!(resolved[0].paths, vec![path("/p/b/C.php"), path("/p/src/B/C.php")]);
    assert_eq!(resolved[1].context, "D");
    assert!(resolved[1].paths.is_empty());
}

#[test]
fn a_bad_composer_file_leaves_no_index() {
    let files = vec![ComposerFile { path: path("/p/composer.lock"), contents: Some("x".to_string()) }];
    let error = locate_contexts(&names(&["A"]), &path("/p"), &files).unwrap_err();
    assert!(matches!(error, IndexError::Unparsable(at) if at == path("/p/composer.lock")));
}

#[test]
fn contexts_are_grouped_by_file() {
    let entry = |context: &str, paths: &[&str]| ContextPaths {
        context: context.to_string(),
        paths: paths.iter().map(|p| path(p)).collect(),
    };
    let files = group_by_file(&vec![
        entry("A", &["/x", "/y"]),
        entry("B", &[]),
        entry("C", &["/y", "/z"]),
        entry("A", &["/y/"]),
    ]);
    let shown: Vec<(PathBuf, Vec<String>)> =
        files.iter().map(|f| (f.path.clone(), f.contexts.clone())).collect();
    assert_eq!(
        shown,
        vec![
            (path("/x"), names(&["A"])),
            (path("/y"), names(&["A", "C"])),
            (path("/z"), names(&["C"])),
        ]
    );
    assert_eq!(files[1].path.to_str(), Some("/y"));
}

#[test]
fn only_the_classes_that_are_contexts_define_steps() {
    let file = ContextFile { path: path("/x.php"), contexts: names(&["N\\A", "N\\C"]) };
    let parsed = ParsedFile {
        classes: vec![class("\\N\\A", &["1", "2"]), class("N\\B", &["3"]), class("N\\C", &[])],
    };
    let mut steps = Vec::new();
    collect_file_steps(&file, &parsed, &mut steps);
    assert_eq!(shown(&steps), expected(&[("1", "/x.php", "\\N\\A"), ("2", "/x.php", "\\N\\A")]));
}

#[test]
fn where_no_class_is_a_context_all_define_steps() {
    let file = ContextFile { path: path("/x.php"), contexts: names(&["Else"]) };
    let parsed = ParsedFile { classes: vec![class("A", &["1"]), class("B", &["2", "3"])] };
    let mut steps = Vec::new();
    collect_file_steps(&file, &parsed, &mut steps);
    assert_eq!(
        shown(&steps),
        expected(&[("1", "/x.php", "A"), ("2", "/x.php", "B"), ("3", "/x.php", "B")])
    );
}

#[test]
fn a_context_without_steps_still_hides_the_other_classes() {
    let file = ContextFile { path: path("/x.php"), contexts: names(&["A"]) };
    let parsed = ParsedFile { classes: vec![class("A", &[]), class("B", &["2"])] };
    let mut steps = Vec::new();
    collect_file_steps(&file, &parsed, &mut steps);
    assert!(steps.is_empty());
}

#[test]
fn files_that_cannot_be_read_are_passed_over() {
    let files = vec![
        ContextFile { path: path("/p/a.php"), contexts: names(&["A"]) },
        ContextFile { path: path("/p/b.php"), contexts: names(&["B"]) },
        ContextFile { path: path("/p/c.php"), contexts: names(&["C"]) },
    ];
    let sources = vec![
        None,
        Some("<?php class B { #[When('b')] function f() {} } class X { #[When('x')] function f() {} }".to_string()),
    ];
    let steps = index_steps(&files, &sources, &path("/p"));
    assert_eq!(shown(&steps), expected(&[("b", "/p/b.php", "B")]));
}

#[test]
fn each_step_comes_from_a_file_of_a_context() {
    let found = vec![
        ContextPaths { context: "A".to_string(), paths: vec![path("/a.php")] },
        ContextPaths { context: "B".to_string(), paths: vec![path("/a.php"), path("/b.php")] },
    ];
    let files = group_by_file(&found);
    let source = "<?php class A { #[When('x')] function f() {} }";
    let sources = vec![Some(source.to_string()), Some(source.to_string())];
    let steps = index_steps(&files, &sources, &path("/"));
    assert_eq!(shown(&steps), expected(&[("x", "/a.php", "A"), ("x", "/b.php", "A")]));
    for step in &steps {
        assert!(found.iter().any(|entry| entry.paths.contains(&step.source)));
    }
}
