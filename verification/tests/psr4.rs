use std::path::PathBuf;

use behat_lsp::json::{parse_json, Json, JsonError};
use behat_lsp::paths::{dedup_paths, sort_and_dedup};
use behat_lsp::psr4::{
    build_psr4_map, collect_composer, collect_psr4_from_lock, collect_psr4_from_package,
    context_candidates, relative_class_path, resolve_context_paths, sort_longest_first,
    ComposerFile, FoundFiles, IndexError, Psr4Mapping,
};

const MANIFEST: &str = r#"{
    "autoload": { "psr-4": { "App\\": "src/", "\\Lib\\": ["lib", "more/lib", 3] } },
    "autoload-dev": { "psr-4": { "App\\Tests\\": "tests" } }
}"#;

const LOCK: &str = r#"{
    "packages": [
        { "name": "acme/tool", "autoload": { "psr-4": { "Acme\\": "src" } } },
        { "autoload": { "psr-4": { "Nameless\\": "src" } } }
    ],
    "packages-dev": [
        { "name": "acme/dev", "autoload-dev": { "psr-4": { "Acme\\Dev\\": "" } } }
    ]
}"#;

fn path(text: &str) -> PathBuf {
    PathBuf::from(text)
}

fn file(at: &str, contents: &str) -> ComposerFile {
    ComposerFile { path: path(at), contents: Some(contents.to_string()) }
}

fn mapping(prefix: &str, base: &str) -> Psr4Mapping {
    Psr4Mapping { prefix: prefix.to_string(), base: path(base) }
}

fn shown(mappings: &[Psr4Mapping]) -> Vec<(String, PathBuf)> {
    mappings.iter().map(|m| (m.prefix.clone(), m.base.clone())).collect()
}

fn expected(list: &[(&str, &str)]) -> Vec<(String, PathBuf)> {
    list.iter().map(|(prefix, base)| (prefix.to_string(), path(base))).collect()
}

#[test]
fn json_values_are_told_apart() {
    let value = parse_json("{\"a\": [\"x\", 1, null], \"a\": \"y\"}").unwrap();
    assert!(matches!(value.get("a"), Some(Json::Text(text)) if text == "y"));
    assert!(value.get("b").is_none());
    assert!(matches!(parse_json("[\"x\", 1]").unwrap(), Json::Array(items) if items.len() == 2));
    assert!(parse_json("[1]").unwrap().get("0").is_none());
    assert!(matches!(parse_json("true").unwrap(), Json::Other));
    assert_eq!(parse_json("{").unwrap_err(), JsonError::Invalid);
}

#[test]
fn a_package_gives_its_mappings() {
    let value = parse_json(MANIFEST).unwrap();
    let mut out = vec![mapping("Old\\", "old")];
    collect_psr4_from_package(value.get("autoload"), &path("/p"), &mut out);
    assert_eq!(
        shown(&out),
        expected(&[
            ("Old\\", "old"),
            ("App\\", "/p/src/"),
            ("Lib\\", "/p/lib"),
            ("Lib\\", "/p/more/lib"),
        ])
    );
    collect_psr4_from_package(None, &path("/p"), &mut out);
    assert_eq!(out.len(), 4);
}

#[test]
fn a_lock_file_gives_the_mappings_of_its_packages() {
    let value = parse_json(LOCK).unwrap();
    let mut out = Vec::new();
    collect_psr4_from_lock(&value, &path("/p"), &mut out);
    assert_eq!(
        shown(&out),
        expected(&[
            ("Acme\\", "/p/vendor/acme/tool/src"),
            ("Acme\\Dev\\", "/p/vendor/acme/dev/"),
        ])
    );
}

#[test]
fn a_manifest_is_not_read_as_a_lock_file() {
    let value = parse_json(MANIFEST).unwrap();
    let mut out = Vec::new();
    collect_composer(false, &value, &path("/p"), &mut out);
    assert!(out.is_empty());
    collect_composer(true, &value, &path("/p"), &mut out);
    assert_eq!(out.len(), 4);
}

#[test]
fn the_longest_prefixes_come_first() {
    let files = vec![file("/p/composer.lock", LOCK), file("/p/composer.json", MANIFEST)];
    let mappings = build_psr4_map(&files).unwrap();
    assert_eq!(
        shown(&mappings),
        expected(&[
            ("App\\Tests\\", "/p/tests"),
            ("Acme\\Dev\\", "/p/vendor/acme/dev/"),
            ("Acme\\", "/p/vendor/acme/tool/src"),
            ("App\\", "/p/src/"),
            ("Lib\\", "/p/lib"),
            ("Lib\\", "/p/more/lib"),
        ])
    );
}

#[test]
fn prefixes_of_one_length_stay_in_order() {
    let mut mappings = vec![
        mapping("b", "1"),
        mapping("é", "2"),
        mapping("a", "3"),
        mapping("ab", "4"),
        mapping("", "5"),
    ];
    sort_longest_first(&mut mappings);
    assert_eq!(
        shown(&mappings),
        expected(&[("é", "2"), ("ab", "4"), ("b", "1"), ("a", "3"), ("", "5")])
    );
}

#[test]
fn a_composer_file_at_the_top_speaks_of_its_directory() {
    let files = vec![file("composer.json", "{\"autoload\":{\"psr-4\":{\"A\\\\\":\"src\"}}}")];
    let mappings = build_psr4_map(&files).unwrap();
    assert_eq!(shown(&mappings), expected(&[("A\\", "src")]));
}

#[test]
fn the_first_bad_composer_file_is_reported() {
    let unreadable = ComposerFile { path: path("/p/composer.lock"), contents: None };
    let error = build_psr4_map(&vec![file("/p/composer.json", MANIFEST), unreadable]).unwrap_err();
    assert!(matches!(&error, IndexError::Unreadable(at) if *at == path("/p/composer.lock")));
    assert_eq!(error.message(), "read /p/composer.lock");
    let unreadable = ComposerFile { path: path("/q/composer.lock"), contents: None };
    let error = build_psr4_map(&vec![file("/p/composer.json", "{"), unreadable]).unwrap_err();
    assert!(matches!(&error, IndexError::Unparsable(at) if *at == path("/p/composer.json")));
    assert_eq!(error.message(), "parse /p/composer.json");
}

#[test]
fn classes_lie_below_their_prefix() {
    assert_eq!(relative_class_path("App\\Sub\\Foo", "App\\"), Some("Sub/Foo".to_string()));
    assert_eq!(relative_class_path("App\\Sub\\Foo", "App"), Some("Sub/Foo".to_string()));
    assert_eq!(relative_class_path("App\\Foo", ""), Some("App/Foo".to_string()));
    assert_eq!(relative_class_path("App\\Foo", "Lib\\"), None);
}

#[test]
fn candidates_go_by_the_mappings() {
    let mappings = vec![mapping("App\\Tests\\", "/p/tests"), mapping("App\\", "/p/src")];
    let found = context_candidates("\\App\\Tests\\Web.x", &path("/p"), &mappings);
    assert_eq!(found.context, "\\App\\Tests\\Web.x");
    assert_eq!(found.mapped, vec![path("/p/tests/Web.php"), path("/p/src/Tests/Web.php")]);
    assert_eq!(
        found.fallback,
        vec![path("/p/App/Tests/Web.php"), path("/p/src/App/Tests/Web.php")]
    );
    let found = context_candidates("Other", &path("/p"), &mappings);
    assert!(found.mapped.is_empty());
}

#[test]
fn files_that_exist_are_listed_in_order_and_once() {
    let mappings = vec![
        mapping("App\\", "/p/z"),
        mapping("App\\", "/p/a"),
        mapping("", "/p/none"),
        mapping("App", "/p/a"),
    ];
    let candidates = context_candidates("App\\Foo", &path("/p"), &mappings);
    let found = FoundFiles { mapped: vec![true, true, false, true], fallback: vec![true, true] };
    assert_eq!(
        resolve_context_paths(&candidates, &found),
        vec![path("/p/a/Foo.php"), path("/p/z/Foo.php")]
    );
}

#[test]
fn the_fallback_counts_only_where_no_mapping_leads_to_a_file() {
    let candidates = context_candidates("App\\Foo", &path("/p"), &vec![mapping("App\\", "/p/x")]);
    let found = FoundFiles { mapped: vec![false], fallback: vec![true, true] };
    assert_eq!(
        resolve_context_paths(&candidates, &found),
        vec![path("/p/App/Foo.php"), path("/p/src/App/Foo.php")]
    );
    let found = FoundFiles { mapped: vec![true], fallback: vec![true, true] };
    assert_eq!(resolve_context_paths(&candidates, &found), vec![path("/p/x/Foo.php")]);
    let found = FoundFiles { mapped: Vec::new(), fallback: vec![false, true] };
    assert_eq!(resolve_context_paths(&candidates, &found), vec![path("/p/src/App/Foo.php")]);
    let found = FoundFiles { mapped: Vec::new(), fallback: Vec::new() };
    assert!(resolve_context_paths(&candidates, &found).is_empty());
}

#[test]
fn of_paths_that_are_the_same_the_first_stays() {
    let mut paths = vec![path("/b"), path("/a//x"), path("/a/x"), path("/a")];
    sort_and_dedup(&mut paths);
    assert_eq!(paths.len(), 3);
    assert_eq!(paths, vec![path("/a"), path("/a/x"), path("/b")]);
    assert_eq!(paths[1].to_str(), Some("/a//x"));
}

#[test]
fn only_neighbours_are_dropped() {
    let mut paths = vec![path("a"), path("a"), path("b"), path("a"), path("a/")];
    dedup_paths(&mut paths);
    assert_eq!(paths, vec![path("a"), path("b"), path("a")]);
}

#[test]
fn the_order_of_the_mappings_does_not_change_what_is_found() {
    let on_disk = |at: &PathBuf| at.starts_with("/p/a") || at.starts_with("/p/z");
    let resolve = |context: &str, mappings: Vec<Psr4Mapping>| {
        let candidates = context_candidates(context, &path("/p"), &mappings);
        let found = FoundFiles {
            mapped: candidates.mapped.iter().map(on_disk).collect(),
            fallback: candidates.fallback.iter().map(on_disk).collect(),
        };
        resolve_context_paths(&candidates, &found)
    };
    let once = || vec![mapping("A\\", "/p/z"), mapping("A\\", "/p/a"), mapping("A\\", "/p/a//")];
    let often = || {
        vec![
            mapping("A\\", "/p/a//"),
            mapping("A\\", "/p/a"),
            mapping("A\\", "/p/z"),
            mapping("A\\", "/p/a"),
            mapping("A\\", "/p/z"),
        ]
    };
    let expected = vec![path("/p/a/Foo.php"), path("/p/z/Foo.php")];
    assert_eq!(resolve("A\\Foo", once()), expected);
    assert_eq!(resolve("A\\Foo", often()), expected);
    assert_eq!(resolve("\\A\\Foo", often()), expected);
    assert_eq!(resolve("\\\\A\\Foo", once()), expected);
}
