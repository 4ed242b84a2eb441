use std::path::PathBuf;

use behat_lsp::watch::{
    is_composer_file, is_ignored_dir, is_watched_file, should_rebuild_for_event, WatchEvent,
    WatchKind,
};

fn outdated(kind: WatchKind, paths: &[&str]) -> bool {
    let paths = paths.iter().map(|path| PathBuf::from(path)).collect();
    should_rebuild_for_event(&WatchEvent { kind, paths })
}

#[test]
fn files_of_the_index_matter() {
    for kind in [WatchKind::Create, WatchKind::Modify, WatchKind::Remove] {
        assert!(outdated(kind, &["/p/behat.yaml"]));
        assert!(outdated(kind, &["/p/composer.lock"]));
        assert!(outdated(kind, &["/p/sub/composer.json"]));
        assert!(outdated(kind, &["/p/x.txt", "/p/src/A.php"]));
    }
}

#[test]
fn other_files_do_not_matter() {
    for path in ["/p/behat.yml", "/p/a.phtml", "/p/php", "/p/.php", "/p/a.PHP", "/p/composer.json.bak"] {
        assert!(!outdated(WatchKind::Modify, &[path]), "{path}");
    }
    assert!(!outdated(WatchKind::Modify, &[]));
}

#[test]
fn other_events_do_not_matter() {
    assert!(!outdated(WatchKind::Other, &["/p/behat.yaml", "/p/a.php"]));
}

#[test]
fn names_and_extensions_decide() {
    let some = |text: &str| Some(text.to_string());
    assert!(is_watched_file(&some("behat.yaml"), &some("yaml")));
    assert!(is_watched_file(&None, &some("php")));
    assert!(!is_watched_file(&some("php"), &None));
    assert!(!is_watched_file(&None, &None));
}

#[test]
fn composer_files_are_known_by_name() {
    assert!(is_composer_file(true, "composer.lock"));
    assert!(is_composer_file(true, "composer.json"));
    assert!(!is_composer_file(false, "composer.json"));
    assert!(!is_composer_file(true, "Composer.json"));
}

#[test]
fn composer_files_that_change_outdate_the_index() {
    for name in ["composer.lock", "composer.json"] {
        assert!(is_composer_file(true, name));
        assert!(outdated(WatchKind::Create, &[name]));
    }
}

#[test]
fn some_directories_are_not_looked_into() {
    for name in [".git", "vendor", "node_modules", "target"] {
        assert!(is_ignored_dir(true, name));
        assert!(!is_ignored_dir(false, name));
    }
    assert!(!is_ignored_dir(true, "src"));
}
