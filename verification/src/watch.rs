//! Which files matter to the index.

use std::path::PathBuf;

use vstd::prelude::*;

use crate::paths::{extension_of, file_name_of};
use crate::text::same_text;

verus! {

use crate::paths::{bytes_of_paths, path_bytes, path_extension, path_file_name};

/// What happened to files.
#[derive(Clone, Copy, Debug, PartialEq, Eq, Structural)]
pub enum WatchKind {
    Create,
    Modify,
    Remove,
    Other,
}

/// That something happened to files.
#[derive(Debug)]
pub struct WatchEvent {
    pub kind: WatchKind,
    pub paths: Vec<PathBuf>,
}

/// Whether a file with this name and this extension has a part in the index: the configuration,
/// a Composer file or a PHP file.
pub open spec fn is_watched(name: Option<Seq<char>>, extension: Option<Seq<char>>) -> bool {
    ||| name == Some("behat.yaml"@)
    ||| name == Some("composer.lock"@)
    ||| name == Some("composer.json"@)
    ||| extension == Some("php"@)
}

/// Whether the file of a path has a part in the index.
pub open spec fn is_watched_path(path: Seq<u8>) -> bool {
    is_watched(path_file_name(path), path_extension(path))
}

/// Whether what happened to files can have changed the index.
pub open spec fn outdates_index(kind: WatchKind, paths: Seq<Seq<u8>>) -> bool {
    kind != WatchKind::Other && exists|i: int|
        0 <= i < paths.len() && is_watched_path(#[trigger] paths[i])
}

/// Tells whether a text is there and is `word`.
fn is_word(text: &Option<String>, word: &str) -> (r: bool)
    ensures
        r == (text.deep_view() == Some(word@)),
{
    match text {
        Some(text) => same_text(text.as_str(), word),
        None => false,
    }
}

/// Tells whether a file with this name and this extension has a part in the index.
pub fn is_watched_file(name: &Option<String>, extension: &Option<String>) -> (r: bool)
    ensures
        r == is_watched(name.deep_view(), extension.deep_view()),
{
    is_word(name, "behat.yaml") || is_word(name, "composer.lock") || is_word(name, "composer.json")
        || is_word(extension, "php")
}

/// Tells whether the index is to be built anew for an event.
pub fn should_rebuild_for_event(event: &WatchEvent) -> (r: bool)
    ensures
        r == outdates_index(event.kind, bytes_of_paths(event.paths@)),
{
    let ghost paths = bytes_of_paths(event.paths@);
    if event.kind == WatchKind::Other {
        return false;
    }
    let mut i: usize = 0;
    while i < event.paths.len()
        invariant
            i <= event.paths@.len(),
            paths == bytes_of_paths(event.paths@),
            event.kind != WatchKind::Other,
            forall|j: int| 0 <= j < i ==> !is_watched_path(#[trigger] paths[j]),
        decreases event.paths@.len() - i,
    {
        let name = file_name_of(&event.paths[i]);
        let extension = extension_of(&event.paths[i]);
        assert(paths[i as int] == path_bytes(event.paths@[i as int]));
        if is_watched_file(&name, &extension) {
            return true;
        }
        i += 1;
    }
    false
}

/// Whether a name is that of a directory that holds no part of the project.
pub open spec fn is_ignored_name(name: Seq<char>) -> bool {
    name == ".git"@ || name == "vendor"@ || name == "node_modules"@ || name == "target"@
}

/// Whether a name is that of a Composer file.
pub open spec fn is_composer_name(name: Seq<char>) -> bool {
    name == "composer.lock"@ || name == "composer.json"@
}

/// Tells whether a directory entry is one not to be looked into for Composer files.
pub fn is_ignored_dir(is_dir: bool, name: &str) -> (r: bool)
    ensures
        r == (is_dir && is_ignored_name(name@)),
{
    is_dir && (same_text(name, ".git") || same_text(name, "vendor") || same_text(
        name,
        "node_modules",
    ) || same_text(name, "target"))
}

/// Tells whether a directory entry is a Composer file.
pub fn is_composer_file(is_file: bool, name: &str) -> (r: bool)
    ensures
        r == (is_file && is_composer_name(name@)),
{
    is_file && (same_text(name, "composer.lock") || same_text(name, "composer.json"))
}

/// A Composer file that changes outdates the index.
pub proof fn lemma_composer_files_watched(name: Seq<char>, extension: Option<Seq<char>>)
    requires
        is_composer_name(name),
    ensures
        is_watched(Some(name), extension),
{
}

} // verus!
