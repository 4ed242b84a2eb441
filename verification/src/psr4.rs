//! Where Composer says that the classes of a name prefix lie.

use std::path::PathBuf;

use vstd::prelude::*;

use crate::contexts::normalize_class_name;
use crate::json::{parse_json, Json};
use crate::paths::{
    copy_path, file_name_of, join_path, parent_of, path_of_text, set_extension, shown_path,
    sort_and_dedup,
};
use crate::text::{backslashes_to_slashes, same_text, strip_leading_backslashes, strip_start};

verus! {

use crate::json::{json_parsed, json_tree, opt_tree, tree_get, JsonTree};
use crate::paths::{
    bytes_of_paths, has_class, is_sorted_listing, joined_path, lemma_one_listing, path_bytes,
    path_class, path_classes, path_file_name, path_parent, path_shown, path_with_extension,
};
use crate::text::{with_slashes, without_leading_backslashes};
use vstd::string::StringExecFns;
use vstd::utf8::encode_utf8;

/// A name prefix, and the directory that holds the classes whose names start with it.
#[derive(Debug)]
pub struct Psr4Mapping {
    pub prefix: String,
    pub base: PathBuf,
}

/// What a `Psr4Mapping` says.
pub struct MappingView {
    pub prefix: Seq<char>,
    pub base: Seq<u8>,
}

impl DeepView for Psr4Mapping {
    type V = MappingView;

    open spec fn deep_view(&self) -> MappingView {
        MappingView { prefix: self.prefix@, base: path_bytes(self.base) }
    }
}

/// A `composer.json` or `composer.lock` file, with its text where it could be read.
#[derive(Debug)]
pub struct ComposerFile {
    pub path: PathBuf,
    pub contents: Option<String>,
}

/// What a `ComposerFile` says.
pub struct ComposerFileView {
    pub path: Seq<u8>,
    pub contents: Option<Seq<char>>,
}

impl DeepView for ComposerFile {
    type V = ComposerFileView;

    open spec fn deep_view(&self) -> ComposerFileView {
        ComposerFileView { path: path_bytes(self.path), contents: self.contents.deep_view() }
    }
}

/// Why there is no index.
#[derive(Debug)]
pub enum IndexError {
    /// A Composer file cannot be read.
    Unreadable(PathBuf),
    /// A Composer file is not a JSON document.
    Unparsable(PathBuf),
}

/// What an `IndexError` says.
pub enum IndexErrorView {
    Unreadable(Seq<u8>),
    Unparsable(Seq<u8>),
}

impl DeepView for IndexError {
    type V = IndexErrorView;

    open spec fn deep_view(&self) -> IndexErrorView {
        match *self {
            IndexError::Unreadable(path) => IndexErrorView::Unreadable(path_bytes(path)),
            IndexError::Unparsable(path) => IndexErrorView::Unparsable(path_bytes(path)),
        }
    }
}

/// The text that an error is reported by.
pub open spec fn error_text(error: IndexErrorView) -> Seq<char> {
    match error {
        IndexErrorView::Unreadable(path) => "read "@ + path_shown(path),
        IndexErrorView::Unparsable(path) => "parse "@ + path_shown(path),
    }
}

impl IndexError {
    /// The text that the error is reported by.
    pub fn message(&self) -> (text: String)
        ensures
            text@ == error_text(self.deep_view()),
    {
        match self {
            IndexError::Unreadable(path) => {
                let mut text = String::from_str("read ");
                let shown = shown_path(path);
                text.append(shown.as_str());
                text
            },
            IndexError::Unparsable(path) => {
                let mut text = String::from_str("parse ");
                let shown = shown_path(path);
                text.append(shown.as_str());
                text
            },
        }
    }
}

/// The directories that an entry of a `psr-4` object names: one, or those of an array.
pub open spec fn directory_texts(paths: JsonTree) -> Seq<Seq<char>> {
    match paths {
        JsonTree::Text(path) => seq![path],
        JsonTree::Array(items) => items.filter_map(
            |item: JsonTree|
                match item {
                    JsonTree::Text(path) => Some(path),
                    _ => None,
                },
        ),
        _ => Seq::empty(),
    }
}

/// The mapping from a prefix to a directory below `base`.
pub open spec fn directory_mapping(
    prefix: Seq<char>,
    base: Seq<u8>,
    path: Seq<char>,
) -> MappingView {
    MappingView { prefix: without_leading_backslashes(prefix), base: joined_path(base, path) }
}

/// The mappings that an entry of a `psr-4` object stands for.
pub open spec fn entry_mappings(prefix: Seq<char>, paths: JsonTree, base: Seq<u8>) -> Seq<
    MappingView,
> {
    directory_texts(paths).map_values(|path: Seq<char>| directory_mapping(prefix, base, path))
}

/// The mappings that the `psr-4` object of an `autoload` object stands for.
pub open spec fn package_mappings(autoload: Option<JsonTree>, base: Seq<u8>) -> Seq<MappingView> {
    match autoload {
        None => Seq::empty(),
        Some(tree) => match tree_get(tree, "psr-4"@) {
            Some(JsonTree::Object(members)) => members.flat_map(
                |m: (Seq<char>, JsonTree)| entry_mappings(m.0, m.1, base),
            ),
            _ => Seq::empty(),
        },
    }
}

/// The mappings for use and for development that a package whose files lie in `base` has.
pub open spec fn autoload_mappings(package: JsonTree, base: Seq<u8>) -> Seq<MappingView> {
    package_mappings(tree_get(package, "autoload"@), base) + package_mappings(
        tree_get(package, "autoload-dev"@),
        base,
    )
}

/// The mappings of a package of a lock file: a package without a name has none.
pub open spec fn locked_package_mappings(package: JsonTree, root: Seq<u8>) -> Seq<MappingView> {
    match tree_get(package, "name"@) {
        Some(JsonTree::Text(name)) => autoload_mappings(
            package,
            joined_path(joined_path(root, "vendor"@), name),
        ),
        _ => Seq::empty(),
    }
}

/// The mappings of the packages that a lock file lists in `section`.
pub open spec fn section_mappings(lock: JsonTree, section: Seq<char>, root: Seq<u8>) -> Seq<
    MappingView,
> {
    match tree_get(lock, section) {
        Some(JsonTree::Array(packages)) => packages.flat_map(
            |package: JsonTree| locked_package_mappings(package, root),
        ),
        _ => Seq::empty(),
    }
}

/// The mappings of all the packages that a lock file lists.
pub open spec fn lock_mappings(lock: JsonTree, root: Seq<u8>) -> Seq<MappingView> {
    section_mappings(lock, "packages"@, root) + section_mappings(lock, "packages-dev"@, root)
}

/// The directory that a Composer file speaks of.
pub open spec fn composer_root(path: Seq<u8>) -> Seq<u8> {
    match path_parent(path) {
        Some(parent) => parent,
        None => encode_utf8("."@),
    }
}

/// The mappings that a Composer file stands for: those of the package itself in `composer.json`,
/// those of the packages that it depends on in a lock file.
pub open spec fn composer_mappings(is_manifest: bool, document: JsonTree, root: Seq<u8>) -> Seq<
    MappingView,
> {
    if is_manifest {
        autoload_mappings(document, root)
    } else {
        lock_mappings(document, root)
    }
}

/// The mappings of `files` in order, or what is wrong with the first file that gives none.
pub open spec fn gathered_mappings(files: Seq<ComposerFileView>) -> Result<
    Seq<MappingView>,
    IndexErrorView,
>
    decreases files.len(),
{
    if files.len() == 0 {
        Ok(Seq::empty())
    } else {
        match gathered_mappings(files.drop_last()) {
            Err(error) => Err(error),
            Ok(before) => {
                let file = files.last();
                match file.contents {
                    None => Err(IndexErrorView::Unreadable(file.path)),
                    Some(text) => match json_parsed(text) {
                        None => Err(IndexErrorView::Unparsable(file.path)),
                        Some(document) => Ok(
                            before + composer_mappings(
                                path_file_name(file.path) == Some("composer.json"@),
                                document,
                                composer_root(file.path),
                            ),
                        ),
                    },
                }
            },
        }
    }
}

/// The length of the prefix of a mapping in bytes.
pub open spec fn prefix_len(mapping: MappingView) -> nat {
    encode_utf8(mapping.prefix).len()
}

/// The predicate that holds of the mappings whose prefix has `n` bytes.
pub open spec fn has_prefix_len(n: nat) -> spec_fn(MappingView) -> bool {
    |m: MappingView| prefix_len(m) == n
}

/// No mapping stands behind one with a shorter prefix.
pub open spec fn longest_first(mappings: Seq<MappingView>) -> bool {
    forall|i: int, j: int|
        0 <= i < j < mappings.len() ==> prefix_len(#[trigger] mappings[i]) >= prefix_len(
            #[trigger] mappings[j],
        )
}

/// Both sequences have the same mappings, and those with prefixes of one length in one order.
pub open spec fn same_by_length(a: Seq<MappingView>, b: Seq<MappingView>) -> bool {
    forall|n: nat| #[trigger] a.filter(has_prefix_len(n)) == b.filter(has_prefix_len(n))
}

/// `mappings` with the longest prefixes first, and those with prefixes of one length in the order
/// that they have.
pub open spec fn ordered_mappings(mappings: Seq<MappingView>) -> Seq<MappingView> {
    choose|ordered: Seq<MappingView>|
        longest_first(ordered) && #[trigger] same_by_length(ordered, mappings)
}

/// There is one order at most that has the longest prefixes first and keeps the order of those of
/// one length.
pub proof fn lemma_one_order(a: Seq<MappingView>, b: Seq<MappingView>)
    requires
        longest_first(a),
        longest_first(b),
        same_by_length(a, b),
    ensures
        a == b,
    decreases a.len(),
{
    if a.len() == 0 || b.len() == 0 {
        if b.len() > 0 {
            lemma_last_of_length(b);
            assert(a.filter(has_prefix_len(prefix_len(b.last()))) == b.filter(
                has_prefix_len(prefix_len(b.last())),
            ));
            lemma_filter_none(a, prefix_len(b.last()));
        }
        if a.len() > 0 {
            lemma_last_of_length(a);
            assert(a.filter(has_prefix_len(prefix_len(a.last()))) == b.filter(
                has_prefix_len(prefix_len(a.last())),
            ));
            lemma_filter_none(b, prefix_len(a.last()));
        }
        assert(a =~= b);
    } else {
        let m = prefix_len(a.last());
        let n = prefix_len(b.last());
        lemma_last_of_length(a);
        lemma_last_of_length(b);
        assert(a.filter(has_prefix_len(m)) == b.filter(has_prefix_len(m)));
        assert(a.filter(has_prefix_len(n)) == b.filter(has_prefix_len(n)));
        if m < n {
            lemma_filter_none(b, m);
        } else if n < m {
            lemma_filter_none(a, n);
        }
        assert(a.last() == b.last());
        assert forall|k: nat| #[trigger]
            a.drop_last().filter(has_prefix_len(k)) == b.drop_last().filter(has_prefix_len(k)) by {
            assert(a.filter(has_prefix_len(k)) == b.filter(has_prefix_len(k)));
            reveal(Seq::filter);
            if k == m {
                assert(a.drop_last().filter(has_prefix_len(k)) =~= a.filter(
                    has_prefix_len(k),
                ).drop_last());
                assert(b.drop_last().filter(has_prefix_len(k)) =~= b.filter(
                    has_prefix_len(k),
                ).drop_last());
            }
        }
        lemma_one_order(a.drop_last(), b.drop_last());
        assert(a =~= a.drop_last().push(a.last()));
        assert(b =~= b.drop_last().push(b.last()));
    }
}

/// The last of the mappings whose prefix is as long as that of the last mapping is that mapping.
proof fn lemma_last_of_length(s: Seq<MappingView>)
    requires
        s.len() > 0,
    ensures
        s.filter(has_prefix_len(prefix_len(s.last()))).len() > 0,
        s.filter(has_prefix_len(prefix_len(s.last()))).last() == s.last(),
{
    reveal(Seq::filter);
}

/// Where below the directory of a prefix the file of a class lies, without its extension:
/// nowhere, where the name of the class does not start with the prefix.
pub open spec fn class_relative(class: Seq<char>, prefix: Seq<char>) -> Option<Seq<char>> {
    if prefix.is_prefix_of(class) {
        Some(with_slashes(without_leading_backslashes(class.skip(prefix.len() as int))))
    } else {
        None
    }
}

/// The PHP file that is named by a text below a directory.
pub open spec fn php_file(base: Seq<u8>, relative: Seq<char>) -> Seq<u8> {
    path_with_extension(joined_path(base, relative), "php"@)
}

/// The file that a mapping gives for a class.
pub open spec fn mapped_file(class: Seq<char>, mapping: MappingView) -> Option<Seq<u8>> {
    match class_relative(class, mapping.prefix) {
        Some(relative) => Some(php_file(mapping.base, relative)),
        None => None,
    }
}

/// The files that the mappings give for a class.
pub open spec fn mapped_files(class: Seq<char>, mappings: Seq<MappingView>) -> Seq<Seq<u8>> {
    mappings.filter_map(|m: MappingView| mapped_file(class, m))
}

/// The files that a class may lie in where no mapping leads to a file: one below the root of the
/// project, and one below its `src` directory.
pub open spec fn fallback_files(class: Seq<char>, root: Seq<u8>) -> Seq<Seq<u8>> {
    seq![
        php_file(root, with_slashes(class)),
        php_file(joined_path(root, "src"@), with_slashes(class)),
    ]
}

/// Those of `paths` that are marked as found; one without a mark is not.
pub open spec fn found_paths(paths: Seq<Seq<u8>>, found: Seq<bool>) -> Seq<Seq<u8>>
    decreases paths.len(),
{
    if paths.len() == 0 {
        paths
    } else {
        let before = found_paths(paths.drop_last(), found);
        if paths.len() <= found.len() && found[paths.len() - 1] {
            before.push(paths.last())
        } else {
            before
        }
    }
}

/// A path is found just where it is marked as found.
pub proof fn lemma_found_paths(paths: Seq<Seq<u8>>, found: Seq<bool>, path: Seq<u8>)
    ensures
        found_paths(paths, found).contains(path) <==> exists|i: int|
            0 <= i < paths.len() && i < found.len() && found[i] && #[trigger] paths[i] == path,
    decreases paths.len(),
{
    let kept = found_paths(paths, found);
    if paths.len() > 0 {
        let n = paths.len() - 1;
        let init = paths.drop_last();
        let before = found_paths(init, found);
        lemma_found_paths(init, found, path);
        if kept.contains(path) {
            let k = choose|k: int| 0 <= k < kept.len() && kept[k] == path;
            if k < before.len() {
                assert(before[k] == path);
                let i = choose|i: int|
                    0 <= i < init.len() && i < found.len() && found[i] && #[trigger] init[i]
                        == path;
                assert(paths[i] == path);
            } else {
                assert(paths[n] == path);
            }
        }
        if exists|i: int|
            0 <= i < paths.len() && i < found.len() && found[i] && #[trigger] paths[i] == path {
            let i = choose|i: int|
                0 <= i < paths.len() && i < found.len() && found[i] && #[trigger] paths[i] == path;
            if i < n {
                assert(init[i] == path);
                let k = choose|k: int| 0 <= k < before.len() && before[k] == path;
                assert(kept[k] == path);
            } else {
                assert(kept[before.len() as int] == path);
            }
        }
    }
}

/// The files that a context has: those that the mappings lead to, or else those of the fallback.
pub open spec fn files_of_context(candidates: CandidatesView, found: FoundView) -> Seq<Seq<u8>> {
    if found_paths(candidates.mapped, found.mapped).len() > 0 {
        found_paths(candidates.mapped, found.mapped)
    } else {
        found_paths(candidates.fallback, found.fallback)
    }
}

/// The files that may hold a context class.
#[derive(Debug)]
pub struct ContextCandidates {
    pub context: String,
    /// The files that the mappings give.
    pub mapped: Vec<PathBuf>,
    /// The files to look at where none of those exists.
    pub fallback: Vec<PathBuf>,
}

/// What a `ContextCandidates` says.
pub struct CandidatesView {
    pub context: Seq<char>,
    pub mapped: Seq<Seq<u8>>,
    pub fallback: Seq<Seq<u8>>,
}

impl DeepView for ContextCandidates {
    type V = CandidatesView;

    open spec fn deep_view(&self) -> CandidatesView {
        CandidatesView {
            context: self.context@,
            mapped: bytes_of_paths(self.mapped@),
            fallback: bytes_of_paths(self.fallback@),
        }
    }
}

/// The files that may hold a context class.
pub open spec fn candidates_of(
    context: Seq<char>,
    root: Seq<u8>,
    mappings: Seq<MappingView>,
) -> CandidatesView {
    CandidatesView {
        context,
        mapped: mapped_files(without_leading_backslashes(context), mappings),
        fallback: fallback_files(without_leading_backslashes(context), root),
    }
}

/// Which of the files of a `ContextCandidates` exist, each list in the order of the files. A file
/// without a mark does not exist.
#[derive(Debug)]
pub struct FoundFiles {
    pub mapped: Vec<bool>,
    pub fallback: Vec<bool>,
}

/// What a `FoundFiles` says.
pub struct FoundView {
    pub mapped: Seq<bool>,
    pub fallback: Seq<bool>,
}

impl DeepView for FoundFiles {
    type V = FoundView;

    open spec fn deep_view(&self) -> FoundView {
        FoundView { mapped: self.mapped@, fallback: self.fallback@ }
    }
}

/// Which of the candidates exist, where `on_disk` holds of the paths that do.
pub open spec fn existing_files(
    candidates: CandidatesView,
    on_disk: spec_fn(Seq<u8>) -> bool,
) -> FoundView {
    FoundView {
        mapped: candidates.mapped.map_values(on_disk),
        fallback: candidates.fallback.map_values(on_disk),
    }
}

/// Whether two sequences have the same mappings, in whatever order and however often.
pub open spec fn same_mappings(a: Seq<MappingView>, b: Seq<MappingView>) -> bool {
    forall|m: MappingView| a.contains(m) <==> b.contains(m)
}

/// A mapping that leads to a file has it among the files of all the mappings, and the other way
/// round.
pub proof fn lemma_mapped_files(class: Seq<char>, mappings: Seq<MappingView>, path: Seq<u8>)
    ensures
        mapped_files(class, mappings).contains(path) <==> exists|m: MappingView| #[trigger]
            mappings.contains(m) && mapped_file(class, m) == Some(path),
    decreases mappings.len(),
{
    let file_of = |m: MappingView| mapped_file(class, m);
    let all = mapped_files(class, mappings);
    if all.contains(path) {
        mappings.lemma_filter_map_contains(file_of, path);
        let m = choose|m: MappingView| #[trigger]
            mappings.contains(m) && file_of(m) == Some(path);
        assert(mappings.contains(m) && mapped_file(class, m) == Some(path));
    }
    if exists|m: MappingView| #[trigger]
        mappings.contains(m) && mapped_file(class, m) == Some(path) {
        let m = choose|m: MappingView| #[trigger]
            mappings.contains(m) && mapped_file(class, m) == Some(path);
        let k = choose|k: int| 0 <= k < mappings.len() && mappings[k] == m;
        let n = mappings.len() - 1;
        let init = mappings.drop_last();
        let before = mapped_files(class, init);
        lemma_mapped_files(class, init, path);
        assert(mappings.take(n) =~= init);
        assert(mappings.take(n + 1) =~= mappings);
        mappings.lemma_filter_map_take_succ(file_of, n);
        if k < n {
            assert(init[k] == m);
            assert(init.contains(m));
            let i = choose|i: int| 0 <= i < before.len() && before[i] == path;
            assert(all[i] == path);
        } else {
            assert(all[before.len() as int] == path);
        }
    }
}

/// Of `paths`, those are found that exist.
proof fn lemma_existing_paths(
    paths: Seq<Seq<u8>>,
    on_disk: spec_fn(Seq<u8>) -> bool,
    path: Seq<u8>,
)
    ensures
        found_paths(paths, paths.map_values(on_disk)).contains(path) <==> paths.contains(path)
            && on_disk(path),
{
    let found = paths.map_values(on_disk);
    lemma_found_paths(paths, found, path);
    if paths.contains(path) && on_disk(path) {
        let i = choose|i: int| 0 <= i < paths.len() && paths[i] == path;
        assert(found[i] && paths[i] == path);
    }
}

/// The files of a context go by which mappings there are, not by how often or in what order they
/// come, and by the name of the class, not by the backslashes before it.
pub proof fn lemma_same_files(
    context_a: Seq<char>,
    context_b: Seq<char>,
    root: Seq<u8>,
    mappings_a: Seq<MappingView>,
    mappings_b: Seq<MappingView>,
    on_disk: spec_fn(Seq<u8>) -> bool,
    path: Seq<u8>,
)
    requires
        without_leading_backslashes(context_a) == without_leading_backslashes(context_b),
        same_mappings(mappings_a, mappings_b),
    ensures
        ({
            let a = candidates_of(context_a, root, mappings_a);
            let b = candidates_of(context_b, root, mappings_b);
            files_of_context(a, existing_files(a, on_disk)).contains(path) <==> files_of_context(
                b,
                existing_files(b, on_disk),
            ).contains(path)
        }),
{
    let class = without_leading_backslashes(context_a);
    let a = candidates_of(context_a, root, mappings_a);
    let b = candidates_of(context_b, root, mappings_b);
    let kept_a = found_paths(a.mapped, existing_files(a, on_disk).mapped);
    let kept_b = found_paths(b.mapped, existing_files(b, on_disk).mapped);
    assert forall|p: Seq<u8>| kept_a.contains(p) <==> kept_b.contains(p) by {
        lemma_existing_paths(a.mapped, on_disk, p);
        lemma_existing_paths(b.mapped, on_disk, p);
        lemma_mapped_files(class, mappings_a, p);
        lemma_mapped_files(class, mappings_b, p);
        if a.mapped.contains(p) {
            let m = choose|m: MappingView| #[trigger]
                mappings_a.contains(m) && mapped_file(class, m) == Some(p);
            assert(mappings_b.contains(m));
        }
        if b.mapped.contains(p) {
            let m = choose|m: MappingView| #[trigger]
                mappings_b.contains(m) && mapped_file(class, m) == Some(p);
            assert(mappings_a.contains(m));
        }
    }
    if kept_a.len() > 0 {
        assert(kept_a.contains(kept_a[0]));
    }
    if kept_b.len() > 0 {
        assert(kept_b.contains(kept_b[0]));
    }
}

/// What a context resolves to stays the same, path for path, where its mappings come in another
/// order or more or less often, or where its name has more or fewer backslashes before it, as long
/// as the same paths exist.
pub proof fn lemma_same_resolution(
    context_a: Seq<char>,
    context_b: Seq<char>,
    root: Seq<u8>,
    mappings_a: Seq<MappingView>,
    mappings_b: Seq<MappingView>,
    on_disk: spec_fn(Seq<u8>) -> bool,
    resolved_a: Seq<Seq<u8>>,
    resolved_b: Seq<Seq<u8>>,
)
    requires
        without_leading_backslashes(context_a) == without_leading_backslashes(context_b),
        same_mappings(mappings_a, mappings_b),
        ({
            let a = candidates_of(context_a, root, mappings_a);
            is_sorted_listing(resolved_a, files_of_context(a, existing_files(a, on_disk)))
        }),
        ({
            let b = candidates_of(context_b, root, mappings_b);
            is_sorted_listing(resolved_b, files_of_context(b, existing_files(b, on_disk)))
        }),
    ensures
        path_classes(resolved_a) == path_classes(resolved_b),
{
    let a = candidates_of(context_a, root, mappings_a);
    let b = candidates_of(context_b, root, mappings_b);
    let files_a = files_of_context(a, existing_files(a, on_disk));
    let files_b = files_of_context(b, existing_files(b, on_disk));
    assert forall|path: Seq<u8>| files_a.contains(path) <==> files_b.contains(path) by {
        lemma_same_files(context_a, context_b, root, mappings_a, mappings_b, on_disk, path);
    }
    assert forall|class: Seq<u8>| has_class(files_a, class) <==> has_class(files_b, class) by {
        if has_class(files_a, class) {
            let i = choose|i: int|
                0 <= i < files_a.len() && path_class(#[trigger] files_a[i]) == class;
            assert(files_b.contains(files_a[i]));
            let k = choose|k: int| 0 <= k < files_b.len() && files_b[k] == files_a[i];
            assert(path_class(files_b[k]) == class);
        }
        if has_class(files_b, class) {
            let i = choose|i: int|
                0 <= i < files_b.len() && path_class(#[trigger] files_b[i]) == class;
            assert(files_a.contains(files_b[i]));
            let k = choose|k: int| 0 <= k < files_a.len() && files_a[k] == files_b[i];
            assert(path_class(files_a[k]) == class);
        }
    }
    lemma_one_listing(resolved_a, files_a, resolved_b, files_b);
}

/// A backslash more before the name of a context leaves its candidates as they are.
pub proof fn lemma_backslash_before_context(
    context: Seq<char>,
    root: Seq<u8>,
    mappings: Seq<MappingView>,
)
    ensures
        without_leading_backslashes(seq!['\\'] + context) == without_leading_backslashes(context),
        candidates_of(seq!['\\'] + context, root, mappings) == (CandidatesView {
            context: seq!['\\'] + context,
            ..candidates_of(context, root, mappings)
        }),
{
    let longer = seq!['\\'] + context;
    assert(longer.skip(1) =~= context);
}

/// Putting the longest prefixes first neither adds nor drops a mapping.
pub proof fn lemma_ordering_keeps_mappings(mappings: Seq<MappingView>)
    ensures
        same_mappings(ordered_mappings(mappings), mappings),
{
    let ordered = ordered_mappings(mappings);
    lemma_ordered_mappings(mappings);
    assert forall|m: MappingView| ordered.contains(m) <==> mappings.contains(m) by {
        let pred = has_prefix_len(prefix_len(m));
        assert(ordered.filter(pred) == mappings.filter(pred));
        if ordered.contains(m) {
            let i = choose|i: int| 0 <= i < ordered.len() && ordered[i] == m;
            ordered.lemma_filter_contains(pred, i);
            mappings.lemma_filter_contains_rev(pred, m);
        }
        if mappings.contains(m) {
            let i = choose|i: int| 0 <= i < mappings.len() && mappings[i] == m;
            mappings.lemma_filter_contains(pred, i);
            ordered.lemma_filter_contains_rev(pred, m);
        }
    }
}

/// Appends the mappings that an entry of a `psr-4` object stands for.
fn collect_entry(prefix: &str, paths: &Json, base: &PathBuf, out: &mut Vec<Psr4Mapping>)
    ensures
        final(out).deep_view() == old(out).deep_view() + entry_mappings(
            prefix@,
            json_tree(*paths),
            path_bytes(*base),
        ),
{
    let ghost b = path_bytes(*base);
    let ghost mapping = |path: Seq<char>| directory_mapping(prefix@, b, path);
    match paths {
        Json::Text(path) => {
            let m = Psr4Mapping {
                prefix: strip_leading_backslashes(prefix),
                base: join_path(base, path.as_str()),
            };
            out.push(m);
            assert(out.deep_view() =~= old(out).deep_view() + seq![path@].map_values(mapping));
        },
        Json::Array(items) => {
            let ghost trees = json_tree(*paths)->Array_0;
            let ghost text_of = |item: JsonTree|
                match item {
                    JsonTree::Text(path) => Some(path),
                    _ => None,
                };
            let mut i: usize = 0;
            assert(trees.take(0) =~= Seq::empty());
            assert(out.deep_view() =~= old(out).deep_view() + trees.take(0).filter_map(
                text_of,
            ).map_values(mapping));
            while i < items.len()
                invariant
                    i <= items@.len(),
                    *paths == Json::Array(*items),
                    trees == json_tree(*paths)->Array_0,
                    trees.len() == items@.len(),
                    b == path_bytes(*base),
                    mapping == (|path: Seq<char>| directory_mapping(prefix@, b, path)),
                    text_of == (|item: JsonTree|
                        match item {
                            JsonTree::Text(path) => Some(path),
                            _ => None,
                        }),
                    out.deep_view() == old(out).deep_view() + trees.take(i as int).filter_map(
                        text_of,
                    ).map_values(mapping),
                decreases items@.len() - i,
            {
                let ghost before = out.deep_view();
                proof {
                    trees.lemma_filter_map_take_succ(text_of, i as int);
                    assert(trees[i as int] == json_tree(items@[i as int]));
                }
                if let Json::Text(path) = &items[i] {
                    let m = Psr4Mapping {
                        prefix: strip_leading_backslashes(prefix),
                        base: join_path(base, path.as_str()),
                    };
                    out.push(m);
                    assert(out.deep_view() =~= before.push(mapping(path@)));
                }
                i += 1;
                assert(out.deep_view() =~= old(out).deep_view() + trees.take(i as int).filter_map(
                    text_of,
                ).map_values(mapping));
            }
            assert(trees.take(i as int) =~= trees);
        },
        _ => {
            assert(out.deep_view() =~= old(out).deep_view() + Seq::<Seq<char>>::empty().map_values(
                mapping,
            ));
        },
    }
}

/// Appends the mappings that the `psr-4` object of `autoload` stands for, with directories below
/// `base`.
pub fn collect_psr4_from_package(
    autoload: Option<&Json>,
    base: &PathBuf,
    out: &mut Vec<Psr4Mapping>,
)
    ensures
        final(out).deep_view() == old(out).deep_view() + package_mappings(
            opt_tree(autoload),
            path_bytes(*base),
        ),
{
    let ghost b = path_bytes(*base);
    let ghost entry = |m: (Seq<char>, JsonTree)| entry_mappings(m.0, m.1, b);
    let psr4 = match autoload {
        Some(value) => value.get("psr-4"),
        None => None,
    };
    if let Some(Json::Object(members)) = psr4 {
        let ghost trees = json_tree(Json::Object(*members))->Object_0;
        let mut i: usize = 0;
        assert(trees.take(0) =~= Seq::empty());
        assert(out.deep_view() =~= old(out).deep_view() + trees.take(0).flat_map(entry));
        while i < members.len()
            invariant
                i <= members@.len(),
                trees == json_tree(Json::Object(*members))->Object_0,
                trees.len() == members@.len(),
                b == path_bytes(*base),
                entry == (|m: (Seq<char>, JsonTree)| entry_mappings(m.0, m.1, b)),
                out.deep_view() == old(out).deep_view() + trees.take(i as int).flat_map(entry),
            decreases members@.len() - i,
        {
            proof {
                trees.lemma_flat_map_take_append(entry, i as int);
                assert(trees[i as int] == (
                    members@[i as int].0@,
                    json_tree(members@[i as int].1),
                ));
            }
            collect_entry(members[i].0.as_str(), &members[i].1, base, out);
            i += 1;
            assert(out.deep_view() =~= old(out).deep_view() + trees.take(i as int).flat_map(
                entry,
            ));
        }
        assert(trees.take(i as int) =~= trees);
    } else {
        assert(out.deep_view() =~= old(out).deep_view() + Seq::empty());
    }
}

/// Appends the mappings for use and for development that a package has.
fn collect_autoload(package: &Json, base: &PathBuf, out: &mut Vec<Psr4Mapping>)
    ensures
        final(out).deep_view() == old(out).deep_view() + autoload_mappings(
            json_tree(*package),
            path_bytes(*base),
        ),
{
    collect_psr4_from_package(package.get("autoload"), base, out);
    collect_psr4_from_package(package.get("autoload-dev"), base, out);
    assert(out.deep_view() =~= old(out).deep_view() + autoload_mappings(
        json_tree(*package),
        path_bytes(*base),
    ));
}

/// Appends the mappings of the packages that a lock file lists in `section`.
fn collect_section(lock: &Json, section: &str, root: &PathBuf, out: &mut Vec<Psr4Mapping>)
    ensures
        final(out).deep_view() == old(out).deep_view() + section_mappings(
            json_tree(*lock),
            section@,
            path_bytes(*root),
        ),
{
    let ghost r = path_bytes(*root);
    let ghost of_package = |package: JsonTree| locked_package_mappings(package, r);
    if let Some(Json::Array(packages)) = lock.get(section) {
        let ghost trees = json_tree(Json::Array(*packages))->Array_0;
        let mut i: usize = 0;
        assert(trees.take(0) =~= Seq::empty());
        assert(out.deep_view() =~= old(out).deep_view() + trees.take(0).flat_map(of_package));
        while i < packages.len()
            invariant
                i <= packages@.len(),
                trees == json_tree(Json::Array(*packages))->Array_0,
                trees.len() == packages@.len(),
                r == path_bytes(*root),
                of_package == (|package: JsonTree| locked_package_mappings(package, r)),
                out.deep_view() == old(out).deep_view() + trees.take(i as int).flat_map(
                    of_package,
                ),
            decreases packages@.len() - i,
        {
            let ghost before = out.deep_view();
            let package = &packages[i];
            proof {
                trees.lemma_flat_map_take_append(of_package, i as int);
                assert(trees[i as int] == json_tree(packages@[i as int]));
            }
            if let Some(Json::Text(name)) = package.get("name") {
                let vendor = join_path(root, "vendor");
                let base = join_path(&vendor, name.as_str());
                collect_autoload(package, &base, out);
            }
            assert(out.deep_view() =~= before + locked_package_mappings(trees[i as int], r));
            i += 1;
            assert(out.deep_view() =~= old(out).deep_view() + trees.take(i as int).flat_map(
                of_package,
            ));
        }
        assert(trees.take(i as int) =~= trees);
    } else {
        assert(out.deep_view() =~= old(out).deep_view() + Seq::empty());
    }
}

/// Appends the mappings of all the packages that a lock file lists.
pub fn collect_psr4_from_lock(value: &Json, root: &PathBuf, out: &mut Vec<Psr4Mapping>)
    ensures
        final(out).deep_view() == old(out).deep_view() + lock_mappings(
            json_tree(*value),
            path_bytes(*root),
        ),
{
    collect_section(value, "packages", root, out);
    collect_section(value, "packages-dev", root, out);
    assert(out.deep_view() =~= old(out).deep_view() + lock_mappings(
        json_tree(*value),
        path_bytes(*root),
    ));
}

/// Appends the mappings that a Composer document stands for.
pub fn collect_composer(
    is_manifest: bool,
    document: &Json,
    root: &PathBuf,
    out: &mut Vec<Psr4Mapping>,
)
    ensures
        final(out).deep_view() == old(out).deep_view() + composer_mappings(
            is_manifest,
            json_tree(*document),
            path_bytes(*root),
        ),
{
    if is_manifest {
        collect_autoload(document, root, out);
    } else {
        collect_psr4_from_lock(document, root, out);
    }
}

/// The length of the prefix of a mapping in bytes.
fn prefix_bytes(mapping: &Psr4Mapping) -> (n: usize)
    ensures
        n == prefix_len(mapping.deep_view()),
{
    mapping.prefix.as_str().as_bytes().len()
}

proof fn lemma_filter_none(s: Seq<MappingView>, n: nat)
    requires
        forall|i: int| 0 <= i < s.len() ==> prefix_len(#[trigger] s[i]) != n,
    ensures
        s.filter(has_prefix_len(n)) == Seq::<MappingView>::empty(),
{
    assert(s.all(|m: MappingView| !has_prefix_len(n)(m)));
    s.lemma_all_neg_filter_empty(has_prefix_len(n));
    assert(s.filter(has_prefix_len(n)) =~= Seq::empty());
}

/// Moving a mapping up past those with shorter prefixes keeps the order of those with prefixes of
/// one length. Where those before it had the longest first, they have it with the mapping too.
proof fn lemma_move_up(before: Seq<MappingView>, from: int, to: int)
    requires
        0 <= to <= from < before.len(),
        longest_first(before.take(from)),
        to > 0 ==> prefix_len(before[to - 1]) >= prefix_len(before[from]),
        forall|k: int|
            to <= k < from ==> prefix_len(#[trigger] before[k]) < prefix_len(before[from]),
    ensures
        same_by_length(before.remove(from).insert(to, before[from]), before),
        longest_first(before.remove(from).insert(to, before[from]).take(from + 1)),
{
    lemma_move_up_order(before, from, to);
    let moved = seq![before[from]];
    let head = before.take(to);
    let passed = before.subrange(to, from);
    let tail = before.skip(from + 1);
    let after = before.remove(from).insert(to, before[from]);
    assert(before =~= head + passed + moved + tail);
    assert(after =~= head + moved + passed + tail);
    assert forall|n: nat| #[trigger] after.filter(has_prefix_len(n)) == before.filter(
        has_prefix_len(n),
    ) by {
        let pred = has_prefix_len(n);
        Seq::filter_distributes_over_add(head + passed + moved, tail, pred);
        Seq::filter_distributes_over_add(head + passed, moved, pred);
        Seq::filter_distributes_over_add(head, passed, pred);
        Seq::filter_distributes_over_add(head + moved + passed, tail, pred);
        Seq::filter_distributes_over_add(head + moved, passed, pred);
        Seq::filter_distributes_over_add(head, moved, pred);
        if n == prefix_len(before[from]) {
            assert forall|i: int| 0 <= i < passed.len() implies prefix_len(#[trigger] passed[i])
                != n by {
                assert(passed[i] == before[to + i]);
            }
            lemma_filter_none(passed, n);
        } else {
            lemma_filter_none(moved, n);
        }
        assert(after.filter(pred) =~= before.filter(pred));
    }
}

proof fn lemma_move_up_order(before: Seq<MappingView>, from: int, to: int)
    requires
        0 <= to <= from < before.len(),
        longest_first(before.take(from)),
        to > 0 ==> prefix_len(before[to - 1]) >= prefix_len(before[from]),
        forall|k: int|
            to <= k < from ==> prefix_len(#[trigger] before[k]) < prefix_len(before[from]),
    ensures
        longest_first(before.remove(from).insert(to, before[from]).take(from + 1)),
{
    let sorted = before.take(from);
    let after = before.remove(from).insert(to, before[from]).take(from + 1);
    assert forall|a: int, b: int| 0 <= a < b < after.len() implies prefix_len(#[trigger] after[a])
        >= prefix_len(#[trigger] after[b]) by {
        let x = if a < to {
            a
        } else {
            a - 1
        };
        let y = if b < to {
            b
        } else {
            b - 1
        };
        if a != to && b != to {
            assert(after[a] == sorted[x]);
            assert(after[b] == sorted[y]);
        } else if a == to {
            assert(after[b] == before[y]);
        } else {
            assert(after[a] == sorted[x]);
            if a < to - 1 {
                assert(prefix_len(sorted[a]) >= prefix_len(sorted[to - 1]));
            }
        }
    }
}

/// Where in mappings that have the longest prefixes first another one has its place.
proof fn lemma_place(sorted: Seq<MappingView>, length: nat) -> (to: int)
    requires
        longest_first(sorted),
    ensures
        0 <= to <= sorted.len(),
        to > 0 ==> prefix_len(sorted[to - 1]) >= length,
        forall|k: int| to <= k < sorted.len() ==> prefix_len(#[trigger] sorted[k]) < length,
    decreases sorted.len(),
{
    if sorted.len() == 0 || prefix_len(sorted.last()) >= length {
        sorted.len() as int
    } else {
        let to = lemma_place(sorted.drop_last(), length);
        assert forall|k: int| to <= k < sorted.len() implies prefix_len(#[trigger] sorted[k])
            < length by {
            if k < sorted.len() - 1 {
                assert(sorted.drop_last()[k] == sorted[k]);
            }
        }
        to
    }
}

/// Whatever the mappings are, they can be ordered: the longest prefixes first, and those of one
/// length as they were.
pub proof fn lemma_ordered_mappings(mappings: Seq<MappingView>)
    ensures
        longest_first(ordered_mappings(mappings)),
        same_by_length(ordered_mappings(mappings), mappings),
    decreases mappings.len(),
{
    if mappings.len() == 0 {
        assert(longest_first(mappings) && same_by_length(mappings, mappings));
    } else {
        let init = mappings.drop_last();
        let last = mappings.last();
        lemma_ordered_mappings(init);
        let sorted = ordered_mappings(init);
        let before = sorted.push(last);
        let to = lemma_place(sorted, prefix_len(last));
        assert(before.take(sorted.len() as int) =~= sorted);
        assert forall|k: int| to <= k < sorted.len() implies prefix_len(#[trigger] before[k])
            < prefix_len(last) by {
            assert(before[k] == sorted[k]);
        }
        lemma_move_up(before, sorted.len() as int, to);
        let after = before.remove(sorted.len() as int).insert(to, last);
        assert(after.take(sorted.len() as int + 1) =~= after);
        assert forall|n: nat| #[trigger] after.filter(has_prefix_len(n)) == mappings.filter(
            has_prefix_len(n),
        ) by {
            assert(after.filter(has_prefix_len(n)) == before.filter(has_prefix_len(n)));
            assert(sorted.filter(has_prefix_len(n)) == init.filter(has_prefix_len(n)));
            assert(before.drop_last() =~= sorted);
            reveal(Seq::filter);
        }
        assert(longest_first(after) && same_by_length(after, mappings));
    }
}

/// Puts the mappings with the longest prefixes first, and leaves those with prefixes of one length
/// in the order that they have.
pub fn sort_longest_first(mappings: &mut Vec<Psr4Mapping>)
    ensures
        longest_first(final(mappings).deep_view()),
        same_by_length(final(mappings).deep_view(), old(mappings).deep_view()),
        final(mappings).deep_view() == ordered_mappings(old(mappings).deep_view()),
{
    let mut i: usize = 0;
    while i < mappings.len()
        invariant
            i <= mappings@.len(),
            longest_first(mappings.deep_view().take(i as int)),
            same_by_length(mappings.deep_view(), old(mappings).deep_view()),
        decreases mappings@.len() - i,
    {
        let ghost before = mappings.deep_view();
        let length = prefix_bytes(&mappings[i]);
        let mut to: usize = i;
        while to > 0 && prefix_bytes(&mappings[to - 1]) < length
            invariant
                to <= i < mappings@.len(),
                before == mappings.deep_view(),
                length == prefix_len(before[i as int]),
                forall|k: int| to <= k < i ==> prefix_len(#[trigger] before[k]) < length,
            decreases to,
        {
            to -= 1;
        }
        proof {
            lemma_move_up(before, i as int, to as int);
        }
        let mapping = mappings.remove(i);
        mappings.insert(to, mapping);
        assert(mappings.deep_view() =~= before.remove(i as int).insert(
            to as int,
            before[i as int],
        ));
        i += 1;
    }
    proof {
        let sorted = mappings.deep_view();
        assert(sorted.take(i as int) =~= sorted);
        let ordered = ordered_mappings(old(mappings).deep_view());
        lemma_ordered_mappings(old(mappings).deep_view());
        assert(same_by_length(sorted, ordered)) by {
            assert forall|n: nat| #[trigger] sorted.filter(has_prefix_len(n)) == ordered.filter(
                has_prefix_len(n),
            ) by {
                assert(ordered.filter(has_prefix_len(n)) == old(mappings).deep_view().filter(
                    has_prefix_len(n),
                ));
            }
        }
        lemma_one_order(sorted, ordered);
    }
}

/// The mappings of Composer files, those with the longest prefixes first.
pub fn build_psr4_map(files: &Vec<ComposerFile>) -> (mappings: Result<
    Vec<Psr4Mapping>,
    IndexError,
>)
    ensures
        match (mappings, gathered_mappings(files.deep_view())) {
            (Ok(found), Ok(all)) => found.deep_view() == ordered_mappings(all) && longest_first(
                found.deep_view(),
            ) && same_by_length(found.deep_view(), all),
            (Err(error), Err(expected)) => error.deep_view() == expected,
            _ => false,
        },
{
    let ghost all = files.deep_view();
    let mut mappings: Vec<Psr4Mapping> = Vec::new();
    let mut i: usize = 0;
    assert(mappings.deep_view() =~= Seq::empty());
    assert(all.take(all.len() as int) =~= all);
    while i < files.len()
        invariant
            i <= files@.len(),
            all == files.deep_view(),
            gathered_mappings(all.take(i as int)) == Ok::<_, IndexErrorView>(
                mappings.deep_view(),
            ),
        decreases files@.len() - i,
    {
        let file = &files[i];
        let ghost upto = all.take(i + 1);
        assert(upto.drop_last() =~= all.take(i as int));
        assert(upto.last() == file.deep_view());
        let contents = match &file.contents {
            Some(contents) => contents,
            None => {
                proof {
                    lemma_first_error(all, i + 1);
                }
                return Err(IndexError::Unreadable(copy_path(&file.path)));
            },
        };
        let document = match parse_json(contents.as_str()) {
            Ok(document) => document,
            Err(_) => {
                proof {
                    lemma_first_error(all, i + 1);
                }
                return Err(IndexError::Unparsable(copy_path(&file.path)));
            },
        };
        let root = match parent_of(&file.path) {
            Some(parent) => parent,
            None => path_of_text("."),
        };
        let is_manifest = match file_name_of(&file.path) {
            Some(name) => same_text(name.as_str(), "composer.json"),
            None => false,
        };
        collect_composer(is_manifest, &document, &root, &mut mappings);
        i += 1;
    }
    sort_longest_first(&mut mappings);
    Ok(mappings)
}

/// What is wrong with one of the first files is wrong with all of them.
proof fn lemma_first_error(files: Seq<ComposerFileView>, n: int)
    requires
        0 <= n <= files.len(),
        gathered_mappings(files.take(n)) is Err,
    ensures
        gathered_mappings(files) == gathered_mappings(files.take(n)),
    decreases files.len(),
{
    if n == files.len() {
        assert(files.take(n) =~= files);
    } else {
        assert(files.drop_last().take(n) =~= files.take(n));
        lemma_first_error(files.drop_last(), n);
    }
}

/// Where below the directory of a prefix the file of a class lies, without its extension.
pub fn relative_class_path(class: &str, prefix: &str) -> (relative: Option<String>)
    ensures
        relative.deep_view() == class_relative(class@, prefix@),
{
    match strip_start(class, prefix) {
        Some(rest) => {
            let rest = strip_leading_backslashes(rest.as_str());
            Some(backslashes_to_slashes(rest.as_str()))
        },
        None => None,
    }
}

/// The PHP file that is named by a text below a directory.
fn php_file_below(base: &PathBuf, relative: &str) -> (path: PathBuf)
    ensures
        path_bytes(path) == php_file(path_bytes(*base), relative@),
{
    proof {
        reveal_strlit("php");
    }
    let path = join_path(base, relative);
    set_extension(&path, "php")
}

/// The files that may hold a context class.
pub fn context_candidates(context: &str, root: &PathBuf, mappings: &Vec<Psr4Mapping>) -> (found:
    ContextCandidates)
    ensures
        found.deep_view() == candidates_of(context@, path_bytes(*root), mappings.deep_view()),
{
    let class = normalize_class_name(context);
    let ghost all = mappings.deep_view();
    let ghost file_of = |m: MappingView| mapped_file(class@, m);
    let mut mapped: Vec<PathBuf> = Vec::new();
    let mut i: usize = 0;
    assert(all.take(0) =~= Seq::empty());
    assert(bytes_of_paths(mapped@) =~= all.take(0).filter_map(file_of));
    while i < mappings.len()
        invariant
            i <= mappings@.len(),
            all == mappings.deep_view(),
            file_of == (|m: MappingView| mapped_file(class@, m)),
            bytes_of_paths(mapped@) == all.take(i as int).filter_map(file_of),
        decreases mappings@.len() - i,
    {
        let ghost before = bytes_of_paths(mapped@);
        let mapping = &mappings[i];
        proof {
            all.lemma_filter_map_take_succ(file_of, i as int);
            assert(all[i as int] == mapping.deep_view());
        }
        if let Some(relative) = relative_class_path(class.as_str(), mapping.prefix.as_str()) {
            let path = php_file_below(&mapping.base, relative.as_str());
            mapped.push(path);
            assert(bytes_of_paths(mapped@) =~= before.push(path_bytes(path)));
        }
        i += 1;
        assert(bytes_of_paths(mapped@) =~= all.take(i as int).filter_map(file_of));
    }
    assert(all.take(i as int) =~= all);
    let relative = backslashes_to_slashes(class.as_str());
    let mut fallback: Vec<PathBuf> = Vec::new();
    let direct = php_file_below(root, relative.as_str());
    let src = join_path(root, "src");
    let below_src = php_file_below(&src, relative.as_str());
    fallback.push(direct);
    fallback.push(below_src);
    assert(bytes_of_paths(fallback@) =~= fallback_files(class@, path_bytes(*root)));
    ContextCandidates { context: context.to_owned(), mapped, fallback }
}

/// Those of `paths` that are marked as found.
fn keep_found(paths: &Vec<PathBuf>, found: &Vec<bool>) -> (kept: Vec<PathBuf>)
    ensures
        bytes_of_paths(kept@) == found_paths(bytes_of_paths(paths@), found@),
{
    let ghost all = bytes_of_paths(paths@);
    let mut kept: Vec<PathBuf> = Vec::new();
    let mut i: usize = 0;
    assert(bytes_of_paths(kept@) =~= found_paths(all.take(0), found@));
    while i < paths.len()
        invariant
            i <= paths@.len(),
            all == bytes_of_paths(paths@),
            bytes_of_paths(kept@) == found_paths(all.take(i as int), found@),
        decreases paths@.len() - i,
    {
        let ghost before = bytes_of_paths(kept@);
        assert(all.take(i + 1).drop_last() =~= all.take(i as int));
        if i < found.len() && found[i] {
            kept.push(copy_path(&paths[i]));
            assert(bytes_of_paths(kept@) =~= before.push(all[i as int]));
        }
        i += 1;
    }
    assert(all.take(i as int) =~= all);
    kept
}

/// The files that a context has: those of the candidates that exist, in ascending order and each
/// once. The fallback counts only where no mapping leads to a file.
pub fn resolve_context_paths(candidates: &ContextCandidates, found: &FoundFiles) -> (paths: Vec<
    PathBuf,
>)
    ensures
        is_sorted_listing(
            bytes_of_paths(paths@),
            files_of_context(candidates.deep_view(), found.deep_view()),
        ),
{
    let mut paths = keep_found(&candidates.mapped, &found.mapped);
    assert(bytes_of_paths(paths@).len() == paths@.len());
    if paths.len() == 0 {
        paths = keep_found(&candidates.fallback, &found.fallback);
    }
    sort_and_dedup(&mut paths);
    paths
}

} // verus!
