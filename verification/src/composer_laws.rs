//! Which mappings Composer files make, and which files these lead to.

use vstd::prelude::*;

verus! {

use crate::index::located_contexts;
use crate::json::{json_parsed, member, tree_get, JsonTree};
use crate::paths::{
    has_class, in_class, is_sorted_listing, joined_path, path_at_most, path_class, path_file_name,
    path_parent, path_shown, path_with_extension,
};
use crate::psr4::{
    autoload_mappings, candidates_of, class_relative, composer_mappings, composer_root,
    directory_mapping, directory_texts, entry_mappings, error_text, fallback_files,
    files_of_context, found_paths, gathered_mappings, has_prefix_len, lemma_found_paths,
    lemma_mapped_files,
    lemma_ordered_mappings, lemma_ordering_keeps_mappings, lock_mappings, locked_package_mappings,
    mapped_file, mapped_files, ordered_mappings, package_mappings, section_mappings,
    CandidatesView, ComposerFileView, FoundView, IndexErrorView, MappingView,
};
use crate::sequences::{
    lemma_filter_map_add, lemma_filter_map_member, lemma_flat_map_add, lemma_flat_map_member,
    lemma_flat_map_one, lemma_in_sum,
};
use crate::text::{with_slashes, without_leading_backslashes};
use crate::text_laws::{is_stripped, lemma_slashes, lemma_stripped};
use vstd::utf8::encode_utf8;

/// Whether `value` is what the first member of an object with this key has.
pub open spec fn has_member(tree: JsonTree, key: Seq<char>, value: JsonTree) -> bool {
    tree matches JsonTree::Object(members) && exists|i: int|
        0 <= i < members.len() && #[trigger] members[i] == (key, value) && forall|j: int|
            0 <= j < i ==> (#[trigger] members[j]).0 != key
}

/// Whether a value names a directory: as a text, or as one of the texts of an array.
pub open spec fn names_directory(paths: JsonTree, directory: Seq<char>) -> bool {
    ||| paths == JsonTree::Text(directory)
    ||| paths matches JsonTree::Array(items) && exists|i: int|
        0 <= i < items.len() && #[trigger] items[i] == JsonTree::Text(directory)
}

/// Whether an entry of a `psr-4` object maps the prefix of a mapping to its directory below `base`.
pub open spec fn entry_maps(
    prefix: Seq<char>,
    paths: JsonTree,
    base: Seq<u8>,
    mapping: MappingView,
) -> bool {
    is_stripped(prefix, mapping.prefix) && exists|directory: Seq<char>| #[trigger]
        names_directory(paths, directory) && mapping.base == joined_path(base, directory)
}

/// Whether the `psr-4` object that a package has under `key` maps the prefix of a mapping to its
/// directory below `base`.
pub open spec fn package_maps(
    package: JsonTree,
    key: Seq<char>,
    base: Seq<u8>,
    mapping: MappingView,
) -> bool {
    exists|autoload: JsonTree, entries: Seq<(Seq<char>, JsonTree)>, i: int|
        #![trigger has_member(package, key, autoload), entries[i]]
        has_member(package, key, autoload) && has_member(
            autoload,
            "psr-4"@,
            JsonTree::Object(entries),
        ) && 0 <= i < entries.len() && entry_maps(entries[i].0, entries[i].1, base, mapping)
}

/// Whether a package that a lock file lists in `section` maps the prefix of a mapping to its
/// directory, under `key` and below the directory of the package.
pub open spec fn section_maps(
    lock: JsonTree,
    section: Seq<char>,
    key: Seq<char>,
    root: Seq<u8>,
    mapping: MappingView,
) -> bool {
    exists|packages: Seq<JsonTree>, i: int, name: Seq<char>|
        #![trigger has_member(lock, section, JsonTree::Array(packages)), has_member(packages[i], "name"@, JsonTree::Text(name))]
        has_member(lock, section, JsonTree::Array(packages)) && 0 <= i < packages.len()
            && has_member(packages[i], "name"@, JsonTree::Text(name)) && package_maps(
            packages[i],
            key,
            joined_path(joined_path(root, "vendor"@), name),
            mapping,
        )
}

/// Whether a lock file maps the prefix of a mapping to its directory: each of its two lists of
/// packages counts, and of each package what it loads in use and what it loads in development.
pub open spec fn lock_maps(lock: JsonTree, root: Seq<u8>, mapping: MappingView) -> bool {
    ||| section_maps(lock, "packages"@, "autoload"@, root, mapping)
    ||| section_maps(lock, "packages"@, "autoload-dev"@, root, mapping)
    ||| section_maps(lock, "packages-dev"@, "autoload"@, root, mapping)
    ||| section_maps(lock, "packages-dev"@, "autoload-dev"@, root, mapping)
}

/// Whether a manifest maps the prefix of a mapping to its directory.
pub open spec fn manifest_maps(manifest: JsonTree, root: Seq<u8>, mapping: MappingView) -> bool {
    ||| package_maps(manifest, "autoload"@, root, mapping)
    ||| package_maps(manifest, "autoload-dev"@, root, mapping)
}

/// A value has under a key what its first member with that key has, and nothing where it has no
/// such member.
pub proof fn lemma_tree_get(tree: JsonTree, key: Seq<char>, value: JsonTree)
    ensures
        tree_get(tree, key) == Some(value) <==> has_member(tree, key, value),
{
    if let JsonTree::Object(members) = tree {
        lemma_member(members, key, value);
    }
}

proof fn lemma_member(members: Seq<(Seq<char>, JsonTree)>, key: Seq<char>, value: JsonTree)
    ensures
        member(members, key) == Some(value) <==> exists|i: int|
            0 <= i < members.len() && #[trigger] members[i] == (key, value) && forall|j: int|
                0 <= j < i ==> (#[trigger] members[j]).0 != key,
    decreases members.len(),
{
    if members.len() > 0 {
        let tail = members.skip(1);
        lemma_member(tail, key, value);
        if members[0].0 == key {
            if member(members, key) == Some(value) {
                assert(members[0] == (key, value));
            }
        } else {
            if member(members, key) == Some(value) {
                let i = choose|i: int|
                    0 <= i < tail.len() && #[trigger] tail[i] == (key, value) && forall|j: int|
                        0 <= j < i ==> (#[trigger] tail[j]).0 != key;
                assert(members[i + 1] == (key, value));
                assert forall|j: int| 0 <= j < i + 1 implies (#[trigger] members[j]).0 != key by {
                    if j > 0 {
                        assert(tail[j - 1] == members[j]);
                    }
                }
            }
            if exists|i: int|
                0 <= i < members.len() && #[trigger] members[i] == (key, value) && forall|j: int|
                    0 <= j < i ==> (#[trigger] members[j]).0 != key {
                let i = choose|i: int|
                    0 <= i < members.len() && #[trigger] members[i] == (key, value) && forall|
                        j: int,
                    |
                        0 <= j < i ==> (#[trigger] members[j]).0 != key;
                assert(tail[i - 1] == (key, value));
                assert forall|j: int| 0 <= j < i - 1 implies (#[trigger] tail[j]).0 != key by {
                    assert(tail[j] == members[j + 1]);
                }
            }
        }
    }
}

proof fn lemma_directory_texts(paths: JsonTree, directory: Seq<char>)
    ensures
        directory_texts(paths).contains(directory) <==> names_directory(paths, directory),
{
    let texts = directory_texts(paths);
    match paths {
        JsonTree::Text(path) => {
            if texts.contains(directory) {
                let i = choose|i: int| 0 <= i < texts.len() && texts[i] == directory;
                assert(texts[i] == path);
            }
            if path == directory {
                assert(texts[0] == directory);
            }
        },
        JsonTree::Array(items) => {
            let text_of = |item: JsonTree|
                match item {
                    JsonTree::Text(path) => Some(path),
                    _ => None,
                };
            lemma_filter_map_member(items, text_of, directory);
            if exists|item: JsonTree| #[trigger]
                items.contains(item) && text_of(item) == Some(directory) {
                let item = choose|item: JsonTree| #[trigger]
                    items.contains(item) && text_of(item) == Some(directory);
                let i = choose|i: int| 0 <= i < items.len() && items[i] == item;
                assert(items[i] == JsonTree::Text(directory));
            }
            if names_directory(paths, directory) {
                let i = choose|i: int|
                    0 <= i < items.len() && #[trigger] items[i] == JsonTree::Text(directory);
                assert(items.contains(items[i]) && text_of(items[i]) == Some(directory));
            }
        },
        _ => {},
    }
}

proof fn lemma_entry(prefix: Seq<char>, paths: JsonTree, base: Seq<u8>, mapping: MappingView)
    ensures
        entry_mappings(prefix, paths, base).contains(mapping) <==> entry_maps(
            prefix,
            paths,
            base,
            mapping,
        ),
{
    let texts = directory_texts(paths);
    let all = entry_mappings(prefix, paths, base);
    lemma_stripped(prefix, mapping.prefix);
    if all.contains(mapping) {
        let i = choose|i: int| 0 <= i < all.len() && all[i] == mapping;
        lemma_directory_texts(paths, texts[i]);
        assert(texts.contains(texts[i]));
        assert(mapping == directory_mapping(prefix, base, texts[i]));
        assert(names_directory(paths, texts[i]));
    }
    if entry_maps(prefix, paths, base, mapping) {
        let directory = choose|directory: Seq<char>| #[trigger]
            names_directory(paths, directory) && mapping.base == joined_path(base, directory);
        lemma_directory_texts(paths, directory);
        let i = choose|i: int| 0 <= i < texts.len() && texts[i] == directory;
        assert(all[i] == mapping);
    }
}

/// The mappings of an `autoload` object are those of the entries of its `psr-4` object.
pub proof fn lemma_package_mappings(
    autoload: JsonTree,
    entries: Seq<(Seq<char>, JsonTree)>,
    base: Seq<u8>,
    mapping: MappingView,
)
    requires
        has_member(autoload, "psr-4"@, JsonTree::Object(entries)),
    ensures
        package_mappings(Some(autoload), base).contains(mapping) <==> exists|i: int|
            0 <= i < entries.len() && entry_maps(
                (#[trigger] entries[i]).0,
                entries[i].1,
                base,
                mapping,
            ),
{
    let entry = |m: (Seq<char>, JsonTree)| entry_mappings(m.0, m.1, base);
    lemma_tree_get(autoload, "psr-4"@, JsonTree::Object(entries));
    lemma_flat_map_member(entries, entry, mapping);
    if package_mappings(Some(autoload), base).contains(mapping) {
        let i = choose|i: int|
            0 <= i < entries.len() && entry(#[trigger] entries[i]).contains(mapping);
        lemma_entry(entries[i].0, entries[i].1, base, mapping);
    }
    if exists|i: int|
        0 <= i < entries.len() && entry_maps(
            (#[trigger] entries[i]).0,
            entries[i].1,
            base,
            mapping,
        ) {
        let i = choose|i: int|
            0 <= i < entries.len() && entry_maps(
                (#[trigger] entries[i]).0,
                entries[i].1,
                base,
                mapping,
            );
        lemma_entry(entries[i].0, entries[i].1, base, mapping);
        assert(entry(entries[i]).contains(mapping));
    }
}

/// The directories of an entry come in the order in which it names them.
pub proof fn lemma_directories_in_order(
    a: Seq<JsonTree>,
    b: Seq<JsonTree>,
    directory: Seq<char>,
    other: JsonTree,
)
    ensures
        directory_texts(JsonTree::Array(a + b)) == directory_texts(JsonTree::Array(a))
            + directory_texts(JsonTree::Array(b)),
        directory_texts(JsonTree::Array(seq![JsonTree::Text(directory)])) == seq![directory],
        !(other is Text) ==> directory_texts(JsonTree::Array(seq![other])) == Seq::<
            Seq<char>,
        >::empty(),
        directory_texts(JsonTree::Text(directory)) == seq![directory],
{
    let text_of = |item: JsonTree|
        match item {
            JsonTree::Text(path) => Some(path),
            _ => None,
        };
    lemma_filter_map_add(a, b, text_of);
    Seq::<JsonTree>::lemma_filter_map_singleton(JsonTree::Text(directory), text_of);
    Seq::<JsonTree>::lemma_filter_map_singleton(other, text_of);
}

/// An entry makes one mapping for each of its directories, in their order.
pub proof fn lemma_entry_in_order(prefix: Seq<char>, paths: JsonTree, base: Seq<u8>)
    ensures
        entry_mappings(prefix, paths, base).len() == directory_texts(paths).len(),
        forall|i: int|
            0 <= i < directory_texts(paths).len() ==> is_stripped(
                prefix,
                (#[trigger] entry_mappings(prefix, paths, base)[i]).prefix,
            ) && entry_mappings(prefix, paths, base)[i].base == joined_path(
                base,
                directory_texts(paths)[i],
            ),
{
    lemma_stripped(prefix, without_leading_backslashes(prefix));
}

/// The mappings of a package come in the order of its entries.
pub proof fn lemma_package_in_order(
    autoload: JsonTree,
    a: Seq<(Seq<char>, JsonTree)>,
    b: Seq<(Seq<char>, JsonTree)>,
    autoload_a: JsonTree,
    autoload_b: JsonTree,
    prefix: Seq<char>,
    paths: JsonTree,
    base: Seq<u8>,
)
    requires
        has_member(autoload, "psr-4"@, JsonTree::Object(a + b)),
        has_member(autoload_a, "psr-4"@, JsonTree::Object(a)),
        has_member(autoload_b, "psr-4"@, JsonTree::Object(b)),
    ensures
        package_mappings(Some(autoload), base) == package_mappings(Some(autoload_a), base)
            + package_mappings(Some(autoload_b), base),
        b == seq![(prefix, paths)] ==> package_mappings(Some(autoload_b), base) == entry_mappings(
            prefix,
            paths,
            base,
        ),
{
    let entry = |m: (Seq<char>, JsonTree)| entry_mappings(m.0, m.1, base);
    lemma_tree_get(autoload, "psr-4"@, JsonTree::Object(a + b));
    lemma_tree_get(autoload_a, "psr-4"@, JsonTree::Object(a));
    lemma_tree_get(autoload_b, "psr-4"@, JsonTree::Object(b));
    lemma_flat_map_add(a, b, entry);
    let one = (prefix, paths);
    lemma_flat_map_one(one, entry);
}

/// The mappings for use come before those for development.
pub proof fn lemma_use_before_development(
    package: JsonTree,
    used: JsonTree,
    developed: JsonTree,
    base: Seq<u8>,
)
    ensures
        has_member(package, "autoload"@, used) && has_member(package, "autoload-dev"@, developed)
            ==> autoload_mappings(package, base) == package_mappings(Some(used), base)
            + package_mappings(Some(developed), base),
        has_member(package, "autoload"@, used) && (forall|v: JsonTree|
            !#[trigger] has_member(package, "autoload-dev"@, v)) ==> autoload_mappings(package, base)
            == package_mappings(Some(used), base),
        has_member(package, "autoload-dev"@, developed) && (forall|v: JsonTree|
            !#[trigger] has_member(package, "autoload"@, v)) ==> autoload_mappings(package, base)
            == package_mappings(Some(developed), base),
        package_mappings(None, base).len() == 0,
{
    lemma_tree_get(package, "autoload"@, used);
    lemma_tree_get(package, "autoload-dev"@, developed);
    if let Some(v) = tree_get(package, "autoload"@) {
        lemma_tree_get(package, "autoload"@, v);
    }
    if let Some(v) = tree_get(package, "autoload-dev"@) {
        lemma_tree_get(package, "autoload-dev"@, v);
    }
    let first = package_mappings(Some(used), base);
    let second = package_mappings(Some(developed), base);
    assert(first + Seq::empty() =~= first);
    assert(Seq::empty() + second =~= second);
}

/// The packages of a lock file come in the order in which it lists them, those for use before those
/// for development.
pub proof fn lemma_packages_in_order(
    lock: JsonTree,
    used: Seq<JsonTree>,
    developed: Seq<JsonTree>,
    root: Seq<u8>,
)
    requires
        has_member(lock, "packages"@, JsonTree::Array(used)),
        has_member(lock, "packages-dev"@, JsonTree::Array(developed)),
    ensures
        lock_mappings(lock, root) == (used + developed).flat_map(
            |package: JsonTree| locked_package_mappings(package, root),
        ),
{
    lemma_tree_get(lock, "packages"@, JsonTree::Array(used));
    lemma_tree_get(lock, "packages-dev"@, JsonTree::Array(developed));
    lemma_flat_map_add(
        used,
        developed,
        |package: JsonTree| locked_package_mappings(package, root),
    );
}

/// A package of a lock file has its files in a directory of its name below `vendor`. Without a name
/// it has no mappings.
pub proof fn lemma_locked_package(package: JsonTree, name: Seq<char>, root: Seq<u8>)
    ensures
        has_member(package, "name"@, JsonTree::Text(name)) ==> locked_package_mappings(package, root)
            == autoload_mappings(package, joined_path(joined_path(root, "vendor"@), name)),
        (forall|n: Seq<char>| !#[trigger] has_member(package, "name"@, JsonTree::Text(n)))
            ==> locked_package_mappings(package, root).len() == 0,
{
    lemma_tree_get(package, "name"@, JsonTree::Text(name));
    if let Some(JsonTree::Text(n)) = tree_get(package, "name"@) {
        lemma_tree_get(package, "name"@, JsonTree::Text(n));
    }
}

/// The mappings of one file more come behind those of the files before it.
pub proof fn lemma_files_in_order(
    files: Seq<ComposerFileView>,
    file: ComposerFileView,
    text: Seq<char>,
)
    requires
        gathered_mappings(files) is Ok,
        file.contents == Some(text),
        json_parsed(text) is Some,
    ensures
        gathered_mappings(Seq::<ComposerFileView>::empty()) matches Ok(none) && none.len() == 0,
        gathered_mappings(files.push(file)) matches Ok(all) && all == gathered_mappings(files)->Ok_0
            + composer_mappings(
            path_file_name(file.path) == Some("composer.json"@),
            json_parsed(text)->0,
            match path_parent(file.path) {
                Some(parent) => parent,
                None => encode_utf8("."@),
            },
        ),
        composer_mappings(true, json_parsed(text)->0, file.path) == autoload_mappings(
            json_parsed(text)->0,
            file.path,
        ),
        composer_mappings(false, json_parsed(text)->0, file.path) == lock_mappings(
            json_parsed(text)->0,
            file.path,
        ),
{
    assert(files.push(file).drop_last() =~= files);
}

proof fn lemma_package(package: JsonTree, key: Seq<char>, base: Seq<u8>, mapping: MappingView)
    ensures
        package_mappings(tree_get(package, key), base).contains(mapping) <==> package_maps(
            package,
            key,
            base,
            mapping,
        ),
{
    let entry = |m: (Seq<char>, JsonTree)| entry_mappings(m.0, m.1, base);
    if package_mappings(tree_get(package, key), base).contains(mapping) {
        let autoload = tree_get(package, key)->0;
        let object = tree_get(autoload, "psr-4"@)->0;
        let entries = object->Object_0;
        lemma_tree_get(package, key, autoload);
        lemma_tree_get(autoload, "psr-4"@, object);
        lemma_flat_map_member(entries, entry, mapping);
        let i = choose|i: int|
            0 <= i < entries.len() && entry(#[trigger] entries[i]).contains(mapping);
        lemma_entry(entries[i].0, entries[i].1, base, mapping);
        assert(has_member(package, key, autoload));
    }
    if package_maps(package, key, base, mapping) {
        let (autoload, entries, i) = choose|
            autoload: JsonTree,
            entries: Seq<(Seq<char>, JsonTree)>,
            i: int,
        |
            #![trigger has_member(package, key, autoload), entries[i]]
            has_member(package, key, autoload) && has_member(
                autoload,
                "psr-4"@,
                JsonTree::Object(entries),
            ) && 0 <= i < entries.len() && entry_maps(entries[i].0, entries[i].1, base, mapping);
        lemma_tree_get(package, key, autoload);
        lemma_tree_get(autoload, "psr-4"@, JsonTree::Object(entries));
        lemma_entry(entries[i].0, entries[i].1, base, mapping);
        assert(entry(entries[i]).contains(mapping));
        lemma_flat_map_member(entries, entry, mapping);
    }
}

/// A manifest makes the mappings of its `autoload` and of its `autoload-dev`, and no other.
pub proof fn lemma_manifest_mappings(manifest: JsonTree, root: Seq<u8>, mapping: MappingView)
    ensures
        autoload_mappings(manifest, root).contains(mapping) <==> manifest_maps(
            manifest,
            root,
            mapping,
        ),
{
    lemma_package(manifest, "autoload"@, root, mapping);
    lemma_package(manifest, "autoload-dev"@, root, mapping);
    lemma_in_sum(
        package_mappings(tree_get(manifest, "autoload"@), root),
        package_mappings(tree_get(manifest, "autoload-dev"@), root),
        mapping,
    );
}

proof fn lemma_section(
    lock: JsonTree,
    section: Seq<char>,
    root: Seq<u8>,
    mapping: MappingView,
)
    ensures
        section_mappings(lock, section, root).contains(mapping) <==> section_maps(
            lock,
            section,
            "autoload"@,
            root,
            mapping,
        ) || section_maps(lock, section, "autoload-dev"@, root, mapping),
{
    let of_package = |package: JsonTree| locked_package_mappings(package, root);
    let vendor = joined_path(root, "vendor"@);
    if section_mappings(lock, section, root).contains(mapping) {
        let list = tree_get(lock, section)->0;
        let packages = list->Array_0;
        lemma_tree_get(lock, section, list);
        lemma_flat_map_member(packages, of_package, mapping);
        let i = choose|i: int|
            0 <= i < packages.len() && of_package(#[trigger] packages[i]).contains(mapping);
        let title = tree_get(packages[i], "name"@)->0;
        let name = title->Text_0;
        lemma_tree_get(packages[i], "name"@, title);
        lemma_manifest_mappings(packages[i], joined_path(vendor, name), mapping);
        assert(has_member(lock, section, JsonTree::Array(packages)));
        assert(has_member(packages[i], "name"@, JsonTree::Text(name)));
    }
    assert forall|key: Seq<char>| (key == "autoload"@ || key == "autoload-dev"@)
        && #[trigger] section_maps(lock, section, key, root, mapping) implies section_mappings(
        lock,
        section,
        root,
    ).contains(mapping) by {
        let (packages, i, name) = choose|packages: Seq<JsonTree>, i: int, name: Seq<char>|
            #![trigger has_member(lock, section, JsonTree::Array(packages)), has_member(packages[i], "name"@, JsonTree::Text(name))]
            has_member(lock, section, JsonTree::Array(packages)) && 0 <= i < packages.len()
                && has_member(packages[i], "name"@, JsonTree::Text(name)) && package_maps(
                packages[i],
                key,
                joined_path(joined_path(root, "vendor"@), name),
                mapping,
            );
        lemma_tree_get(lock, section, JsonTree::Array(packages));
        lemma_tree_get(packages[i], "name"@, JsonTree::Text(name));
        lemma_manifest_mappings(packages[i], joined_path(vendor, name), mapping);
        assert(of_package(packages[i]).contains(mapping));
        lemma_flat_map_member(packages, of_package, mapping);
    }
}

/// A lock file makes the mappings of all the named packages that it lists, for use or for
/// development, of their `autoload` and of their `autoload-dev`, and no other.
pub proof fn lemma_lock_mappings(lock: JsonTree, root: Seq<u8>, mapping: MappingView)
    ensures
        lock_mappings(lock, root).contains(mapping) <==> lock_maps(lock, root, mapping),
{
    lemma_section(lock, "packages"@, root, mapping);
    lemma_section(lock, "packages-dev"@, root, mapping);
    lemma_in_sum(
        section_mappings(lock, "packages"@, root),
        section_mappings(lock, "packages-dev"@, root),
        mapping,
    );
}

/// Whether a Composer file maps the prefix of a mapping to its directory. What it says goes by the
/// directory that it lies in.
pub open spec fn file_maps(file: ComposerFileView, mapping: MappingView) -> bool {
    file.contents matches Some(text) && json_parsed(text) matches Some(document) && {
        let root = match path_parent(file.path) {
            Some(parent) => parent,
            None => encode_utf8("."@),
        };
        if path_file_name(file.path) == Some("composer.json"@) {
            manifest_maps(document, root, mapping)
        } else {
            lock_maps(document, root, mapping)
        }
    }
}

/// Whether a Composer file can be read and is a JSON document.
pub open spec fn is_good_file(file: ComposerFileView) -> bool {
    file.contents matches Some(text) && json_parsed(text) is Some
}

/// The mappings of Composer files are those of each of them. There are none where one of the files
/// is bad, and the first bad file is the one that is told of.
pub proof fn lemma_gathered_mappings(files: Seq<ComposerFileView>, mapping: MappingView)
    ensures
        match gathered_mappings(files) {
            Ok(all) => {
                &&& forall|i: int| 0 <= i < files.len() ==> is_good_file(#[trigger] files[i])
                &&& all.contains(mapping) <==> exists|i: int|
                    0 <= i < files.len() && file_maps(#[trigger] files[i], mapping)
            },
            Err(error) => exists|i: int|
                0 <= i < files.len() && (forall|j: int|
                    0 <= j < i ==> is_good_file(#[trigger] files[j])) && match (
                    #[trigger] files[i]).contents {
                    None => error == IndexErrorView::Unreadable(files[i].path),
                    Some(text) => json_parsed(text) is None && error
                        == IndexErrorView::Unparsable(files[i].path),
                },
        },
    decreases files.len(),
{
    if files.len() > 0 {
        let init = files.drop_last();
        let n = files.len() - 1;
        let last = files[n];
        lemma_gathered_mappings(init, mapping);
        assert forall|j: int| 0 <= j < n && is_good_file(init[j]) implies is_good_file(
            #[trigger] files[j],
        ) by {
            assert(init[j] == files[j]);
        }
        match gathered_mappings(init) {
            Err(error) => {
                let i = choose|i: int|
                    0 <= i < init.len() && (forall|j: int|
                        0 <= j < i ==> is_good_file(#[trigger] init[j])) && match (
                        #[trigger] init[i]).contents {
                        None => error == IndexErrorView::Unreadable(init[i].path),
                        Some(text) => json_parsed(text) is None && error
                            == IndexErrorView::Unparsable(init[i].path),
                    };
                assert(files[i] == init[i]);
                assert forall|j: int| 0 <= j < i implies is_good_file(#[trigger] files[j]) by {
                    assert(is_good_file(init[j]));
                }
            },
            Ok(before) => {
                assert forall|j: int| 0 <= j < n implies is_good_file(#[trigger] files[j]) by {
                    assert(is_good_file(init[j]));
                }
                if is_good_file(last) {
                    let document = json_parsed(last.contents->0)->0;
                    let root = composer_root(last.path);
                    let is_manifest = path_file_name(last.path) == Some("composer.json"@);
                    let behind = composer_mappings(is_manifest, document, root);
                    lemma_manifest_mappings(document, root, mapping);
                    lemma_lock_mappings(document, root, mapping);
                    lemma_in_sum(before, behind, mapping);
                    assert(behind.contains(mapping) <==> file_maps(last, mapping));
                    if before.contains(mapping) {
                        let i = choose|i: int|
                            0 <= i < init.len() && file_maps(#[trigger] init[i], mapping);
                        assert(file_maps(files[i], mapping));
                    }
                    if exists|i: int| 0 <= i < files.len() && file_maps(
                        #[trigger] files[i],
                        mapping,
                    ) {
                        let i = choose|i: int|
                            0 <= i < files.len() && file_maps(#[trigger] files[i], mapping);
                        if i < n {
                            assert(file_maps(init[i], mapping));
                        }
                    }
                } else {
                    assert(files[n] == last);
                }
            },
        }
    }
}

/// The mappings are the same, whichever way they are ordered, none comes behind one whose prefix
/// has fewer bytes, and those with as many bytes stay in their order.
pub proof fn lemma_longest_prefix_first(mappings: Seq<MappingView>)
    ensures
        forall|m: MappingView| ordered_mappings(mappings).contains(m) <==> mappings.contains(m),
        forall|i: int, j: int|
            0 <= i < j < ordered_mappings(mappings).len() ==> encode_utf8(
                (#[trigger] ordered_mappings(mappings)[i]).prefix,
            ).len() >= encode_utf8((#[trigger] ordered_mappings(mappings)[j]).prefix).len(),
        forall|n: nat|
            #![trigger encoded_in(n)]
            ordered_mappings(mappings).filter(encoded_in(n)) == mappings.filter(encoded_in(n)),
{
    lemma_ordered_mappings(mappings);
    lemma_ordering_keeps_mappings(mappings);
    assert forall|n: nat|
        #![trigger encoded_in(n)]
        ordered_mappings(mappings).filter(encoded_in(n)) == mappings.filter(encoded_in(n)) by {
        assert(encoded_in(n) =~= has_prefix_len(n));
        assert(ordered_mappings(mappings).filter(has_prefix_len(n)) == mappings.filter(
            has_prefix_len(n),
        ));
    }
}

/// The predicate that holds of the mappings whose prefix is encoded in `n` bytes.
pub open spec fn encoded_in(n: nat) -> spec_fn(MappingView) -> bool {
    |m: MappingView| encode_utf8(m.prefix).len() == n
}

/// Whether `relative` is `rest` with a slash in place of each backslash.
pub open spec fn is_slashed(rest: Seq<char>, relative: Seq<char>) -> bool {
    &&& relative.len() == rest.len()
    &&& forall|i: int|
        0 <= i < rest.len() ==> #[trigger] relative[i] == if rest[i] == '\\' {
            '/'
        } else {
            rest[i]
        }
}

/// Below the directory of a prefix, a class lies where its name says behind the prefix and the
/// backslashes there: every separator is a slash, and all else is as in the name. Where the name
/// does not start with the prefix, the class does not lie there.
pub proof fn lemma_class_relative(class: Seq<char>, prefix: Seq<char>, rest: Seq<char>)
    requires
        class.len() >= prefix.len() && class.take(prefix.len() as int) == prefix ==> is_stripped(
            class.skip(prefix.len() as int),
            rest,
        ),
    ensures
        match class_relative(class, prefix) {
            Some(relative) => {
                &&& class.len() >= prefix.len()
                &&& class.take(prefix.len() as int) == prefix
                &&& !relative.contains('\\')
                &&& is_slashed(rest, relative)
            },
            None => class.len() < prefix.len() || class.take(prefix.len() as int) != prefix,
        },
{
    if prefix.is_prefix_of(class) {
        assert(class.take(prefix.len() as int) =~= prefix);
        lemma_stripped(class.skip(prefix.len() as int), rest);
        lemma_slashes(rest);
    } else if class.len() >= prefix.len() && class.take(prefix.len() as int) == prefix {
        assert(prefix =~= class.subrange(0, prefix.len() as int));
    }
}

/// A class three names deep below its prefix lies three names deep below its directory.
pub proof fn lemma_nested_class(
    prefix: Seq<char>,
    a: Seq<char>,
    b: Seq<char>,
    c: Seq<char>,
)
    requires
        a.len() > 0,
        !a.contains('\\'),
        !b.contains('\\'),
        !c.contains('\\'),
    ensures
        class_relative(prefix + (a + seq!['\\'] + b + seq!['\\'] + c), prefix) == Some(
            a + seq!['/'] + b + seq!['/'] + c,
        ),
{
    let rest = a + seq!['\\'] + b + seq!['\\'] + c;
    let class = prefix + rest;
    let wanted = a + seq!['/'] + b + seq!['/'] + c;
    assert(class.take(prefix.len() as int) =~= prefix);
    assert(class.skip(prefix.len() as int) =~= rest);
    assert(a.contains(a[0]));
    assert(rest[0] == a[0]);
    assert(rest.skip(0) =~= rest);
    lemma_class_relative(class, prefix, rest);
    let relative = class_relative(class, prefix)->0;
    assert forall|i: int| 0 <= i < rest.len() implies relative[i] == wanted[i] by {
        assert(relative[i] == if rest[i] == '\\' {
            '/'
        } else {
            rest[i]
        });
        if i < a.len() {
            assert(a.contains(a[i]));
        } else if a.len() < i < a.len() + 1 + b.len() {
            assert(b.contains(b[i - a.len() - 1]));
        } else if i > a.len() + 1 + b.len() {
            assert(c.contains(c[i - a.len() - b.len() - 2]));
        }
    }
    assert(relative =~= wanted);
}

/// Whether a mapping leads from a class to a path: the class starts with the prefix, and the path is
/// the PHP file below the directory that the rest of its name says.
pub open spec fn leads_to(mapping: MappingView, class: Seq<char>, path: Seq<u8>) -> bool {
    &&& class.len() >= mapping.prefix.len()
    &&& class.take(mapping.prefix.len() as int) == mapping.prefix
    &&& exists|rest: Seq<char>, relative: Seq<char>|
        #![trigger is_slashed(rest, relative)]
        is_stripped(class.skip(mapping.prefix.len() as int), rest) && is_slashed(rest, relative)
            && path == path_with_extension(joined_path(mapping.base, relative), "php"@)
}

proof fn lemma_leads_to(mapping: MappingView, class: Seq<char>, path: Seq<u8>)
    ensures
        mapped_file(class, mapping) == Some(path) <==> leads_to(mapping, class, path),
{
    let behind = class.skip(mapping.prefix.len() as int);
    let rest = without_leading_backslashes(behind);
    lemma_stripped(behind, rest);
    lemma_class_relative(class, mapping.prefix, rest);
    if mapped_file(class, mapping) == Some(path) {
        assert(is_slashed(rest, class_relative(class, mapping.prefix)->0));
    }
    if leads_to(mapping, class, path) {
        let (r, relative) = choose|r: Seq<char>, relative: Seq<char>|
            #![trigger is_slashed(r, relative)]
            is_stripped(behind, r) && is_slashed(r, relative) && path == path_with_extension(
                joined_path(mapping.base, relative),
                "php"@,
            );
        lemma_stripped(behind, r);
        assert(r == rest);
        assert(relative =~= class_relative(class, mapping.prefix)->0);
    }
}

/// The candidates of a context by its mappings are the files that these lead to from its class. The
/// others are the PHP files of the class below the root of the project and below its `src`.
pub proof fn lemma_candidates(
    context: Seq<char>,
    class: Seq<char>,
    relative: Seq<char>,
    root: Seq<u8>,
    mappings: Seq<MappingView>,
    path: Seq<u8>,
)
    requires
        is_stripped(context, class),
        is_slashed(class, relative),
    ensures
        candidates_of(context, root, mappings).context == context,
        candidates_of(context, root, mappings).mapped.contains(path) <==> exists|i: int|
            0 <= i < mappings.len() && leads_to(#[trigger] mappings[i], class, path),
        candidates_of(context, root, mappings).fallback == seq![
            path_with_extension(joined_path(root, relative), "php"@),
            path_with_extension(joined_path(joined_path(root, "src"@), relative), "php"@),
        ],
{
    lemma_stripped(context, class);
    lemma_slashes(class);
    assert(with_slashes(class) =~= relative);
    lemma_mapped_files(class, mappings, path);
    if mapped_files(class, mappings).contains(path) {
        let m = choose|m: MappingView| #[trigger]
            mappings.contains(m) && mapped_file(class, m) == Some(path);
        lemma_leads_to(m, class, path);
        let i = choose|i: int| 0 <= i < mappings.len() && mappings[i] == m;
        assert(leads_to(mappings[i], class, path));
    }
    if exists|i: int| 0 <= i < mappings.len() && leads_to(#[trigger] mappings[i], class, path) {
        let i = choose|i: int|
            0 <= i < mappings.len() && leads_to(#[trigger] mappings[i], class, path);
        lemma_leads_to(mappings[i], class, path);
        assert(mappings.contains(mappings[i]));
    }
    assert(fallback_files(class, root) =~= seq![
        path_with_extension(joined_path(root, relative), "php"@),
        path_with_extension(joined_path(joined_path(root, "src"@), relative), "php"@),
    ]);
}

/// The files that mappings in a row lead to are those of each, in a row.
pub proof fn lemma_mapped_in_order(
    class: Seq<char>,
    a: Seq<MappingView>,
    b: Seq<MappingView>,
    mapping: MappingView,
    path: Seq<u8>,
)
    ensures
        mapped_files(class, a + b) == mapped_files(class, a) + mapped_files(class, b),
        leads_to(mapping, class, path) ==> mapped_files(class, seq![mapping]) == seq![path],
        (forall|p: Seq<u8>| !#[trigger] leads_to(mapping, class, p)) ==> mapped_files(
            class,
            seq![mapping],
        ).len() == 0,
{
    let file_of = |m: MappingView| mapped_file(class, m);
    lemma_filter_map_add(a, b, file_of);
    Seq::<MappingView>::lemma_filter_map_singleton(mapping, file_of);
    lemma_leads_to(mapping, class, path);
    if let Some(p) = mapped_file(class, mapping) {
        lemma_leads_to(mapping, class, p);
    }
}

/// Each context is located by all the mappings, the longest prefixes first, and in its place. Where
/// a Composer file is bad, none is.
pub proof fn lemma_located(
    contexts: Seq<Seq<char>>,
    root: Seq<u8>,
    files: Seq<ComposerFileView>,
)
    ensures
        match (located_contexts(contexts, root, files), gathered_mappings(files)) {
            (Ok(located), Ok(all)) => located.len() == contexts.len() && forall|i: int|
                0 <= i < contexts.len() ==> #[trigger] located[i] == candidates_of(
                    contexts[i],
                    root,
                    ordered_mappings(all),
                ),
            (Err(error), Err(expected)) => error == expected,
            _ => false,
        },
{
}

/// Whether a path is one that is marked as found.
pub open spec fn is_marked(paths: Seq<Seq<u8>>, found: Seq<bool>, path: Seq<u8>) -> bool {
    exists|i: int| 0 <= i < paths.len() && i < found.len() && found[i] && #[trigger] paths[i] == path
}

/// A context has the files that its mappings lead to and that are found. Only where there is none
/// does it have those of the others that are found.
pub proof fn lemma_files_of_context(candidates: CandidatesView, found: FoundView, path: Seq<u8>)
    ensures
        files_of_context(candidates, found).contains(path) <==> {
            ||| is_marked(candidates.mapped, found.mapped, path)
            ||| is_marked(candidates.fallback, found.fallback, path) && !exists|other: Seq<u8>|
                #[trigger] is_marked(candidates.mapped, found.mapped, other)
        },
{
    let kept = found_paths(candidates.mapped, found.mapped);
    lemma_found_paths(candidates.mapped, found.mapped, path);
    lemma_found_paths(candidates.fallback, found.fallback, path);
    if kept.len() > 0 {
        lemma_found_paths(candidates.mapped, found.mapped, kept[0]);
        assert(kept.contains(kept[0]));
        assert(is_marked(candidates.mapped, found.mapped, kept[0]));
    } else {
        assert forall|other: Seq<u8>| !#[trigger] is_marked(
            candidates.mapped,
            found.mapped,
            other,
        ) by {
            lemma_found_paths(candidates.mapped, found.mapped, other);
        }
    }
}

/// Whether a path is one of `paths`, and none before it there is the same path.
pub open spec fn is_first_spelling(paths: Seq<Seq<u8>>, path: Seq<u8>) -> bool {
    exists|k: int|
        0 <= k < paths.len() && #[trigger] paths[k] == path && forall|m: int|
            0 <= m < k ==> path_class(#[trigger] paths[m]) != path_class(path)
}

/// Whether one of `paths` is the same path as another.
pub open spec fn has_same_path(paths: Seq<Seq<u8>>, path: Seq<u8>) -> bool {
    exists|i: int| 0 <= i < paths.len() && path_class(#[trigger] paths[i]) == path_class(path)
}

/// A listing is in ascending order, has no path twice, has the first spelling of each path, and
/// leaves out none.
pub proof fn lemma_listing(listed: Seq<Seq<u8>>, paths: Seq<Seq<u8>>)
    requires
        is_sorted_listing(listed, paths),
    ensures
        forall|i: int, j: int|
            0 <= i < j < listed.len() ==> path_at_most(
                path_class(#[trigger] listed[i]),
                path_class(#[trigger] listed[j]),
            ) && path_class(listed[i]) != path_class(listed[j]),
        forall|i: int| 0 <= i < listed.len() ==> is_first_spelling(paths, #[trigger] listed[i]),
        forall|k: int| 0 <= k < paths.len() ==> has_same_path(listed, #[trigger] paths[k]),
{
    assert forall|i: int| 0 <= i < listed.len() implies is_first_spelling(
        paths,
        #[trigger] listed[i],
    ) by {
        let class = path_class(listed[i]);
        let alike = paths.filter(in_class(class));
        assert(alike.len() > 0 && alike[0] == listed[i]);
        let k = lemma_first_alike(paths, class);
        assert(paths[k] == listed[i]);
    }
    assert forall|k: int| 0 <= k < paths.len() implies has_same_path(
        listed,
        #[trigger] paths[k],
    ) by {
        assert(has_class(listed, path_class(paths[k])));
    }
}

proof fn lemma_first_alike(paths: Seq<Seq<u8>>, class: Seq<u8>) -> (k: int)
    requires
        paths.filter(in_class(class)).len() > 0,
    ensures
        0 <= k < paths.len(),
        paths[k] == paths.filter(in_class(class))[0],
        forall|m: int| 0 <= m < k ==> path_class(#[trigger] paths[m]) != class,
    decreases paths.len(),
{
    reveal(Seq::filter);
    let init = paths.drop_last();
    let before = init.filter(in_class(class));
    if before.len() > 0 {
        let k = lemma_first_alike(init, class);
        assert forall|m: int| 0 <= m < k implies path_class(#[trigger] paths[m]) != class by {
            assert(init[m] == paths[m]);
        }
        k
    } else {
        let n = paths.len() - 1;
        assert forall|m: int| 0 <= m < n implies path_class(#[trigger] paths[m]) != class by {
            if path_class(paths[m]) == class {
                assert(init[m] == paths[m]);
                init.lemma_filter_contains(in_class(class), m);
            }
        }
        n
    }
}

/// What is wrong with a Composer file is told with the path of the file.
pub proof fn lemma_error_text(path: Seq<u8>)
    ensures
        error_text(IndexErrorView::Unreadable(path)) == seq!['r', 'e', 'a', 'd', ' '] + path_shown(
            path,
        ),
        error_text(IndexErrorView::Unparsable(path)) == seq!['p', 'a', 'r', 's', 'e', ' ']
            + path_shown(path),
{
    reveal_strlit("read ");
    reveal_strlit("parse ");
    assert("read "@ =~= seq!['r', 'e', 'a', 'd', ' ']);
    assert("parse "@ =~= seq!['p', 'a', 'r', 's', 'e', ' ']);
}

} // verus!
