//! File system paths.
//!
//! A path is known by the bytes that it holds, in the encoding of the platform. What the
//! functions of `std::path` make of those bytes goes by the path rules of the platform that the
//! crate is built for, and is named here, not described.

use std::path::PathBuf;

use vstd::prelude::*;

verus! {

/// `std::path::PathBuf`, an owned path.
#[verifier::external_type_specification]
#[verifier::external_body]
pub struct ExPathBuf(std::path::PathBuf);

/// The bytes that a path holds, in the encoding of the platform.
pub uninterp spec fn path_bytes(path: PathBuf) -> Seq<u8>;

/// What `Path::join` makes of a path and a text that is put behind it.
pub uninterp spec fn joined_path(base: Seq<u8>, rest: Seq<char>) -> Seq<u8>;

/// What `Path::with_extension` makes of a path and an extension.
pub uninterp spec fn path_with_extension(path: Seq<u8>, extension: Seq<char>) -> Seq<u8>;

/// What `Path::parent` gives for a path.
pub uninterp spec fn path_parent(path: Seq<u8>) -> Option<Seq<u8>>;

/// What `Path::file_name` gives for a path, where it is Unicode text.
pub uninterp spec fn path_file_name(path: Seq<u8>) -> Option<Seq<char>>;

/// What `Path::extension` gives for a path, where it is Unicode text.
pub uninterp spec fn path_extension(path: Seq<u8>) -> Option<Seq<char>>;

/// What `Path::strip_prefix` leaves of a path that starts with `prefix`.
pub uninterp spec fn path_without_prefix(path: Seq<u8>, prefix: Seq<u8>) -> Option<Seq<u8>>;

/// What `Path::to_string_lossy` gives for a path.
pub uninterp spec fn path_lossy_text(path: Seq<u8>) -> Seq<char>;

/// What `Path::display` shows for a path.
pub uninterp spec fn path_shown(path: Seq<u8>) -> Seq<char>;

/// What stands for all the paths that `==` holds to be the same as a path.
pub uninterp spec fn path_class(path: Seq<u8>) -> Seq<u8>;

/// Whether `<=` holds between the paths of two classes.
pub uninterp spec fn path_at_most(a: Seq<u8>, b: Seq<u8>) -> bool;

/// The bytes of each of `paths`.
pub open spec fn bytes_of_paths(paths: Seq<PathBuf>) -> Seq<Seq<u8>> {
    paths.map_values(|p: PathBuf| path_bytes(p))
}

/// The predicate that holds of the paths of one class.
pub open spec fn in_class(class: Seq<u8>) -> spec_fn(Seq<u8>) -> bool {
    |p: Seq<u8>| path_class(p) == class
}

/// The class of each of `paths`.
pub open spec fn path_classes(paths: Seq<Seq<u8>>) -> Seq<Seq<u8>> {
    paths.map_values(|p: Seq<u8>| path_class(p))
}

/// Whether a path is at most as great as another, and not as great unless they are the same.
pub open spec fn is_in_order(a: Seq<u8>, b: Seq<u8>) -> bool {
    path_at_most(path_class(a), path_class(b)) && (path_at_most(path_class(b), path_class(a))
        ==> path_class(a) == path_class(b))
}

/// Each path is at most as great as those behind it.
pub open spec fn in_path_order(paths: Seq<Seq<u8>>) -> bool {
    forall|i: int, j: int|
        0 <= i < j < paths.len() ==> is_in_order(#[trigger] paths[i], #[trigger] paths[j])
}

/// Paths that are the same stand side by side.
pub open spec fn same_paths_together(paths: Seq<Seq<u8>>) -> bool {
    forall|i: int, j: int, k: int|
        0 <= i < j < k < paths.len() && path_class(#[trigger] paths[i]) == path_class(
            #[trigger] paths[k],
        ) ==> path_class(#[trigger] paths[j]) == path_class(paths[i])
}

/// `PathBuf::from` keeps a text as it is: the bytes of the path are those of its UTF-8 encoding.
#[verifier::external_body]
pub(crate) fn path_of_text(text: &str) -> (path: PathBuf)
    ensures
        path_bytes(path) == vstd::utf8::encode_utf8(text@),
{
    PathBuf::from(text)
}

/// `PathBuf::clone` gives a path with the same bytes.
#[verifier::external_body]
pub(crate) fn copy_path(path: &PathBuf) -> (copy: PathBuf)
    ensures
        path_bytes(copy) == path_bytes(*path),
{
    path.clone()
}

/// `Path::join` puts a text behind a path; `joined_path` names the result.
#[verifier::external_body]
pub(crate) fn join_path(base: &PathBuf, rest: &str) -> (path: PathBuf)
    ensures
        path_bytes(path) == joined_path(path_bytes(*base), rest@),
{
    base.join(rest)
}

/// `Path::with_extension` replaces the extension of a path; `path_with_extension` names the
/// result. It panics on an extension with a path separator, so none may stand there.
#[verifier::external_body]
pub(crate) fn set_extension(path: &PathBuf, extension: &str) -> (changed: PathBuf)
    requires
        !extension@.contains('/'),
        !extension@.contains('\\'),
    ensures
        path_bytes(changed) == path_with_extension(path_bytes(*path), extension@),
{
    path.with_extension(extension)
}

/// `Path::parent` gives a path without its last component; `path_parent` names the result.
#[verifier::external_body]
pub(crate) fn parent_of(path: &PathBuf) -> (parent: Option<PathBuf>)
    ensures
        parent is Some <==> path_parent(path_bytes(*path)) is Some,
        parent matches Some(p) ==> path_bytes(p) == path_parent(path_bytes(*path))->0,
{
    path.parent().map(|p| p.to_path_buf())
}

/// `Path::file_name` gives the last component of a path; `path_file_name` names the result,
/// which is `None` too where the component is not Unicode text.
#[verifier::external_body]
pub(crate) fn file_name_of(path: &PathBuf) -> (name: Option<String>)
    ensures
        name.deep_view() == path_file_name(path_bytes(*path)),
{
    path.file_name().and_then(|name| name.to_str()).map(|name| name.to_string())
}

/// `Path::extension` gives the extension of a path; `path_extension` names the result, which is
/// `None` too where the extension is not Unicode text.
#[verifier::external_body]
pub(crate) fn extension_of(path: &PathBuf) -> (extension: Option<String>)
    ensures
        extension.deep_view() == path_extension(path_bytes(*path)),
{
    path.extension().and_then(|extension| extension.to_str()).map(|text| text.to_string())
}

/// `Path::strip_prefix` gives what is left of a path behind a prefix; `path_without_prefix` names
/// the result.
#[verifier::external_body]
pub(crate) fn strip_path_prefix(path: &PathBuf, prefix: &PathBuf) -> (rest: Option<PathBuf>)
    ensures
        rest is Some <==> path_without_prefix(path_bytes(*path), path_bytes(*prefix)) is Some,
        rest matches Some(p) ==> path_bytes(p) == path_without_prefix(
            path_bytes(*path),
            path_bytes(*prefix),
        )->0,
{
    path.strip_prefix(prefix).ok().map(|p| p.to_path_buf())
}

/// `Path::to_string_lossy` gives the text of a path; `path_lossy_text` names the result.
#[verifier::external_body]
pub(crate) fn lossy_text_of(path: &PathBuf) -> (text: String)
    ensures
        text@ == path_lossy_text(path_bytes(*path)),
{
    path.to_string_lossy().to_string()
}

/// `Path::display` gives the text that a path is shown by; `path_shown` names the result.
#[verifier::external_body]
pub(crate) fn shown_path(path: &PathBuf) -> (text: String)
    ensures
        text@ == path_shown(path_bytes(*path)),
{
    path.display().to_string()
}

/// `==` on paths is an equivalence; `path_class` names the class that a path falls in.
#[verifier::external_body]
pub(crate) fn same_path(a: &PathBuf, b: &PathBuf) -> (same: bool)
    ensures
        same == (path_class(path_bytes(*a)) == path_class(path_bytes(*b))),
{
    a == b
}

/// `slice::sort` puts paths in ascending order, for which `path_at_most` is the name. The order is
/// total and goes with `==`: it does not tell paths that are the same apart, and two paths that are
/// each at most the other are the same. Paths that are the same keep their order and then stand
/// side by side.
#[verifier::external_body]
pub(crate) fn sort_paths(paths: &mut Vec<PathBuf>)
    ensures
        forall|i: int, j: int|
            0 <= i < j < final(paths)@.len() ==> path_at_most(
                path_class(#[trigger] bytes_of_paths(final(paths)@)[i]),
                path_class(#[trigger] bytes_of_paths(final(paths)@)[j]),
            ),
        forall|i: int, j: int|
            0 <= i < j < final(paths)@.len() && path_at_most(
                path_class(#[trigger] bytes_of_paths(final(paths)@)[j]),
                path_class(#[trigger] bytes_of_paths(final(paths)@)[i]),
            ) ==> path_class(bytes_of_paths(final(paths)@)[i]) == path_class(
                bytes_of_paths(final(paths)@)[j],
            ),
        same_paths_together(bytes_of_paths(final(paths)@)),
        forall|class: Seq<u8>|
            bytes_of_paths(final(paths)@).filter(#[trigger] in_class(class)) == bytes_of_paths(
                old(paths)@,
            ).filter(in_class(class)),
{
    paths.sort();
}

/// `paths` without each path that is the same as the one right before it.
pub open spec fn deduped(paths: Seq<Seq<u8>>) -> Seq<Seq<u8>>
    decreases paths.len(),
{
    if paths.len() <= 1 {
        paths
    } else if path_class(paths.last()) == path_class(paths[paths.len() - 2]) {
        deduped(paths.drop_last())
    } else {
        deduped(paths.drop_last()).push(paths.last())
    }
}

/// Whether one of `paths` is of the class `class`.
pub open spec fn has_class(paths: Seq<Seq<u8>>, class: Seq<u8>) -> bool {
    exists|i: int| 0 <= i < paths.len() && path_class(#[trigger] paths[i]) == class
}

/// Whether `listed` is `paths` in ascending order with the first of those that are the same in
/// place of all of them.
pub open spec fn is_sorted_listing(listed: Seq<Seq<u8>>, paths: Seq<Seq<u8>>) -> bool {
    &&& in_path_order(listed)
    &&& forall|i: int, j: int|
        0 <= i < j < listed.len() ==> path_class(#[trigger] listed[i]) != path_class(
            #[trigger] listed[j],
        )
    &&& forall|i: int|
        0 <= i < listed.len() ==> {
            let alike = paths.filter(in_class(path_class(#[trigger] listed[i])));
            alike.len() > 0 && alike[0] == listed[i]
        }
    &&& forall|k: int|
        0 <= k < paths.len() ==> has_class(listed, path_class(#[trigger] paths[k]))
}

/// Each class comes before those behind it and not behind them.
spec fn ascending(classes: Seq<Seq<u8>>) -> bool {
    forall|i: int, j: int|
        0 <= i < j < classes.len() ==> path_at_most(#[trigger] classes[i], #[trigger] classes[j])
            && !path_at_most(classes[j], classes[i])
}

proof fn lemma_ascending(a: Seq<Seq<u8>>, b: Seq<Seq<u8>>)
    requires
        ascending(a),
        ascending(b),
        forall|class: Seq<u8>| a.contains(class) <==> b.contains(class),
    ensures
        a == b,
    decreases a.len(),
{
    if a.len() == 0 || b.len() == 0 {
        if a.len() > 0 {
            assert(a.contains(a[0]));
        }
        if b.len() > 0 {
            assert(b.contains(b[0]));
        }
        assert(a =~= b);
    } else {
        let x = a.last();
        let y = b.last();
        assert(a.contains(x) && b.contains(y));
        let m = choose|m: int| 0 <= m < b.len() && b[m] == x;
        let n = choose|n: int| 0 <= n < a.len() && a[n] == y;
        if m < b.len() - 1 && n < a.len() - 1 {
            assert(path_at_most(b[m], b[b.len() - 1]));
            assert(!path_at_most(a[a.len() - 1], a[n]));
        }
        assert(x == y);
        let init_a = a.drop_last();
        let init_b = b.drop_last();
        assert forall|class: Seq<u8>| init_a.contains(class) <==> init_b.contains(class) by {
            if init_a.contains(class) {
                let i = choose|i: int| 0 <= i < init_a.len() && init_a[i] == class;
                assert(a[i] == class && !path_at_most(a[a.len() - 1], a[i]));
                assert(path_at_most(a[i], a[a.len() - 1]));
                assert(b.contains(class));
                let k = choose|k: int| 0 <= k < b.len() && b[k] == class;
                assert(init_b[k] == class);
            }
            if init_b.contains(class) {
                let i = choose|i: int| 0 <= i < init_b.len() && init_b[i] == class;
                assert(b[i] == class && !path_at_most(b[b.len() - 1], b[i]));
                assert(path_at_most(b[i], b[b.len() - 1]));
                assert(a.contains(class));
                let k = choose|k: int| 0 <= k < a.len() && a[k] == class;
                assert(init_a[k] == class);
            }
        }
        lemma_ascending(init_a, init_b);
        assert(a =~= init_a.push(x));
        assert(b =~= init_b.push(y));
    }
}

/// A listing has a path of each class that the paths have, and of no other.
pub proof fn lemma_listed_classes(listed: Seq<Seq<u8>>, paths: Seq<Seq<u8>>, class: Seq<u8>)
    requires
        is_sorted_listing(listed, paths),
    ensures
        has_class(listed, class) <==> has_class(paths, class),
        path_classes(listed).contains(class) <==> has_class(paths, class),
{
    if has_class(listed, class) {
        let i = choose|i: int| 0 <= i < listed.len() && path_class(#[trigger] listed[i]) == class;
        let pred = in_class(path_class(listed[i]));
        let alike = paths.filter(pred);
        assert(alike.len() > 0 && alike[0] == listed[i]);
        assert(alike.contains(alike[0]));
        paths.lemma_filter_contains_rev(pred, alike[0]);
        let k = choose|k: int| 0 <= k < paths.len() && paths[k] == listed[i];
        assert(path_class(paths[k]) == class);
        assert(path_classes(listed)[i] == class);
    }
    if has_class(paths, class) {
        let k = choose|k: int| 0 <= k < paths.len() && path_class(#[trigger] paths[k]) == class;
        assert(has_class(listed, path_class(paths[k])));
    }
    if path_classes(listed).contains(class) {
        let i = choose|i: int|
            0 <= i < path_classes(listed).len() && path_classes(listed)[i] == class;
        assert(path_class(listed[i]) == class);
    }
}

/// A listing goes by which paths there are, not by how often or in what order they come: where two
/// sequences have paths of the same classes, so have their listings, in one order. Of one sequence
/// there is one listing.
pub proof fn lemma_one_listing(
    a: Seq<Seq<u8>>,
    paths_a: Seq<Seq<u8>>,
    b: Seq<Seq<u8>>,
    paths_b: Seq<Seq<u8>>,
)
    requires
        is_sorted_listing(a, paths_a),
        is_sorted_listing(b, paths_b),
        forall|class: Seq<u8>| has_class(paths_a, class) <==> has_class(paths_b, class),
    ensures
        path_classes(a) == path_classes(b),
        paths_a == paths_b ==> a == b,
{
    let classes_a = path_classes(a);
    let classes_b = path_classes(b);
    assert forall|i: int, j: int| 0 <= i < j < classes_a.len() implies path_at_most(
        #[trigger] classes_a[i],
        #[trigger] classes_a[j],
    ) && !path_at_most(classes_a[j], classes_a[i]) by {
        assert(is_in_order(a[i], a[j]));
    }
    assert forall|i: int, j: int| 0 <= i < j < classes_b.len() implies path_at_most(
        #[trigger] classes_b[i],
        #[trigger] classes_b[j],
    ) && !path_at_most(classes_b[j], classes_b[i]) by {
        assert(is_in_order(b[i], b[j]));
    }
    assert forall|class: Seq<u8>| classes_a.contains(class) <==> classes_b.contains(class) by {
        lemma_listed_classes(a, paths_a, class);
        lemma_listed_classes(b, paths_b, class);
    }
    lemma_ascending(classes_a, classes_b);
    if paths_a == paths_b {
        assert(classes_a.len() == a.len() && classes_b.len() == b.len());
        assert forall|i: int| 0 <= i < a.len() implies a[i] == b[i] by {
            assert(classes_a[i] == classes_b[i]);
            assert(path_class(a[i]) == path_class(b[i]));
        }
        assert(a =~= b);
    }
}

proof fn lemma_deduped(paths: Seq<Seq<u8>>)
    requires
        in_path_order(paths),
        same_paths_together(paths),
    ensures
        is_sorted_listing(deduped(paths), paths),
        paths.len() > 0 ==> deduped(paths).len() > 0 && path_class(deduped(paths).last())
            == path_class(paths.last()),
    decreases paths.len(),
{
    if paths.len() <= 1 {
        if paths.len() == 1 {
            assert(paths.filter(in_class(path_class(paths[0]))) =~= paths) by {
                reveal(Seq::filter);
                reveal_with_fuel(Seq::filter, 2);
                assert(paths.drop_last() =~= Seq::empty());
            }
        }
    } else {
        let init = paths.drop_last();
        let last = paths.last();
        assert(init[init.len() - 1] == paths[paths.len() - 2]);
        lemma_deduped(init);
        let kept = deduped(init);
        let listed = deduped(paths);
        assert(paths =~= init.push(last));
        assert forall|class: Seq<u8>|
            #[trigger] paths.filter(in_class(class)) == if path_class(last) == class {
                init.filter(in_class(class)).push(last)
            } else {
                init.filter(in_class(class))
            } by {
            reveal(Seq::filter);
        }
        if path_class(last) == path_class(paths[paths.len() - 2]) {
            assert forall|k: int| 0 <= k < paths.len() implies has_class(
                listed,
                path_class(#[trigger] paths[k]),
            ) by {
                let m = if k == paths.len() - 1 { k - 1 } else { k };
                assert(path_class(paths[k]) == path_class(init[m]));
                let i = choose|i: int|
                    0 <= i < kept.len() && path_class(#[trigger] kept[i]) == path_class(init[m]);
                assert(path_class(listed[i]) == path_class(paths[k]));
            }
            assert forall|i: int| 0 <= i < listed.len() implies {
                let alike = paths.filter(in_class(path_class(#[trigger] listed[i])));
                alike.len() > 0 && alike[0] == listed[i]
            } by {
                assert(init.filter(in_class(path_class(kept[i]))).len() > 0);
            }
        } else {
            // A path of the class of `last` that stood further up would have its neighbour in
            // that class too.
            assert forall|k: int| 0 <= k < init.len() implies path_class(#[trigger] init[k])
                != path_class(last) by {
                assert(init[k] == paths[k]);
                if path_class(paths[k]) == path_class(paths[paths.len() - 1]) {
                    if k < paths.len() - 2 {
                        assert(path_class(paths[paths.len() - 2]) == path_class(paths[k]));
                    }
                }
            }
            assert forall|i: int| 0 <= i < kept.len() implies #[trigger] init.contains(
                kept[i],
            ) by {
                let pred = in_class(path_class(kept[i]));
                let alike = init.filter(pred);
                assert(alike.contains(alike[0]));
                init.lemma_filter_contains_rev(pred, alike[0]);
            }
            assert(init.filter(in_class(path_class(last))).len() == 0) by {
                init.lemma_all_neg_filter_empty(in_class(path_class(last)));
            }
            assert forall|i: int, j: int| 0 <= i < j < listed.len() implies is_in_order(
                #[trigger] listed[i],
                #[trigger] listed[j],
            ) && path_class(listed[i]) != path_class(listed[j]) by {
                assert(listed[i] == kept[i]);
                assert(init.contains(kept[i]));
                if j == kept.len() {
                    let m = choose|m: int| 0 <= m < init.len() && init[m] == kept[i];
                    assert(is_in_order(paths[m], paths[paths.len() - 1]));
                } else {
                    assert(listed[j] == kept[j]);
                }
            }
            assert forall|i: int| 0 <= i < listed.len() implies {
                let alike = paths.filter(in_class(path_class(#[trigger] listed[i])));
                alike.len() > 0 && alike[0] == listed[i]
            } by {
                if i < kept.len() {
                    assert(listed[i] == kept[i]);
                    assert(init.filter(in_class(path_class(kept[i]))).len() > 0);
                }
            }
            assert forall|k: int| 0 <= k < paths.len() implies has_class(
                listed,
                path_class(#[trigger] paths[k]),
            ) by {
                if k < init.len() {
                    assert(paths[k] == init[k]);
                    let i = choose|i: int|
                        0 <= i < kept.len() && path_class(#[trigger] kept[i]) == path_class(
                            init[k],
                        );
                    assert(path_class(listed[i]) == path_class(paths[k]));
                } else {
                    assert(path_class(listed[kept.len() as int]) == path_class(paths[k]));
                }
            }
        }
    }
}

/// Takes out each path that is the same as the one right before it.
pub fn dedup_paths(paths: &mut Vec<PathBuf>)
    ensures
        bytes_of_paths(final(paths)@) == deduped(bytes_of_paths(old(paths)@)),
{
    let ghost all = bytes_of_paths(old(paths)@);
    let ghost mut seen: int = if all.len() == 0 { 0 } else { 1 };
    let mut i: usize = if paths.len() == 0 { 0 } else { 1 };
    assert(all.take(seen) =~= bytes_of_paths(paths@).take(i as int));
    while i < paths.len()
        invariant
            0 <= i <= paths@.len(),
            all == bytes_of_paths(old(paths)@),
            0 <= seen <= all.len(),
            all.len() - seen == paths@.len() - i,
            all.len() > 0 ==> i > 0 && seen > 0 && path_class(path_bytes(paths@[i - 1]))
                == path_class(all[seen - 1]),
            bytes_of_paths(paths@).take(i as int) == deduped(all.take(seen)),
            bytes_of_paths(paths@).skip(i as int) == all.skip(seen),
        decreases paths@.len() - i,
    {
        let ghost before = bytes_of_paths(paths@);
        let ghost next = all.take(seen + 1);
        assert(next.drop_last() =~= all.take(seen));
        assert(next.last() == all[seen]);
        assert(all[seen] == all.skip(seen)[0]);
        assert(all[seen] == before.skip(i as int)[0]);
        assert(all.skip(seen + 1) =~= all.skip(seen).skip(1));
        if same_path(&paths[i - 1], &paths[i]) {
            let _gone = paths.remove(i);
            assert(bytes_of_paths(paths@).take(i as int) =~= before.take(i as int));
            assert(bytes_of_paths(paths@).skip(i as int) =~= before.skip(i as int).skip(1));
        } else {
            i += 1;
            assert(before.take(i as int) =~= before.take(i - 1).push(before[i - 1]));
            assert(before.skip(i as int) =~= before.skip(i - 1).skip(1));
        }
        proof {
            seen = seen + 1;
        }
    }
    assert(all.take(seen) =~= all);
    assert(bytes_of_paths(paths@).take(i as int) =~= bytes_of_paths(paths@));
}

/// Puts paths in ascending order and takes out those that are there twice.
pub fn sort_and_dedup(paths: &mut Vec<PathBuf>)
    ensures
        is_sorted_listing(bytes_of_paths(final(paths)@), bytes_of_paths(old(paths)@)),
{
    let ghost all = bytes_of_paths(paths@);
    sort_paths(paths);
    let ghost sorted = bytes_of_paths(paths@);
    dedup_paths(paths);
    proof {
        lemma_deduped(sorted);
        let listed = bytes_of_paths(paths@);
        assert forall|i: int| 0 <= i < listed.len() implies {
            let alike = all.filter(in_class(path_class(#[trigger] listed[i])));
            alike.len() > 0 && alike[0] == listed[i]
        } by {
            let pred = in_class(path_class(listed[i]));
            assert(sorted.filter(pred) == all.filter(pred));
        }
        assert forall|k: int| 0 <= k < all.len() implies has_class(
                listed,
                path_class(#[trigger] all[k]),
            ) by {
            let pred = in_class(path_class(all[k]));
            all.lemma_filter_contains(pred, k);
            assert(sorted.filter(pred) == all.filter(pred));
            sorted.lemma_filter_contains_rev(pred, all[k]);
            let m = choose|m: int| 0 <= m < sorted.len() && sorted[m] == all[k];
            let i = choose|i: int|
                0 <= i < listed.len() && path_class(#[trigger] listed[i]) == path_class(sorted[m]);
            assert(path_class(listed[i]) == path_class(all[k]));
        }
    }
}

} // verus!
