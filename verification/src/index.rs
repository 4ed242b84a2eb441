//! From the contexts of a project to the steps that it has.

use std::path::PathBuf;

use vstd::prelude::*;

use crate::contexts::normalize_class_name;
use crate::paths::{copy_path, same_path};
use crate::php::{parse_php_file, ParsedClass, ParsedFile};
use crate::psr4::{
    build_psr4_map, context_candidates, resolve_context_paths, ComposerFile, ContextCandidates,
    FoundFiles, IndexError,
};
use crate::steps::StepDef;
use crate::text::contains_text;

verus! {

use crate::paths::{
    bytes_of_paths, has_class, in_class, is_sorted_listing, path_bytes, path_class,
};
use crate::php::{
    declared_classes, kinds_known, lemma_declared_kinds, php_parsed, ParsedClassView,
    ParsedStepView,
};
use crate::psr4::{
    candidates_of, files_of_context, gathered_mappings, ordered_mappings, CandidatesView,
    ComposerFileView, FoundView, IndexErrorView,
};
use crate::steps::{StepKind, StepView};
use crate::text::without_leading_backslashes;

/// The files that a context was found in.
#[derive(Debug)]
pub struct ContextPaths {
    pub context: String,
    pub paths: Vec<PathBuf>,
}

/// What a `ContextPaths` says.
pub struct ContextPathsView {
    pub context: Seq<char>,
    pub paths: Seq<Seq<u8>>,
}

impl DeepView for ContextPaths {
    type V = ContextPathsView;

    open spec fn deep_view(&self) -> ContextPathsView {
        ContextPathsView { context: self.context@, paths: bytes_of_paths(self.paths@) }
    }
}

/// A file, and the contexts that were found in it.
#[derive(Debug)]
pub struct ContextFile {
    pub path: PathBuf,
    pub contexts: Vec<String>,
}

/// What a `ContextFile` says.
pub struct ContextFileView {
    pub path: Seq<u8>,
    pub contexts: Seq<Seq<char>>,
}

impl DeepView for ContextFile {
    type V = ContextFileView;

    open spec fn deep_view(&self) -> ContextFileView {
        ContextFileView { path: path_bytes(self.path), contexts: self.contexts.deep_view() }
    }
}

/// The files that may hold each of the contexts, or what is wrong with the Composer files.
pub open spec fn located_contexts(
    contexts: Seq<Seq<char>>,
    root: Seq<u8>,
    files: Seq<ComposerFileView>,
) -> Result<Seq<CandidatesView>, IndexErrorView> {
    match gathered_mappings(files) {
        Ok(mappings) => Ok(
            contexts.map_values(
                |context: Seq<char>| candidates_of(context, root, ordered_mappings(mappings)),
            ),
        ),
        Err(error) => Err(error),
    }
}

/// What is known of which candidates of a context exist: none does, where nothing is said.
pub open spec fn found_at(found: Seq<FoundView>, i: int) -> FoundView {
    if i < found.len() {
        found[i]
    } else {
        FoundView { mapped: Seq::empty(), fallback: Seq::empty() }
    }
}

/// Whether `resolved` gives for each context its files in ascending order and each once.
pub open spec fn is_resolution(
    resolved: Seq<ContextPathsView>,
    candidates: Seq<CandidatesView>,
    found: Seq<FoundView>,
) -> bool {
    &&& resolved.len() == candidates.len()
    &&& forall|i: int|
        0 <= i < resolved.len() ==> (#[trigger] resolved[i]).context == candidates[i].context
            && is_sorted_listing(
            resolved[i].paths,
            files_of_context(candidates[i], found_at(found, i)),
        )
}

/// Where among `files` the path first stands, or how many files there are, where it does not.
pub open spec fn file_at(files: Seq<ContextFileView>, path: Seq<u8>) -> nat
    decreases files.len(),
{
    if files.len() == 0 {
        0
    } else {
        let before = file_at(files.drop_last(), path);
        if before < files.len() - 1 || path_class(files.last().path) == path_class(path) {
            before
        } else {
            files.len()
        }
    }
}

/// `names` with `name` among them.
pub open spec fn with_name(names: Seq<Seq<char>>, name: Seq<char>) -> Seq<Seq<char>> {
    if names.contains(name) {
        names
    } else {
        names.push(name)
    }
}

/// `files` once a context was found in the file of a path.
pub open spec fn with_context(
    files: Seq<ContextFileView>,
    context: Seq<char>,
    path: Seq<u8>,
) -> Seq<ContextFileView> {
    let at = file_at(files, path);
    if at < files.len() {
        files.update(
            at as int,
            ContextFileView {
                path: files[at as int].path,
                contexts: with_name(files[at as int].contexts, context),
            },
        )
    } else {
        files.push(ContextFileView { path, contexts: seq![context] })
    }
}

/// `files` once a context was found in the files of `paths`.
pub open spec fn with_context_paths(
    files: Seq<ContextFileView>,
    context: Seq<char>,
    paths: Seq<Seq<u8>>,
) -> Seq<ContextFileView>
    decreases paths.len(),
{
    if paths.len() == 0 {
        files
    } else {
        with_context(
            with_context_paths(files, context, paths.drop_last()),
            context,
            paths.last(),
        )
    }
}

/// The files that contexts were found in, each with its contexts, in the order in which they first
/// come up.
pub open spec fn grouped_by_file(found: Seq<ContextPathsView>) -> Seq<ContextFileView>
    decreases found.len(),
{
    if found.len() == 0 {
        Seq::empty()
    } else {
        with_context_paths(
            grouped_by_file(found.drop_last()),
            found.last().context,
            found.last().paths,
        )
    }
}

/// Whether a class is one of the contexts.
pub open spec fn is_context(class: ParsedClassView, contexts: Seq<Seq<char>>) -> bool {
    contexts.contains(without_leading_backslashes(class.fqcn))
}

/// The classes of a file that define steps: those that are contexts, or all where none is.
pub open spec fn defining_classes(
    classes: Seq<ParsedClassView>,
    contexts: Seq<Seq<char>>,
) -> Seq<ParsedClassView> {
    let matching = classes.filter(|class: ParsedClassView| is_context(class, contexts));
    if matching.len() > 0 {
        matching
    } else {
        classes
    }
}

/// The steps that a class in the file of a path defines.
pub open spec fn definitions_of(path: Seq<u8>, class: ParsedClassView) -> Seq<StepView> {
    class.steps.map_values(
        |step: ParsedStepView|
            StepView {
                text: step.text,
                source: path,
                class: Some(class.fqcn),
                kind: step.kind,
            },
    )
}

/// The steps that classes in the file of a path define.
pub open spec fn definitions_in(path: Seq<u8>, classes: Seq<ParsedClassView>) -> Seq<StepView> {
    classes.flat_map(|class: ParsedClassView| definitions_of(path, class))
}

/// The steps that a file with these classes defines.
pub open spec fn file_steps(file: ContextFileView, classes: Seq<ParsedClassView>) -> Seq<StepView> {
    definitions_in(file.path, defining_classes(classes, file.contexts))
}

/// The steps that a file with this text defines: none, where the text could not be read.
pub open spec fn source_steps(file: ContextFileView, source: Option<Seq<char>>) -> Seq<StepView> {
    match source {
        Some(text) => file_steps(file, declared_classes(php_parsed(text), None)),
        None => Seq::empty(),
    }
}

/// The text of a file, where it could be read: none, where nothing is said.
pub open spec fn source_at(sources: Seq<Option<Seq<char>>>, i: int) -> Option<Seq<char>> {
    if i < sources.len() {
        sources[i]
    } else {
        None
    }
}

/// The steps that files with these texts define, in the order of the files.
pub open spec fn indexed_steps(
    files: Seq<ContextFileView>,
    sources: Seq<Option<Seq<char>>>,
) -> Seq<StepView>
    decreases files.len(),
{
    if files.len() == 0 {
        Seq::empty()
    } else {
        indexed_steps(files.drop_last(), sources) + source_steps(
            files.last(),
            source_at(sources, files.len() - 1),
        )
    }
}

/// Whether a context was found in a file of a class of paths.
pub open spec fn was_found(
    found: Seq<ContextPathsView>,
    context: Seq<char>,
    class: Seq<u8>,
) -> bool {
    exists|i: int|
        0 <= i < found.len() && (#[trigger] found[i]).context == context && has_class(
            found[i].paths,
            class,
        )
}

/// Whether a context stands with a file of a class of paths.
pub open spec fn stands_with(
    files: Seq<ContextFileView>,
    context: Seq<char>,
    class: Seq<u8>,
) -> bool {
    exists|i: int|
        0 <= i < files.len() && path_class((#[trigger] files[i]).path) == class
            && files[i].contexts.contains(context)
}

/// No file and no context of a file stands twice, and no file stands without a context.
pub open spec fn files_distinct(files: Seq<ContextFileView>) -> bool {
    &&& forall|i: int, j: int|
        0 <= i < j < files.len() ==> path_class((#[trigger] files[i]).path) != path_class(
            (#[trigger] files[j]).path,
        )
    &&& forall|i: int|
        0 <= i < files.len() ==> (#[trigger] files[i]).contexts.no_duplicates()
            && files[i].contexts.len() > 0
}

proof fn lemma_file_at_first(files: Seq<ContextFileView>, path: Seq<u8>)
    ensures
        file_at(files, path) <= files.len(),
        file_at(files, path) < files.len() ==> path_class(
            files[file_at(files, path) as int].path,
        ) == path_class(path),
        forall|i: int|
            0 <= i < file_at(files, path) ==> path_class((#[trigger] files[i]).path) != path_class(
                path,
            ),
    decreases files.len(),
{
    if files.len() > 0 {
        let init = files.drop_last();
        lemma_file_at_first(init, path);
        assert forall|i: int| 0 <= i < file_at(files, path) implies path_class(
            (#[trigger] files[i]).path,
        ) != path_class(path) by {
            if i < init.len() {
                assert(init[i] == files[i]);
            }
        }
    }
}

proof fn lemma_with_context(files: Seq<ContextFileView>, context: Seq<char>, path: Seq<u8>)
    requires
        files_distinct(files),
    ensures
        files_distinct(with_context(files, context, path)),
        forall|c: Seq<char>, class: Seq<u8>|
            #[trigger] stands_with(with_context(files, context, path), c, class) <==> (stands_with(
                files,
                c,
                class,
            ) || (c == context && class == path_class(path))),
{
    let at = file_at(files, path) as int;
    let after = with_context(files, context, path);
    lemma_file_at_first(files, path);
    if at < files.len() {
        let names = files[at].contexts;
        assert(with_name(names, context).no_duplicates());
        assert(with_name(names, context).contains(context)) by {
            if !names.contains(context) {
                assert(names.push(context)[names.len() as int] == context);
            }
        }
        assert forall|c: Seq<char>| with_name(names, context).contains(c) <==> (names.contains(c)
            || c == context) by {
            if names.contains(c) && !names.contains(context) {
                let k = choose|k: int| 0 <= k < names.len() && names[k] == c;
                assert(names.push(context)[k] == c);
            }
        }
        assert forall|c: Seq<char>, class: Seq<u8>|
            #[trigger] stands_with(after, c, class) <==> (stands_with(files, c, class) || (c
                == context && class == path_class(path))) by {
            if stands_with(after, c, class) {
                let i = choose|i: int|
                    0 <= i < after.len() && path_class((#[trigger] after[i]).path) == class
                        && after[i].contexts.contains(c);
                assert(path_class(files[i].path) == class);
            }
            if stands_with(files, c, class) {
                let i = choose|i: int|
                    0 <= i < files.len() && path_class((#[trigger] files[i]).path) == class
                        && files[i].contexts.contains(c);
                assert(path_class(after[i].path) == class);
            }
            if c == context && class == path_class(path) {
                assert(path_class(after[at].path) == class);
            }
        }
    } else {
        let last = files.len() as int;
        assert(after[last].contexts[0] == context);
        assert forall|c: Seq<char>, class: Seq<u8>|
            #[trigger] stands_with(after, c, class) <==> (stands_with(files, c, class) || (c
                == context && class == path_class(path))) by {
            if stands_with(after, c, class) {
                let i = choose|i: int|
                    0 <= i < after.len() && path_class((#[trigger] after[i]).path) == class
                        && after[i].contexts.contains(c);
                if i < files.len() {
                    assert(files[i] == after[i]);
                }
            }
            if stands_with(files, c, class) {
                let i = choose|i: int|
                    0 <= i < files.len() && path_class((#[trigger] files[i]).path) == class
                        && files[i].contexts.contains(c);
                assert(files[i] == after[i]);
            }
            if c == context && class == path_class(path) {
                assert(path_class(after[last].path) == class);
            }
        }
    }
}

proof fn lemma_with_context_paths(
    files: Seq<ContextFileView>,
    context: Seq<char>,
    paths: Seq<Seq<u8>>,
)
    requires
        files_distinct(files),
    ensures
        files_distinct(with_context_paths(files, context, paths)),
        forall|c: Seq<char>, class: Seq<u8>|
            #[trigger] stands_with(with_context_paths(files, context, paths), c, class) <==> (
            stands_with(files, c, class) || (c == context && has_class(paths, class))),
    decreases paths.len(),
{
    if paths.len() > 0 {
        let init = paths.drop_last();
        lemma_with_context_paths(files, context, init);
        lemma_with_context(with_context_paths(files, context, init), context, paths.last());
        assert forall|class: Seq<u8>| #[trigger] has_class(paths, class) <==> (has_class(
            init,
            class,
        ) || class == path_class(paths.last())) by {
            if has_class(init, class) {
                let i = choose|i: int|
                    0 <= i < init.len() && path_class(#[trigger] init[i]) == class;
                assert(path_class(paths[i]) == class);
            }
            if has_class(paths, class) {
                let i = choose|i: int|
                    0 <= i < paths.len() && path_class(#[trigger] paths[i]) == class;
                if i < init.len() {
                    assert(path_class(init[i]) == class);
                }
            }
            if class == path_class(paths.last()) {
                assert(path_class(paths[paths.len() - 1]) == class);
            }
        }
    }
}

/// Each file stands once, with at least one context and each of its contexts once, and a context
/// stands with a file just where it was found there.
pub proof fn lemma_grouped_by_file(found: Seq<ContextPathsView>)
    ensures
        files_distinct(grouped_by_file(found)),
        forall|context: Seq<char>, class: Seq<u8>|
            #[trigger] stands_with(grouped_by_file(found), context, class) <==> was_found(
                found,
                context,
                class,
            ),
    decreases found.len(),
{
    if found.len() > 0 {
        let init = found.drop_last();
        let last = found.last();
        lemma_grouped_by_file(init);
        lemma_with_context_paths(grouped_by_file(init), last.context, last.paths);
        assert forall|context: Seq<char>, class: Seq<u8>|
            #[trigger] stands_with(grouped_by_file(found), context, class) <==> was_found(
                found,
                context,
                class,
            ) by {
            if was_found(init, context, class) {
                let i = choose|i: int|
                    0 <= i < init.len() && (#[trigger] init[i]).context == context && has_class(
                        init[i].paths,
                        class,
                    );
                assert(found[i] == init[i]);
            }
            if was_found(found, context, class) {
                let i = choose|i: int|
                    0 <= i < found.len() && (#[trigger] found[i]).context == context && has_class(
                        found[i].paths,
                        class,
                    );
                if i < init.len() {
                    assert(found[i] == init[i]);
                }
            }
            if context == last.context && has_class(last.paths, class) {
                assert(found[found.len() - 1].context == context);
            }
        }
    }
}

/// Whether one of the classes, in the file of a path, defines a step.
pub open spec fn is_defined_by(
    step: StepView,
    path: Seq<u8>,
    classes: Seq<ParsedClassView>,
) -> bool {
    exists|i: int|
        0 <= i < classes.len() && definitions_of(path, #[trigger] classes[i]).contains(step)
}

proof fn lemma_definitions_in(path: Seq<u8>, classes: Seq<ParsedClassView>, step: StepView)
    ensures
        definitions_in(path, classes).contains(step) <==> is_defined_by(step, path, classes),
    decreases classes.len(),
{
    let all = definitions_in(path, classes);
    if classes.len() == 0 {
        assert(all =~= Seq::empty());
    } else {
        let init = classes.drop_last();
        let last = classes.last();
        let before = definitions_in(path, init);
        let behind = definitions_of(path, last);
        assert(classes =~= init.push(last));
        lemma_definitions_push(path, init, last);
        lemma_definitions_in(path, init, step);
        assert(all == before + behind);
        if all.contains(step) {
            let k = choose|k: int| 0 <= k < all.len() && all[k] == step;
            if k < before.len() {
                assert(before[k] == step);
                let i = choose|i: int|
                    0 <= i < init.len() && definitions_of(path, #[trigger] init[i]).contains(step);
                assert(definitions_of(path, classes[i]).contains(step));
            } else {
                assert(behind[k - before.len()] == step);
                assert(definitions_of(path, classes[classes.len() - 1]).contains(step));
            }
        }
        if is_defined_by(step, path, classes) {
            let i = choose|i: int|
                0 <= i < classes.len() && definitions_of(path, #[trigger] classes[i]).contains(
                    step,
                );
            if i < init.len() {
                assert(definitions_of(path, init[i]).contains(step));
                let k = choose|k: int| 0 <= k < before.len() && before[k] == step;
                assert(all[k] == step);
            } else {
                let k = choose|k: int| 0 <= k < behind.len() && behind[k] == step;
                assert(all[before.len() + k] == step);
            }
        }
    }
}

/// The steps of a file are those that its classes define. Where one of the classes is a context,
/// the classes that are not define none.
pub proof fn lemma_file_steps(file: ContextFileView, classes: Seq<ParsedClassView>, step: StepView)
    ensures
        file_steps(file, classes).contains(step) <==> exists|i: int|
            0 <= i < classes.len() && definitions_of(file.path, #[trigger] classes[i]).contains(
                step,
            ) && ((exists|j: int|
                0 <= j < classes.len() && is_context(#[trigger] classes[j], file.contexts))
                ==> is_context(classes[i], file.contexts)),
{
    let matching = |class: ParsedClassView| is_context(class, file.contexts);
    let kept = classes.filter(matching);
    let chosen = defining_classes(classes, file.contexts);
    let any = exists|j: int|
        0 <= j < classes.len() && is_context(#[trigger] classes[j], file.contexts);
    lemma_definitions_in(file.path, chosen, step);
    assert(any <==> kept.len() > 0) by {
        if any {
            let j = choose|j: int|
                0 <= j < classes.len() && is_context(#[trigger] classes[j], file.contexts);
            classes.lemma_filter_contains(matching, j);
        }
        if kept.len() > 0 {
            assert(kept.contains(kept[0]));
            classes.lemma_filter_contains_rev(matching, kept[0]);
            let j = choose|j: int| 0 <= j < classes.len() && classes[j] == kept[0];
            lemma_filter_satisfies(classes, matching, 0);
            assert(is_context(classes[j], file.contexts));
        }
    }
    if file_steps(file, classes).contains(step) {
        let k = choose|k: int|
            0 <= k < chosen.len() && definitions_of(file.path, #[trigger] chosen[k]).contains(step);
        if any {
            assert(kept.contains(kept[k]));
            classes.lemma_filter_contains_rev(matching, kept[k]);
            lemma_filter_satisfies(classes, matching, k);
            let i = choose|i: int| 0 <= i < classes.len() && classes[i] == kept[k];
            assert(definitions_of(file.path, classes[i]).contains(step));
        } else {
            assert(definitions_of(file.path, classes[k]).contains(step));
        }
    }
    if exists|i: int|
        0 <= i < classes.len() && definitions_of(file.path, #[trigger] classes[i]).contains(step)
            && (any ==> is_context(classes[i], file.contexts)) {
        let i = choose|i: int|
            0 <= i < classes.len() && definitions_of(file.path, #[trigger] classes[i]).contains(
                step,
            ) && (any ==> is_context(classes[i], file.contexts));
        if any {
            classes.lemma_filter_contains(matching, i);
            let k = choose|k: int| 0 <= k < kept.len() && kept[k] == classes[i];
            assert(definitions_of(file.path, chosen[k]).contains(step));
        } else {
            assert(definitions_of(file.path, chosen[i]).contains(step));
        }
    }
}

proof fn lemma_filter_satisfies(
    classes: Seq<ParsedClassView>,
    matching: spec_fn(ParsedClassView) -> bool,
    k: int,
)
    requires
        0 <= k < classes.filter(matching).len(),
    ensures
        matching(classes.filter(matching)[k]),
    decreases classes.len(),
{
    reveal(Seq::filter);
    if classes.len() > 0 {
        let before = classes.drop_last().filter(matching);
        if k < before.len() {
            lemma_filter_satisfies(classes.drop_last(), matching, k);
        }
    }
}

/// Each step of the index is defined by a class in one of the files, with a word of its own.
pub proof fn lemma_indexed_steps(
    files: Seq<ContextFileView>,
    sources: Seq<Option<Seq<char>>>,
    step: StepView,
)
    requires
        indexed_steps(files, sources).contains(step),
    ensures
        exists|i: int|
            0 <= i < files.len() && i < sources.len() && sources[i] is Some && source_steps(
                #[trigger] files[i],
                sources[i],
            ).contains(step),
        exists|i: int| 0 <= i < files.len() && (#[trigger] files[i]).path == step.source,
        step.class is Some,
        step.kind != StepKind::Other,
    decreases files.len(),
{
    let init = files.drop_last();
    let n = files.len() - 1;
    let source = source_at(sources, n);
    let before = indexed_steps(init, sources);
    let behind = source_steps(files.last(), source);
    let k = choose|k: int| 0 <= k < (before + behind).len() && (before + behind)[k] == step;
    if k < before.len() {
        assert(before[k] == step);
        lemma_indexed_steps(init, sources, step);
        let i = choose|i: int|
            0 <= i < init.len() && i < sources.len() && sources[i] is Some && source_steps(
                #[trigger] init[i],
                sources[i],
            ).contains(step);
        assert(source_steps(files[i], sources[i]).contains(step));
        let j = choose|j: int| 0 <= j < init.len() && (#[trigger] init[j]).path == step.source;
        assert(files[j].path == step.source);
    } else {
        assert(behind[k - before.len()] == step);
        assert(source_steps(files[n], sources[n]).contains(step));
        let classes = declared_classes(php_parsed(source->0), None);
        lemma_file_steps(files[n], classes, step);
        let i = choose|i: int|
            0 <= i < classes.len() && definitions_of(files[n].path, #[trigger] classes[i]).contains(
                step,
            );
        assert(files[n].path == step.source);
        lemma_declared_kinds(php_parsed(source->0), None);
        let steps = classes[i].steps;
        let defined = definitions_of(files[n].path, classes[i]);
        let m = choose|m: int| 0 <= m < defined.len() && defined[m] == step;
        assert(kinds_known(classes[i].steps));
        assert(steps[m].kind != StepKind::Other);
    }
}

/// Each step of the index is defined in a file that a context was found in.
pub proof fn lemma_steps_of_contexts(
    found: Seq<ContextPathsView>,
    sources: Seq<Option<Seq<char>>>,
    step: StepView,
)
    requires
        indexed_steps(grouped_by_file(found), sources).contains(step),
    ensures
        exists|context: Seq<char>| #[trigger] was_found(found, context, path_class(step.source)),
{
    let files = grouped_by_file(found);
    lemma_grouped_by_file(found);
    lemma_indexed_steps(files, sources, step);
    let i = choose|i: int| 0 <= i < files.len() && (#[trigger] files[i]).path == step.source;
    let context = files[i].contexts[0];
    assert(files[i].contexts.contains(context));
    assert(stands_with(files, context, path_class(step.source)));
    assert(was_found(found, context, path_class(step.source)));
}

/// Whether a path is one of the candidates of a context, and was found.
pub open spec fn is_found_candidate(
    path: Seq<u8>,
    candidates: CandidatesView,
    found: FoundView,
) -> bool {
    files_of_context(candidates, found).contains(path)
}

/// Each step of the index is defined in a file that is a candidate of a context and was found.
pub proof fn lemma_steps_of_found_files(
    resolved: Seq<ContextPathsView>,
    candidates: Seq<CandidatesView>,
    found: Seq<FoundView>,
    sources: Seq<Option<Seq<char>>>,
    step: StepView,
)
    requires
        is_resolution(resolved, candidates, found),
        indexed_steps(grouped_by_file(resolved), sources).contains(step),
    ensures
        exists|i: int, path: Seq<u8>|
            0 <= i < candidates.len() && path_class(path) == path_class(step.source)
                && #[trigger] is_found_candidate(path, candidates[i], found_at(found, i)),
{
    lemma_steps_of_contexts(resolved, sources, step);
    let class = path_class(step.source);
    let context = choose|context: Seq<char>| #[trigger] was_found(resolved, context, class);
    let i = choose|i: int|
        0 <= i < resolved.len() && (#[trigger] resolved[i]).context == context && has_class(
            resolved[i].paths,
            class,
        );
    let listed = resolved[i].paths;
    let paths = files_of_context(candidates[i], found_at(found, i));
    let k = choose|k: int| 0 <= k < listed.len() && path_class(#[trigger] listed[k]) == class;
    let pred = in_class(path_class(listed[k]));
    let alike = paths.filter(pred);
    assert(alike.len() > 0 && alike[0] == listed[k]);
    assert(alike.contains(alike[0]));
    paths.lemma_filter_contains_rev(pred, alike[0]);
    assert(is_found_candidate(listed[k], candidates[i], found_at(found, i)));
}

/// The files that may hold each of the contexts.
pub fn locate_contexts(
    contexts: &Vec<String>,
    root: &PathBuf,
    files: &Vec<ComposerFile>,
) -> (candidates: Result<Vec<ContextCandidates>, IndexError>)
    ensures
        match (
            candidates,
            located_contexts(contexts.deep_view(), path_bytes(*root), files.deep_view()),
        ) {
            (Ok(found), Ok(expected)) => found.deep_view() == expected,
            (Err(error), Err(expected)) => error.deep_view() == expected,
            _ => false,
        },
{
    let mappings = match build_psr4_map(files) {
        Ok(mappings) => mappings,
        Err(error) => {
            return Err(error);
        },
    };
    let ghost names = contexts.deep_view();
    let ghost r = path_bytes(*root);
    let mut candidates: Vec<ContextCandidates> = Vec::new();
    let mut i: usize = 0;
    while i < contexts.len()
        invariant
            i <= contexts@.len(),
            names == contexts.deep_view(),
            r == path_bytes(*root),
            candidates@.len() == i,
            forall|j: int|
                0 <= j < i ==> (#[trigger] candidates@[j]).deep_view() == candidates_of(
                    names[j],
                    r,
                    mappings.deep_view(),
                ),
        decreases contexts@.len() - i,
    {
        candidates.push(context_candidates(contexts[i].as_str(), root, &mappings));
        i += 1;
    }
    assert(candidates.deep_view() =~= names.map_values(
        |context: Seq<char>| candidates_of(context, r, mappings.deep_view()),
    ));
    Ok(candidates)
}

/// The files that each context is in, given which of the candidates exist.
pub fn resolve_contexts(candidates: &Vec<ContextCandidates>, found: &Vec<FoundFiles>) -> (resolved:
    Vec<ContextPaths>)
    ensures
        is_resolution(resolved.deep_view(), candidates.deep_view(), found.deep_view()),
{
    let none = FoundFiles { mapped: Vec::new(), fallback: Vec::new() };
    let mut resolved: Vec<ContextPaths> = Vec::new();
    let mut i: usize = 0;
    assert(none.mapped@ =~= Seq::empty() && none.fallback@ =~= Seq::empty());
    while i < candidates.len()
        invariant
            i <= candidates@.len(),
            none.mapped@ == Seq::<bool>::empty(),
            none.fallback@ == Seq::<bool>::empty(),
            resolved@.len() == i,
            forall|j: int|
                0 <= j < i ==> {
                    &&& (#[trigger] resolved@[j]).deep_view().context
                        == candidates@[j].deep_view().context
                    &&& is_sorted_listing(
                        resolved@[j].deep_view().paths,
                        files_of_context(
                            candidates@[j].deep_view(),
                            found_at(found.deep_view(), j),
                        ),
                    )
                },
        decreases candidates@.len() - i,
    {
        let known = if i < found.len() {
            &found[i]
        } else {
            &none
        };
        assert(known.deep_view() == found_at(found.deep_view(), i as int));
        let paths = resolve_context_paths(&candidates[i], known);
        resolved.push(ContextPaths { context: candidates[i].context.clone(), paths });
        i += 1;
    }
    assert forall|j: int| 0 <= j < resolved@.len() implies {
        &&& (#[trigger] resolved.deep_view()[j]).context == candidates.deep_view()[j].context
        &&& is_sorted_listing(
            resolved.deep_view()[j].paths,
            files_of_context(candidates.deep_view()[j], found_at(found.deep_view(), j)),
        )
    } by {
        assert(resolved.deep_view()[j] == resolved@[j].deep_view());
        assert(candidates.deep_view()[j] == candidates@[j].deep_view());
    }
    resolved
}

/// Where among `files` the path first stands, or how many files there are.
fn find_file(files: &Vec<ContextFile>, path: &PathBuf) -> (at: usize)
    ensures
        at == file_at(files.deep_view(), path_bytes(*path)),
{
    let ghost all = files.deep_view();
    let mut i: usize = 0;
    while i < files.len()
        invariant
            i <= files@.len(),
            all == files.deep_view(),
            file_at(all.take(i as int), path_bytes(*path)) == i,
        decreases files@.len() - i,
    {
        assert(all.take(i + 1).drop_last() =~= all.take(i as int));
        assert(all[i as int] == files@[i as int].deep_view());
        if same_path(&files[i].path, path) {
            proof {
                lemma_file_at(all, path_bytes(*path), i + 1);
            }
            return i;
        }
        i += 1;
    }
    assert(all.take(i as int) =~= all);
    i
}

/// A path that stands among the first files stands first there among all of them.
proof fn lemma_file_at(files: Seq<ContextFileView>, path: Seq<u8>, n: int)
    requires
        0 <= n <= files.len(),
        file_at(files.take(n), path) < n,
    ensures
        file_at(files, path) == file_at(files.take(n), path),
    decreases files.len(),
{
    if n == files.len() {
        assert(files.take(n) =~= files);
    } else {
        assert(files.drop_last().take(n) =~= files.take(n));
        lemma_file_at(files.drop_last(), path, n);
    }
}

/// Takes note that a context was found in the file of a path.
fn add_context(files: &mut Vec<ContextFile>, context: &str, path: &PathBuf)
    ensures
        final(files).deep_view() == with_context(
            old(files).deep_view(),
            context@,
            path_bytes(*path),
        ),
{
    let ghost before = files.deep_view();
    let at = find_file(files, path);
    if at < files.len() {
        let file = files.remove(at);
        let mut contexts = file.contexts;
        assert(before[at as int].contexts == contexts.deep_view());
        if !contains_text(&contexts, context) {
            let ghost known = contexts.deep_view();
            contexts.push(context.to_owned());
            assert(contexts.deep_view() =~= known.push(context@));
        }
        files.insert(at, ContextFile { path: file.path, contexts });
        assert(files.deep_view() =~= with_context(before, context@, path_bytes(*path)));
    } else {
        let mut contexts: Vec<String> = Vec::new();
        contexts.push(context.to_owned());
        assert(contexts.deep_view() =~= seq![context@]);
        files.push(ContextFile { path: copy_path(path), contexts });
        assert(files.deep_view() =~= with_context(before, context@, path_bytes(*path)));
    }
}

/// The files that contexts were found in, each with its contexts.
pub fn group_by_file(found: &Vec<ContextPaths>) -> (files: Vec<ContextFile>)
    ensures
        files.deep_view() == grouped_by_file(found.deep_view()),
{
    let ghost all = found.deep_view();
    let mut files: Vec<ContextFile> = Vec::new();
    let mut i: usize = 0;
    assert(files.deep_view() =~= grouped_by_file(all.take(0)));
    while i < found.len()
        invariant
            i <= found@.len(),
            all == found.deep_view(),
            files.deep_view() == grouped_by_file(all.take(i as int)),
        decreases found@.len() - i,
    {
        let ghost before = files.deep_view();
        let entry = &found[i];
        let ghost paths = bytes_of_paths(entry.paths@);
        let mut j: usize = 0;
        assert(files.deep_view() =~= with_context_paths(before, entry.context@, paths.take(0)));
        while j < entry.paths.len()
            invariant
                j <= entry.paths@.len(),
                paths == bytes_of_paths(entry.paths@),
                files.deep_view() == with_context_paths(
                    before,
                    entry.context@,
                    paths.take(j as int),
                ),
            decreases entry.paths@.len() - j,
        {
            assert(paths.take(j + 1).drop_last() =~= paths.take(j as int));
            add_context(&mut files, entry.context.as_str(), &entry.paths[j]);
            j += 1;
        }
        proof {
            assert(paths.take(j as int) =~= paths);
            assert(all.take(i + 1).drop_last() =~= all.take(i as int));
            assert(all[i as int] == entry.deep_view());
        }
        i += 1;
    }
    assert(all.take(i as int) =~= all);
    files
}

/// Appends the steps that a class in the file of a path defines.
fn collect_definitions(path: &PathBuf, class: &ParsedClass, out: &mut Vec<StepDef>)
    ensures
        final(out).deep_view() == old(out).deep_view() + definitions_of(
            path_bytes(*path),
            class.deep_view(),
        ),
{
    let ghost steps = definitions_of(path_bytes(*path), class.deep_view());
    let mut i: usize = 0;
    assert(out.deep_view() =~= old(out).deep_view() + steps.take(0));
    while i < class.steps.len()
        invariant
            i <= class.steps@.len(),
            steps == definitions_of(path_bytes(*path), class.deep_view()),
            steps.len() == class.steps@.len(),
            out.deep_view() == old(out).deep_view() + steps.take(i as int),
        decreases class.steps@.len() - i,
    {
        let ghost before = out.deep_view();
        let step = &class.steps[i];
        assert(class.deep_view().steps[i as int] == step.deep_view());
        let definition = StepDef {
            text: step.text.clone(),
            source: copy_path(path),
            class: Some(class.fqcn.clone()),
            kind: step.kind,
        };
        out.push(definition);
        assert(out.deep_view() =~= before.push(steps[i as int]));
        i += 1;
        assert(out.deep_view() =~= old(out).deep_view() + steps.take(i as int));
    }
    assert(steps.take(i as int) =~= steps);
}

/// Appends the steps that the classes of a file define: those of the classes that are contexts, or
/// of all where none is.
pub fn collect_file_steps(file: &ContextFile, parsed: &ParsedFile, out: &mut Vec<StepDef>)
    ensures
        final(out).deep_view() == old(out).deep_view() + file_steps(
            file.deep_view(),
            parsed.classes.deep_view(),
        ),
{
    let ghost classes = parsed.classes.deep_view();
    let ghost contexts = file.contexts.deep_view();
    let ghost path = path_bytes(file.path);
    let ghost matching = |class: ParsedClassView| is_context(class, contexts);
    let mut matched_any = false;
    let mut i: usize = 0;
    assert(classes.take(0).filter(matching) =~= Seq::empty()) by {
        reveal(Seq::filter);
    }
    assert(out.deep_view() =~= old(out).deep_view() + definitions_in(
        path,
        classes.take(0).filter(matching),
    ));
    while i < parsed.classes.len()
        invariant
            i <= parsed.classes@.len(),
            classes == parsed.classes.deep_view(),
            contexts == file.contexts.deep_view(),
            path == path_bytes(file.path),
            matching == (|class: ParsedClassView| is_context(class, contexts)),
            matched_any == (classes.take(i as int).filter(matching).len() > 0),
            out.deep_view() == old(out).deep_view() + definitions_in(
                path,
                classes.take(i as int).filter(matching),
            ),
        decreases parsed.classes@.len() - i,
    {
        let class = &parsed.classes[i];
        let ghost kept = classes.take(i as int).filter(matching);
        proof {
            assert(classes.take(i + 1).drop_last() =~= classes.take(i as int));
            assert(classes[i as int] == class.deep_view());
            reveal(Seq::filter);
            lemma_definitions_push(path, kept, class.deep_view());
        }
        let fqcn = normalize_class_name(class.fqcn.as_str());
        if contains_text(&file.contexts, fqcn.as_str()) {
            matched_any = true;
            collect_definitions(&file.path, class, out);
            assert(classes.take(i + 1).filter(matching) == kept.push(class.deep_view()));
        }
        i += 1;
        assert(out.deep_view() =~= old(out).deep_view() + definitions_in(
            path,
            classes.take(i as int).filter(matching),
        ));
    }
    assert(classes.take(i as int) =~= classes);
    if !matched_any {
        assert(classes.filter(matching) =~= Seq::empty());
        assert(out.deep_view() =~= old(out).deep_view());
        let mut k: usize = 0;
        assert(out.deep_view() =~= old(out).deep_view() + definitions_in(path, classes.take(0)));
        while k < parsed.classes.len()
            invariant
                k <= parsed.classes@.len(),
                classes == parsed.classes.deep_view(),
                path == path_bytes(file.path),
                out.deep_view() == old(out).deep_view() + definitions_in(
                    path,
                    classes.take(k as int),
                ),
            decreases parsed.classes@.len() - k,
        {
            let class = &parsed.classes[k];
            proof {
                assert(classes.take(k + 1) =~= classes.take(k as int).push(class.deep_view()));
                lemma_definitions_push(path, classes.take(k as int), class.deep_view());
            }
            collect_definitions(&file.path, class, out);
            k += 1;
            assert(out.deep_view() =~= old(out).deep_view() + definitions_in(
                path,
                classes.take(k as int),
            ));
        }
        assert(classes.take(k as int) =~= classes);
    }
}

/// The steps of one class more come behind those of the others.
pub proof fn lemma_definitions_push(
    path: Seq<u8>,
    classes: Seq<ParsedClassView>,
    class: ParsedClassView,
)
    ensures
        definitions_in(path, classes.push(class)) == definitions_in(path, classes)
            + definitions_of(path, class),
{
    let all = classes.push(class);
    let n = classes.len() as int;
    let steps_of = |class: ParsedClassView| definitions_of(path, class);
    assert(all.take(n) =~= classes);
    assert(all.take(n + 1) =~= all);
    all.lemma_flat_map_take_append(steps_of, n);
}

/// The steps that files define, given their texts where they could be read.
pub fn index_steps(
    files: &Vec<ContextFile>,
    sources: &Vec<Option<String>>,
    root: &PathBuf,
) -> (steps: Vec<StepDef>)
    ensures
        steps.deep_view() == indexed_steps(files.deep_view(), sources.deep_view()),
{
    let ghost all = files.deep_view();
    let ghost texts = sources.deep_view();
    let mut steps: Vec<StepDef> = Vec::new();
    let mut i: usize = 0;
    assert(steps.deep_view() =~= indexed_steps(all.take(0), texts));
    while i < files.len()
        invariant
            i <= files@.len(),
            all == files.deep_view(),
            texts == sources.deep_view(),
            steps.deep_view() == indexed_steps(all.take(i as int), texts),
        decreases files@.len() - i,
    {
        let ghost before = steps.deep_view();
        let file = &files[i];
        proof {
            assert(all.take(i + 1).drop_last() =~= all.take(i as int));
            assert(all[i as int] == file.deep_view());
        }
        if i < sources.len() {
            assert(texts[i as int] == sources@[i as int].deep_view());
            if let Some(text) = &sources[i] {
                let parsed = parse_php_file(&file.path, root, text.clone());
                collect_file_steps(file, &parsed, &mut steps);
            }
        }
        i += 1;
        assert(steps.deep_view() =~= indexed_steps(all.take(i as int), texts));
    }
    assert(all.take(i as int) =~= all);
    steps
}

} // verus!
