//! What does not change the index: the order in which a configuration names its contexts, how often
//! it names them, and the backslashes before their names.
//!
//! Paths that are the same may be spelled in more than one way, and which spelling a step has can
//! depend on what came first. So steps are held to be the same where their files are.

use vstd::multiset::Multiset;
use vstd::prelude::*;

use crate::steps::StepKind;

verus! {

use crate::contexts::{
    configured_contexts, lemma_distinct_names, lemma_same_contexts, named_classes,
    names_same_contexts, normalized_names,
};
use crate::index::{
    defining_classes, definitions_in, definitions_of, files_distinct, found_at, grouped_by_file,
    indexed_steps, is_context, is_resolution, lemma_definitions_push, lemma_grouped_by_file,
    lemma_indexed_steps, lemma_steps_of_contexts, located_contexts, source_at, source_steps,
    stands_with, was_found, ContextFileView, ContextPathsView,
};
use crate::paths::{has_class, lemma_listed_classes, path_class};
use crate::php::{declared_classes, php_parsed, ParsedClassView};
use crate::psr4::{
    candidates_of, existing_files, files_of_context, gathered_mappings, ordered_mappings,
    CandidatesView, ComposerFileView, FoundView, IndexErrorView, MappingView,
};
use crate::stages::are_found_files;
use crate::steps::StepView;
use crate::text::{lemma_without_leading_backslashes_idempotent, without_leading_backslashes};
use vstd::seq_lib::lemma_multiset_commutative;

/// A step with what stands for all the paths that are the same as that of its file.
pub open spec fn step_by_class(step: StepView) -> StepView {
    StepView { source: path_class(step.source), ..step }
}

/// The steps with what stands for the paths of their files.
pub open spec fn steps_by_class(steps: Seq<StepView>) -> Seq<StepView> {
    steps.map_values(|step: StepView| step_by_class(step))
}

/// Which steps there are, and how often.
pub open spec fn step_counts(steps: Seq<StepView>) -> Multiset<StepView> {
    steps_by_class(steps).to_multiset()
}

/// What lies on disk.
pub struct Disk {
    /// The Composer files.
    pub composer: Seq<ComposerFileView>,
    /// Which paths there are.
    pub on_disk: spec_fn(Seq<u8>) -> bool,
    /// The text of the file that paths of a class lead to, where it can be read.
    pub read: spec_fn(Seq<u8>) -> Option<Seq<char>>,
}

/// What the stages of making an index come by: the candidates, which of them exist, the files, and
/// their texts.
pub struct Turns {
    pub candidates: Seq<CandidatesView>,
    pub found: Seq<FoundView>,
    pub files: Seq<ContextFileView>,
    pub sources: Seq<Option<Seq<char>>>,
}

/// Whether it is known of each of the candidates whether it is on disk.
pub open spec fn found_on_disk(
    found: Seq<FoundView>,
    candidates: Seq<CandidatesView>,
    on_disk: spec_fn(Seq<u8>) -> bool,
) -> bool {
    forall|i: int|
        0 <= i < candidates.len() ==> #[trigger] found_at(found, i) == existing_files(
            candidates[i],
            on_disk,
        )
}

/// Whether the texts are those that the files have on disk.
pub open spec fn read_from_disk(
    sources: Seq<Option<Seq<char>>>,
    files: Seq<ContextFileView>,
    read: spec_fn(Seq<u8>) -> Option<Seq<char>>,
) -> bool {
    forall|i: int|
        0 <= i < files.len() ==> #[trigger] source_at(sources, i) == read(
            path_class(files[i].path),
        )
}

/// Whether these are the turns that the making of an index takes for a configuration.
pub open spec fn are_turns(
    turns: Turns,
    configuration: Option<Seq<char>>,
    root: Seq<u8>,
    disk: Disk,
) -> bool {
    &&& located_contexts(configured_contexts(configuration), root, disk.composer) == Ok::<
        Seq<CandidatesView>,
        IndexErrorView,
    >(turns.candidates)
    &&& found_on_disk(turns.found, turns.candidates, disk.on_disk)
    &&& are_found_files(turns.files, turns.candidates, turns.found)
    &&& read_from_disk(turns.sources, turns.files, disk.read)
}

/// Whether two sequences have the same names.
spec fn same_names(a: Seq<Seq<char>>, b: Seq<Seq<char>>) -> bool {
    forall|name: Seq<char>| a.contains(name) <==> b.contains(name)
}

proof fn lemma_same_defining_classes(
    classes: Seq<ParsedClassView>,
    a: Seq<Seq<char>>,
    b: Seq<Seq<char>>,
)
    requires
        same_names(a, b),
    ensures
        defining_classes(classes, a) == defining_classes(classes, b),
{
    let in_a = |class: ParsedClassView| is_context(class, a);
    let in_b = |class: ParsedClassView| is_context(class, b);
    assert forall|class: ParsedClassView| #[trigger] in_a(class) == in_b(class) by {
        let name = without_leading_backslashes(class.fqcn);
        assert(a.contains(name) <==> b.contains(name));
    }
    assert(in_a =~= in_b);
}

proof fn lemma_by_class_add(a: Seq<StepView>, b: Seq<StepView>)
    ensures
        steps_by_class(a + b) == steps_by_class(a) + steps_by_class(b),
        step_counts(a + b) == step_counts(a).add(step_counts(b)),
{
    assert(steps_by_class(a + b) =~= steps_by_class(a) + steps_by_class(b));
    lemma_multiset_commutative(steps_by_class(a), steps_by_class(b));
}

/// Where two paths are the same, so are the steps that classes define in their files.
proof fn lemma_same_definitions(a: Seq<u8>, b: Seq<u8>, classes: Seq<ParsedClassView>)
    requires
        path_class(a) == path_class(b),
    ensures
        steps_by_class(definitions_in(a, classes)) == steps_by_class(definitions_in(b, classes)),
    decreases classes.len(),
{
    if classes.len() == 0 {
        assert(definitions_in(a, classes) =~= Seq::empty());
        assert(definitions_in(b, classes) =~= Seq::empty());
    } else {
        let init = classes.drop_last();
        let last = classes.last();
        assert(classes =~= init.push(last));
        lemma_same_definitions(a, b, init);
        lemma_definitions_push(a, init, last);
        lemma_definitions_push(b, init, last);
        lemma_by_class_add(definitions_in(a, init), definitions_of(a, last));
        lemma_by_class_add(definitions_in(b, init), definitions_of(b, last));
        assert(steps_by_class(definitions_of(a, last)) =~= steps_by_class(
            definitions_of(b, last),
        ));
    }
}

proof fn lemma_same_source_steps(a: ContextFileView, b: ContextFileView, source: Option<Seq<char>>)
    requires
        path_class(a.path) == path_class(b.path),
        same_names(a.contexts, b.contexts),
    ensures
        step_counts(source_steps(a, source)) == step_counts(source_steps(b, source)),
{
    if let Some(text) = source {
        let classes = declared_classes(php_parsed(text), None);
        lemma_same_defining_classes(classes, a.contexts, b.contexts);
        lemma_same_definitions(a.path, b.path, defining_classes(classes, a.contexts));
    }
}

/// The steps that a file defines on disk, and how often.
spec fn file_counts(
    file: ContextFileView,
    read: spec_fn(Seq<u8>) -> Option<Seq<char>>,
) -> Multiset<StepView> {
    step_counts(source_steps(file, read(path_class(file.path))))
}

/// The steps that files define on disk, and how often.
spec fn files_counts(
    files: Seq<ContextFileView>,
    read: spec_fn(Seq<u8>) -> Option<Seq<char>>,
) -> Multiset<StepView>
    decreases files.len(),
{
    if files.len() == 0 {
        Multiset::empty()
    } else {
        files_counts(files.drop_last(), read).add(file_counts(files.last(), read))
    }
}

proof fn lemma_counts_of_index(
    files: Seq<ContextFileView>,
    sources: Seq<Option<Seq<char>>>,
    read: spec_fn(Seq<u8>) -> Option<Seq<char>>,
)
    requires
        read_from_disk(sources, files, read),
    ensures
        step_counts(indexed_steps(files, sources)) == files_counts(files, read),
    decreases files.len(),
{
    if files.len() == 0 {
        let none = steps_by_class(indexed_steps(files, sources));
        assert(none =~= Seq::empty());
        none.to_multiset_ensures();
        assert(none.to_multiset() =~= Multiset::empty());
    } else {
        let init = files.drop_last();
        let n = files.len() - 1;
        assert forall|i: int| 0 <= i < init.len() implies #[trigger] source_at(sources, i) == read(
            path_class(init[i].path),
        ) by {
            assert(init[i] == files[i]);
        }
        lemma_counts_of_index(init, sources, read);
        assert(source_at(sources, n) == read(path_class(files[n].path)));
        lemma_by_class_add(
            indexed_steps(init, sources),
            source_steps(files.last(), source_at(sources, n)),
        );
    }
}

/// The steps of files are those of one of them and those of the others.
proof fn lemma_counts_without(
    files: Seq<ContextFileView>,
    j: int,
    read: spec_fn(Seq<u8>) -> Option<Seq<char>>,
)
    requires
        0 <= j < files.len(),
    ensures
        files_counts(files, read) == files_counts(files.remove(j), read).add(
            file_counts(files[j], read),
        ),
    decreases files.len(),
{
    let n = files.len() - 1;
    if j == n {
        assert(files.remove(j) =~= files.drop_last());
    } else {
        let init = files.drop_last();
        let rest = files.remove(j);
        lemma_counts_without(init, j, read);
        assert(rest.drop_last() =~= init.remove(j));
        assert(rest.last() == files.last());
        assert(files_counts(files, read) =~= files_counts(rest, read).add(
            file_counts(files[j], read),
        ));
    }
}

/// The contexts of a file are those that stand with its class of paths.
proof fn lemma_contexts_of_file(files: Seq<ContextFileView>, j: int, context: Seq<char>)
    requires
        files_distinct(files),
        0 <= j < files.len(),
    ensures
        files[j].contexts.contains(context) <==> stands_with(
            files,
            context,
            path_class(files[j].path),
        ),
{
    let class = path_class(files[j].path);
    if stands_with(files, context, class) {
        let i = choose|i: int|
            0 <= i < files.len() && path_class((#[trigger] files[i]).path) == class
                && files[i].contexts.contains(context);
        if i < j {
            assert(path_class(files[i].path) != path_class(files[j].path));
        } else if j < i {
            assert(path_class(files[j].path) != path_class(files[i].path));
        }
    }
}

/// Without one of the files, what stands with the others stays.
proof fn lemma_without_file(files: Seq<ContextFileView>, j: int)
    requires
        files_distinct(files),
        0 <= j < files.len(),
    ensures
        files_distinct(files.remove(j)),
        forall|context: Seq<char>, class: Seq<u8>|
            #[trigger] stands_with(files.remove(j), context, class) <==> stands_with(
                files,
                context,
                class,
            ) && class != path_class(files[j].path),
{
    let rest = files.remove(j);
    assert forall|a: int, b: int| 0 <= a < b < rest.len() implies path_class(
        (#[trigger] rest[a]).path,
    ) != path_class((#[trigger] rest[b]).path) by {
        let x = if a < j {
            a
        } else {
            a + 1
        };
        let y = if b < j {
            b
        } else {
            b + 1
        };
        assert(rest[a] == files[x] && rest[b] == files[y]);
    }
    assert forall|a: int| 0 <= a < rest.len() implies (
    #[trigger] rest[a]).contexts.no_duplicates() && rest[a].contexts.len() > 0 by {
        let x = if a < j {
            a
        } else {
            a + 1
        };
        assert(rest[a] == files[x]);
    }
    assert forall|context: Seq<char>, class: Seq<u8>|
        #[trigger] stands_with(rest, context, class) <==> stands_with(files, context, class)
            && class != path_class(files[j].path) by {
        if stands_with(rest, context, class) {
            let a = choose|a: int|
                0 <= a < rest.len() && path_class((#[trigger] rest[a]).path) == class
                    && rest[a].contexts.contains(context);
            let x = if a < j {
                a
            } else {
                a + 1
            };
            assert(rest[a] == files[x]);
            if x < j {
                assert(path_class(files[x].path) != path_class(files[j].path));
            } else {
                assert(path_class(files[j].path) != path_class(files[x].path));
            }
        }
        if stands_with(files, context, class) && class != path_class(files[j].path) {
            let x = choose|x: int|
                0 <= x < files.len() && path_class((#[trigger] files[x]).path) == class
                    && files[x].contexts.contains(context);
            let a = if x < j {
                x
            } else {
                x - 1
            };
            assert(rest[a] == files[x]);
        }
    }
}

/// Files with the same contexts define the same steps, in whatever order they and their contexts
/// come.
proof fn lemma_same_files_counts(
    a: Seq<ContextFileView>,
    b: Seq<ContextFileView>,
    read: spec_fn(Seq<u8>) -> Option<Seq<char>>,
)
    requires
        files_distinct(a),
        files_distinct(b),
        forall|context: Seq<char>, class: Seq<u8>|
            #[trigger] stands_with(a, context, class) <==> stands_with(b, context, class),
    ensures
        files_counts(a, read) == files_counts(b, read),
    decreases a.len(),
{
    if a.len() == 0 {
        if b.len() > 0 {
            let context = b[0].contexts[0];
            assert(b[0].contexts.contains(context));
            assert(stands_with(b, context, path_class(b[0].path)));
            assert(stands_with(a, context, path_class(b[0].path)));
        }
    } else {
        let i = a.len() - 1;
        let class = path_class(a[i].path);
        let first = a[i].contexts[0];
        assert(a[i].contexts.contains(first));
        assert(stands_with(a, first, class));
        assert(stands_with(b, first, class));
        let j = choose|j: int|
            0 <= j < b.len() && path_class((#[trigger] b[j]).path) == class
                && b[j].contexts.contains(first);
        assert forall|name: Seq<char>| a[i].contexts.contains(name) <==> b[j].contexts.contains(
            name,
        ) by {
            lemma_contexts_of_file(a, i, name);
            lemma_contexts_of_file(b, j, name);
            assert(stands_with(a, name, class) <==> stands_with(b, name, class));
        }
        lemma_same_source_steps(a[i], b[j], read(class));
        lemma_without_file(a, i);
        lemma_without_file(b, j);
        assert forall|context: Seq<char>, other: Seq<u8>|
            #[trigger] stands_with(a.remove(i), context, other) <==> stands_with(
                b.remove(j),
                context,
                other,
            ) by {
            assert(stands_with(a, context, other) <==> stands_with(b, context, other));
            assert(stands_with(b.remove(j), context, other) <==> stands_with(b, context, other)
                && other != class);
        }
        lemma_same_files_counts(a.remove(i), b.remove(j), read);
        lemma_counts_without(a, i, read);
        lemma_counts_without(b, j, read);
    }
}

/// Whether a path is one that a context resolves to: the same as one of its files.
pub open spec fn resolves_to(
    context: Seq<char>,
    path: Seq<u8>,
    root: Seq<u8>,
    mappings: Seq<MappingView>,
    on_disk: spec_fn(Seq<u8>) -> bool,
) -> bool {
    let candidates = candidates_of(context, root, mappings);
    has_class(
        files_of_context(candidates, existing_files(candidates, on_disk)),
        path_class(path),
    )
}

/// The mappings of the Composer files on disk, the longest prefixes first.
pub open spec fn mappings_on(disk: Disk) -> Seq<MappingView> {
    ordered_mappings(gathered_mappings(disk.composer)->Ok_0)
}

/// The files of the turns are those that the contexts of the configuration resolve to.
proof fn lemma_found_in_turns(
    turns: Turns,
    configuration: Option<Seq<char>>,
    root: Seq<u8>,
    disk: Disk,
    resolved: Seq<ContextPathsView>,
    context: Seq<char>,
    path: Seq<u8>,
)
    requires
        are_turns(turns, configuration, root, disk),
        is_resolution(resolved, turns.candidates, turns.found),
    ensures
        was_found(resolved, context, path_class(path)) <==> configured_contexts(
            configuration,
        ).contains(context) && resolves_to(
            context,
            path,
            root,
            mappings_on(disk),
            disk.on_disk,
        ),
{
    let contexts = configured_contexts(configuration);
    let class = path_class(path);
    assert(turns.candidates =~= contexts.map_values(
        |context: Seq<char>| candidates_of(context, root, mappings_on(disk)),
    ));
    assert(turns.candidates.len() == contexts.len());
    assert forall|i: int| 0 <= i < contexts.len() implies (has_class(
        (#[trigger] resolved[i]).paths,
        class,
    ) <==> resolves_to(contexts[i], path, root, mappings_on(disk), disk.on_disk)) by {
        assert(resolved[i].context == turns.candidates[i].context);
        assert(turns.candidates[i] == candidates_of(contexts[i], root, mappings_on(disk)));
        assert(found_at(turns.found, i) == existing_files(turns.candidates[i], disk.on_disk));
        lemma_listed_classes(
            resolved[i].paths,
            files_of_context(turns.candidates[i], found_at(turns.found, i)),
            class,
        );
    }
    if was_found(resolved, context, class) {
        let i = choose|i: int|
            0 <= i < resolved.len() && (#[trigger] resolved[i]).context == context && has_class(
                resolved[i].paths,
                class,
            );
        assert(turns.candidates[i].context == contexts[i]);
        assert(contexts[i] == context);
    }
    if contexts.contains(context) && resolves_to(
        context,
        path,
        root,
        mappings_on(disk),
        disk.on_disk,
    ) {
        let i = choose|i: int| 0 <= i < contexts.len() && contexts[i] == context;
        assert(resolved[i].context == turns.candidates[i].context);
        assert(turns.candidates[i].context == contexts[i]);
    }
}

/// A context stands with a file of the index just where the configuration names it and it resolves
/// to the path of the file.
pub proof fn lemma_files_of_index(
    turns: Turns,
    configuration: Option<Seq<char>>,
    root: Seq<u8>,
    disk: Disk,
    context: Seq<char>,
    path: Seq<u8>,
)
    requires
        are_turns(turns, configuration, root, disk),
    ensures
        stands_with(turns.files, context, path_class(path)) <==> configured_contexts(
            configuration,
        ).contains(context) && resolves_to(context, path, root, mappings_on(disk), disk.on_disk),
        files_distinct(turns.files),
{
    let resolved = choose|resolved: Seq<ContextPathsView>| #[trigger]
        is_resolution(resolved, turns.candidates, turns.found) && turns.files == grouped_by_file(
            resolved,
        );
    lemma_grouped_by_file(resolved);
    lemma_found_in_turns(turns, configuration, root, disk, resolved, context, path);
}

/// The order in which a configuration names its contexts, how often it names each, and the
/// backslashes before their names do not change which steps the index holds, nor how often it holds
/// each.
pub proof fn lemma_same_steps(
    a: Option<Seq<char>>,
    b: Option<Seq<char>>,
    root: Seq<u8>,
    disk: Disk,
    turns_a: Turns,
    turns_b: Turns,
)
    requires
        names_same_contexts(a, b),
        are_turns(turns_a, a, root, disk),
        are_turns(turns_b, b, root, disk),
    ensures
        step_counts(indexed_steps(turns_a.files, turns_a.sources)) == step_counts(
            indexed_steps(turns_b.files, turns_b.sources),
        ),
{
    let resolved_a = choose|resolved: Seq<ContextPathsView>| #[trigger]
        is_resolution(resolved, turns_a.candidates, turns_a.found) && turns_a.files
            == grouped_by_file(resolved);
    let resolved_b = choose|resolved: Seq<ContextPathsView>| #[trigger]
        is_resolution(resolved, turns_b.candidates, turns_b.found) && turns_b.files
            == grouped_by_file(resolved);
    lemma_grouped_by_file(resolved_a);
    lemma_grouped_by_file(resolved_b);
    assert forall|context: Seq<char>, class: Seq<u8>|
        #[trigger] stands_with(turns_a.files, context, class) <==> stands_with(
            turns_b.files,
            context,
            class,
        ) by {
        lemma_same_contexts(a, b, context);
        assert(stands_with(turns_a.files, context, class) <==> was_found(
            resolved_a,
            context,
            class,
        ));
        assert(stands_with(turns_b.files, context, class) <==> was_found(
            resolved_b,
            context,
            class,
        ));
        if was_found(resolved_a, context, class) {
            let path = lemma_path_of_class(resolved_a, context, class);
            lemma_found_in_turns(turns_a, a, root, disk, resolved_a, context, path);
            lemma_found_in_turns(turns_b, b, root, disk, resolved_b, context, path);
        }
        if was_found(resolved_b, context, class) {
            let path = lemma_path_of_class(resolved_b, context, class);
            lemma_found_in_turns(turns_a, a, root, disk, resolved_a, context, path);
            lemma_found_in_turns(turns_b, b, root, disk, resolved_b, context, path);
        }
    }
    lemma_same_files_counts(turns_a.files, turns_b.files, disk.read);
    lemma_counts_of_index(turns_a.files, turns_a.sources, disk.read);
    lemma_counts_of_index(turns_b.files, turns_b.sources, disk.read);
}

/// A path of the class that a context was found in.
proof fn lemma_path_of_class(
    resolved: Seq<ContextPathsView>,
    context: Seq<char>,
    class: Seq<u8>,
) -> (path: Seq<u8>)
    requires
        was_found(resolved, context, class),
    ensures
        path_class(path) == class,
{
    let i = choose|i: int|
        0 <= i < resolved.len() && (#[trigger] resolved[i]).context == context && has_class(
            resolved[i].paths,
            class,
        );
    let paths = resolved[i].paths;
    let k = choose|k: int| 0 <= k < paths.len() && path_class(#[trigger] paths[k]) == class;
    paths[k]
}

/// Each step of the index has a class and a word of its own, and its file is one that a class named
/// in the configuration resolves to.
pub proof fn lemma_steps_of_named_classes(
    configuration: Option<Seq<char>>,
    root: Seq<u8>,
    disk: Disk,
    turns: Turns,
    step: StepView,
)
    requires
        are_turns(turns, configuration, root, disk),
        indexed_steps(turns.files, turns.sources).contains(step),
    ensures
        step.class is Some,
        step.kind != StepKind::Other,
        exists|name: Seq<char>| #[trigger]
            named_classes(configuration).contains(name) && resolves_to(
                name,
                step.source,
                root,
                mappings_on(disk),
                disk.on_disk,
            ),
{
    let resolved = choose|resolved: Seq<ContextPathsView>| #[trigger]
        is_resolution(resolved, turns.candidates, turns.found) && turns.files == grouped_by_file(
            resolved,
        );
    let class = path_class(step.source);
    lemma_indexed_steps(turns.files, turns.sources, step);
    lemma_steps_of_contexts(resolved, turns.sources, step);
    let context = choose|context: Seq<char>| #[trigger] was_found(resolved, context, class);
    lemma_found_in_turns(turns, configuration, root, disk, resolved, context, step.source);
    let classes = named_classes(configuration);
    let names = normalized_names(classes);
    lemma_distinct_names(names);
    assert(names.contains(context));
    let k = choose|k: int| 0 <= k < names.len() && names[k] == context;
    let name = classes[k];
    assert(classes.contains(name));
    assert(without_leading_backslashes(name) == context);
    lemma_named_resolves(name, step.source, root, mappings_on(disk), disk.on_disk);
}

/// A class resolves to the same paths with and without the backslashes before its name.
proof fn lemma_named_resolves(
    name: Seq<char>,
    path: Seq<u8>,
    root: Seq<u8>,
    mappings: Seq<MappingView>,
    on_disk: spec_fn(Seq<u8>) -> bool,
)
    ensures
        resolves_to(name, path, root, mappings, on_disk) <==> resolves_to(
            without_leading_backslashes(name),
            path,
            root,
            mappings,
            on_disk,
        ),
{
    lemma_without_leading_backslashes_idempotent(name);
}

} // verus!
