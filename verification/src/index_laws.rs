//! Which steps the index of a project holds.

use vstd::prelude::*;

use crate::steps::StepKind;

verus! {

use crate::index::{
    defining_classes, definitions_in, definitions_of, file_steps, indexed_steps, is_context,
    lemma_file_steps, source_at, source_steps, ContextFileView,
};
use crate::php::{
    class_steps, declared_classes, php_parsed, AttributeTree, ClassTree, ParsedClassView,
    ParsedStepView, PhpTree,
};
use crate::php_laws::{
    attribute_defines, full_name, has_attribute, lemma_class_has_step, lemma_file_declares,
    parsed_class, stands_in,
};
use crate::sequences::{lemma_flat_map_add, lemma_flat_map_one, lemma_in_sum};
use crate::steps::StepView;
use crate::text::without_leading_backslashes;
use crate::text_laws::{is_stripped, lemma_stripped};

/// A class defines one step for each that it was parsed with, in their order: with the text and the
/// kind of that step, the name of the class, and the path of the file.
pub proof fn lemma_definitions_at(path: Seq<u8>, class: ParsedClassView)
    ensures
        definitions_of(path, class).len() == class.steps.len(),
        forall|i: int|
            0 <= i < class.steps.len() ==> {
                &&& (#[trigger] definitions_of(path, class)[i]).text == class.steps[i].text
                &&& definitions_of(path, class)[i].kind == class.steps[i].kind
                &&& definitions_of(path, class)[i].class == Some(class.fqcn)
                &&& definitions_of(path, class)[i].source == path
            },
{
}

/// Whether a name is that of one of the contexts, with backslashes before it or without.
pub open spec fn names_context(contexts: Seq<Seq<char>>, name: Seq<char>) -> bool {
    exists|context: Seq<char>| #[trigger] contexts.contains(context) && is_stripped(name, context)
}

/// Whether one of the classes that stand in a text is one of the contexts.
pub open spec fn has_context_class(statements: Seq<PhpTree>, contexts: Seq<Seq<char>>) -> bool {
    exists|class: ClassTree, within: Option<Seq<char>>| #[trigger]
        stands_in(class, within, statements, None) && names_context(
            contexts,
            full_name(within, class.name),
        )
}

/// Whether a class that stands in a text defines a step there: one of its methods has an attribute
/// that says so, and the class is one of the contexts, unless none of the classes there is.
pub open spec fn class_defines(
    class: ClassTree,
    within: Option<Seq<char>>,
    statements: Seq<PhpTree>,
    contexts: Seq<Seq<char>>,
    step: StepView,
) -> bool {
    &&& stands_in(class, within, statements, None)
    &&& step.class == Some(full_name(within, class.name))
    &&& exists|attribute: AttributeTree| #[trigger]
        has_attribute(class, attribute) && attribute_defines(attribute, step.kind, step.text)
    &&& names_context(contexts, full_name(within, class.name)) || !has_context_class(
        statements,
        contexts,
    )
}

/// Whether a file with a text defines a step.
pub open spec fn file_defines(file: ContextFileView, text: Seq<char>, step: StepView) -> bool {
    step.source == file.path && exists|class: ClassTree, within: Option<Seq<char>>| #[trigger]
        class_defines(class, within, php_parsed(text), file.contexts, step)
}

proof fn lemma_is_context(class: ParsedClassView, contexts: Seq<Seq<char>>)
    ensures
        is_context(class, contexts) <==> names_context(contexts, class.fqcn),
{
    let name = without_leading_backslashes(class.fqcn);
    lemma_stripped(class.fqcn, name);
    if names_context(contexts, class.fqcn) {
        let context = choose|context: Seq<char>| #[trigger]
            contexts.contains(context) && is_stripped(class.fqcn, context);
        lemma_stripped(class.fqcn, context);
    }
}

proof fn lemma_any_context(statements: Seq<PhpTree>, contexts: Seq<Seq<char>>)
    ensures
        has_context_class(statements, contexts) <==> exists|j: int|
            0 <= j < declared_classes(statements, None).len() && is_context(
                #[trigger] declared_classes(statements, None)[j],
                contexts,
            ),
{
    let classes = declared_classes(statements, None);
    if has_context_class(statements, contexts) {
        let (class, within) = choose|class: ClassTree, within: Option<Seq<char>>| #[trigger]
            stands_in(class, within, statements, None) && names_context(
                contexts,
                full_name(within, class.name),
            );
        let parsed = parsed_class(class, within);
        lemma_file_declares(statements, None, parsed);
        lemma_is_context(parsed, contexts);
        let j = choose|j: int| 0 <= j < classes.len() && classes[j] == parsed;
        assert(is_context(classes[j], contexts));
    }
    if exists|j: int| 0 <= j < classes.len() && is_context(#[trigger] classes[j], contexts) {
        let j = choose|j: int| 0 <= j < classes.len() && is_context(#[trigger] classes[j], contexts);
        lemma_file_declares(statements, None, classes[j]);
        lemma_is_context(classes[j], contexts);
        assert(classes.contains(classes[j]));
        let (class, within) = choose|class: ClassTree, within: Option<Seq<char>>| #[trigger]
            stands_in(class, within, statements, None) && classes[j] == parsed_class(class, within);
        assert(names_context(contexts, full_name(within, class.name)));
    }
}

proof fn lemma_class_step(path: Seq<u8>, class: ClassTree, within: Option<Seq<char>>, step: StepView)
    ensures
        definitions_of(path, parsed_class(class, within)).contains(step) <==> {
            &&& step.source == path
            &&& step.class == Some(full_name(within, class.name))
            &&& exists|attribute: AttributeTree| #[trigger]
                has_attribute(class, attribute) && attribute_defines(
                    attribute,
                    step.kind,
                    step.text,
                )
        },
{
    let parsed = parsed_class(class, within);
    let defined = definitions_of(path, parsed);
    let said = ParsedStepView { text: step.text, kind: step.kind };
    lemma_definitions_at(path, parsed);
    lemma_class_has_step(class, step.kind, step.text);
    if defined.contains(step) {
        let m = choose|m: int| 0 <= m < defined.len() && defined[m] == step;
        assert(parsed.steps[m] == said);
        assert(class_steps(class).contains(said));
    }
    if class_steps(class).contains(said) && step.source == path && step.class == Some(
        full_name(within, class.name),
    ) {
        let m = choose|m: int| 0 <= m < parsed.steps.len() && parsed.steps[m] == said;
        assert(defined[m] == step);
    }
}

/// A file defines just the steps that the attributes on the methods of its classes say, word and
/// text, where the classes that are contexts count alone if there are any. A file that cannot be
/// read defines none.
pub proof fn lemma_file_defines(file: ContextFileView, text: Seq<char>, step: StepView)
    ensures
        source_steps(file, Some(text)).contains(step) <==> file_defines(file, text, step),
        source_steps(file, None).len() == 0,
{
    let statements = php_parsed(text);
    let classes = declared_classes(statements, None);
    lemma_any_context(statements, file.contexts);
    lemma_file_steps(file, classes, step);
    let any = exists|j: int|
        0 <= j < classes.len() && is_context(#[trigger] classes[j], file.contexts);
    if file_steps(file, classes).contains(step) {
        let i = choose|i: int|
            0 <= i < classes.len() && definitions_of(file.path, #[trigger] classes[i]).contains(
                step,
            ) && (any ==> is_context(classes[i], file.contexts));
        lemma_file_declares(statements, None, classes[i]);
        lemma_is_context(classes[i], file.contexts);
        assert(classes.contains(classes[i]));
        let (class, within) = choose|class: ClassTree, within: Option<Seq<char>>| #[trigger]
            stands_in(class, within, statements, None) && classes[i] == parsed_class(class, within);
        lemma_class_step(file.path, class, within, step);
        assert(class_defines(class, within, statements, file.contexts, step));
    }
    if file_defines(file, text, step) {
        let (class, within) = choose|class: ClassTree, within: Option<Seq<char>>| #[trigger]
            class_defines(class, within, statements, file.contexts, step);
        let parsed = parsed_class(class, within);
        assert(stands_in(class, within, statements, None));
        lemma_file_declares(statements, None, parsed);
        lemma_is_context(parsed, file.contexts);
        lemma_class_step(file.path, class, within, step);
        let i = choose|i: int| 0 <= i < classes.len() && classes[i] == parsed;
        assert(definitions_of(file.path, classes[i]).contains(step));
    }
}

/// The index holds just the steps that the files define that can be read.
pub proof fn lemma_index_holds(
    files: Seq<ContextFileView>,
    sources: Seq<Option<Seq<char>>>,
    step: StepView,
)
    ensures
        indexed_steps(files, sources).contains(step) <==> exists|i: int|
            0 <= i < files.len() && i < sources.len() && (sources[i] matches Some(text)
                && file_defines(#[trigger] files[i], text, step)),
    decreases files.len(),
{
    if files.len() > 0 {
        let n = files.len() - 1;
        let init = files.drop_last();
        let before = indexed_steps(init, sources);
        let source = source_at(sources, n);
        let behind = source_steps(files[n], source);
        lemma_index_holds(init, sources, step);
        lemma_in_sum(before, behind, step);
        if let Some(text) = source {
            lemma_file_defines(files[n], text, step);
        } else {
            assert(behind.len() == 0);
        }
        if before.contains(step) {
            let i = choose|i: int|
                0 <= i < init.len() && i < sources.len() && (sources[i] matches Some(text)
                    && file_defines(#[trigger] init[i], text, step));
            assert(files[i] == init[i]);
        }
        if behind.contains(step) {
            assert(file_defines(files[n], sources[n]->0, step));
        }
        if exists|i: int|
            0 <= i < files.len() && i < sources.len() && (sources[i] matches Some(text)
                && file_defines(#[trigger] files[i], text, step)) {
            let i = choose|i: int|
                0 <= i < files.len() && i < sources.len() && (sources[i] matches Some(text)
                    && file_defines(#[trigger] files[i], text, step));
            if i < n {
                assert(init[i] == files[i]);
            }
        }
    }
}

/// The steps of classes in a row are those of each, in a row.
pub proof fn lemma_definitions_in_order(
    path: Seq<u8>,
    a: Seq<ParsedClassView>,
    b: Seq<ParsedClassView>,
    class: ParsedClassView,
)
    ensures
        definitions_in(path, a + b) == definitions_in(path, a) + definitions_in(path, b),
        definitions_in(path, seq![class]) == definitions_of(path, class),
{
    let of_class = |class: ParsedClassView| definitions_of(path, class);
    lemma_flat_map_add(a, b, of_class);
    lemma_flat_map_one(class, of_class);
}

/// The steps of a file come in the order of its classes, each as often as it is defined. A class
/// that is a context adds its steps behind those of the contexts before it, and one that is not
/// adds none to theirs. Where no class is a context, each adds its own.
pub proof fn lemma_file_steps_in_order(
    file: ContextFileView,
    classes: Seq<ParsedClassView>,
    class: ParsedClassView,
)
    ensures
        ({
            let any = exists|j: int|
                0 <= j < classes.len() && names_context(
                    file.contexts,
                    (#[trigger] classes[j]).fqcn,
                );
            let named = names_context(file.contexts, class.fqcn);
            file_steps(file, classes.push(class)) == if any == named {
                file_steps(file, classes) + definitions_of(file.path, class)
            } else if named {
                definitions_of(file.path, class)
            } else {
                file_steps(file, classes)
            }
        }),
        file_steps(file, Seq::empty()).len() == 0,
{
    let matching = |c: ParsedClassView| is_context(c, file.contexts);
    let all = classes.push(class);
    let kept = classes.filter(matching);
    let any = exists|j: int|
        0 <= j < classes.len() && names_context(file.contexts, (#[trigger] classes[j]).fqcn);
    lemma_is_context(class, file.contexts);
    assert(any <==> kept.len() > 0) by {
        if any {
            let j = choose|j: int|
                0 <= j < classes.len() && names_context(
                    file.contexts,
                    (#[trigger] classes[j]).fqcn,
                );
            lemma_is_context(classes[j], file.contexts);
            classes.lemma_filter_contains(matching, j);
        }
        if kept.len() > 0 {
            lemma_kept_one(classes, matching);
            let j = choose|j: int| 0 <= j < classes.len() && matching(#[trigger] classes[j]);
            lemma_is_context(classes[j], file.contexts);
        }
    }
    assert(all.drop_last() =~= classes);
    assert(all.filter(matching) == if matching(class) {
        kept.push(class)
    } else {
        kept
    }) by {
        reveal(Seq::filter);
    }
    let behind = seq![class];
    assert(kept.push(class) =~= kept + behind);
    assert(all =~= classes + behind);
    lemma_definitions_in_order(file.path, kept, behind, class);
    lemma_definitions_in_order(file.path, classes, behind, class);
    if kept.len() == 0 {
        assert(kept + behind =~= behind);
    }
    assert(defining_classes(Seq::empty(), file.contexts) =~= Seq::empty()) by {
        reveal(Seq::filter);
    }
}

proof fn lemma_kept_one(
    classes: Seq<ParsedClassView>,
    matching: spec_fn(ParsedClassView) -> bool,
)
    requires
        classes.filter(matching).len() > 0,
    ensures
        exists|j: int| 0 <= j < classes.len() && matching(#[trigger] classes[j]),
    decreases classes.len(),
{
    reveal(Seq::filter);
    if classes.len() > 0 {
        let init = classes.drop_last();
        if init.filter(matching).len() > 0 {
            lemma_kept_one(init, matching);
            let j = choose|j: int| 0 <= j < init.len() && matching(#[trigger] init[j]);
            assert(matching(classes[j]));
        } else {
            assert(matching(classes[classes.len() - 1]));
        }
    }
}

/// No step of the index is without a word of its own.
pub proof fn lemma_words_of_steps(
    files: Seq<ContextFileView>,
    sources: Seq<Option<Seq<char>>>,
    step: StepView,
)
    requires
        indexed_steps(files, sources).contains(step),
    ensures
        step.kind != StepKind::Other,
{
    lemma_index_holds(files, sources, step);
}

} // verus!
