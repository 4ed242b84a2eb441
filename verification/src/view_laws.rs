//! What values stand for, field by field.

use std::path::PathBuf;

use vstd::prelude::*;

use crate::completion::{CompletionEdit, CompletionItem};
use crate::document::Range;
use crate::index::{ContextFile, ContextPaths};
use crate::json::Json;
use crate::php::{
    ParsedClass, ParsedStep, PhpArgument, PhpAttribute, PhpClass, PhpMember, PhpStatement,
};
use crate::progress::ProgressCounter;
use crate::psr4::{ComposerFile, ContextCandidates, FoundFiles, IndexError, Psr4Mapping};
use crate::server::{BuildOutcome, ClientAction, LogLevel};
use crate::steps::StepDef;
use crate::yaml::Yaml;

verus! {

use crate::completion::EditView;
use crate::json::{json_tree, opt_tree, JsonTree};
use crate::paths::{bytes_of_paths, path_bytes};
use crate::php::{php_tree, php_trees, ArgumentTree, MemberTree, PhpTree};
use crate::psr4::IndexErrorView;
use crate::server::{ActionView, OutcomeView};
use crate::yaml::{yaml_tree, YamlTree};

/// Paths stand for their bytes, each in its place.
pub proof fn lemma_paths(paths: Seq<PathBuf>)
    ensures
        bytes_of_paths(paths).len() == paths.len(),
        forall|i: int|
            0 <= i < paths.len() ==> #[trigger] bytes_of_paths(paths)[i] == path_bytes(paths[i]),
{
}

/// A step stands for its text, its file, its class and its kind.
pub proof fn lemma_step(step: StepDef)
    ensures
        step.deep_view().text == step.text@,
        step.deep_view().source == path_bytes(step.source),
        step.deep_view().class == match step.class {
            Some(class) => Some(class@),
            None => None,
        },
        step.deep_view().kind == step.kind,
{
}

/// A parsed step stands for its text and its kind, and a parsed class for its name and its steps.
pub proof fn lemma_parsed(step: ParsedStep, class: ParsedClass)
    ensures
        step.deep_view().text == step.text@,
        step.deep_view().kind == step.kind,
        class.deep_view().fqcn == class.fqcn@,
        class.deep_view().steps.len() == class.steps@.len(),
        forall|i: int|
            0 <= i < class.steps@.len() ==> #[trigger] class.deep_view().steps[i]
                == class.steps@[i].deep_view(),
{
}

/// An attribute stands for its name and its arguments, and a literal for its value and its source.
pub proof fn lemma_attribute(attribute: PhpAttribute, value: Option<String>, raw: String)
    ensures
        attribute.deep_view().name == attribute.name@,
        attribute.arguments is None ==> attribute.deep_view().arguments is None,
        attribute.arguments matches Some(arguments) ==> {
            &&& attribute.deep_view().arguments matches Some(trees)
            &&& trees.len() == arguments@.len()
            &&& forall|i: int|
                0 <= i < arguments@.len() ==> #[trigger] trees[i] == arguments@[i].deep_view()
        },
        (PhpArgument::Text { value, raw }).deep_view() == (ArgumentTree::Text {
            value: match value {
                Some(text) => Some(text@),
                None => None,
            },
            raw: raw@,
        }),
        PhpArgument::Other.deep_view() == ArgumentTree::Other,
{
}

/// A class stands for its name and its members, and a method for its lists of attributes.
pub proof fn lemma_class(class: PhpClass, lists: Vec<Vec<PhpAttribute>>)
    ensures
        class.deep_view().name == class.name@,
        class.deep_view().members.len() == class.members@.len(),
        forall|i: int|
            0 <= i < class.members@.len() ==> #[trigger] class.deep_view().members[i]
                == class.members@[i].deep_view(),
        PhpMember::Method(lists).deep_view() == MemberTree::Method(lists.deep_view()),
        PhpMember::Other.deep_view() == MemberTree::Other,
{
}

/// A statement stands for the namespace or the class that it is.
pub proof fn lemma_statement(name: Option<String>, statements: Vec<PhpStatement>, class: PhpClass)
    ensures
        php_tree(PhpStatement::Namespace { name, statements }) == (PhpTree::Namespace {
            name: match name {
                Some(text) => Some(text@),
                None => None,
            },
            statements: php_trees(statements@),
        }),
        php_tree(PhpStatement::Class(class)) == PhpTree::Class(class.deep_view()),
        php_tree(PhpStatement::Other) == PhpTree::Other,
        php_trees(statements@).len() == statements@.len(),
        forall|i: int|
            0 <= i < statements@.len() ==> #[trigger] php_trees(statements@)[i] == php_tree(
                statements@[i],
            ),
{
    let statement = PhpStatement::Namespace { name, statements };
    assert(php_tree(statement)->statements =~= php_trees(statements@));
}

/// A JSON value stands for what it holds, each part in its place.
pub proof fn lemma_json(members: Vec<(String, Json)>, items: Vec<Json>, text: String, value: Json)
    ensures
        json_tree(Json::Object(members)) matches JsonTree::Object(trees) && trees.len()
            == members@.len() && forall|i: int|
            0 <= i < members@.len() ==> #[trigger] trees[i] == (
            members@[i].0@,
            json_tree(members@[i].1),
            ),
        json_tree(Json::Array(items)) matches JsonTree::Array(trees) && trees.len() == items@.len()
            && forall|i: int|
            0 <= i < items@.len() ==> #[trigger] trees[i] == json_tree(items@[i]),
        json_tree(Json::Text(text)) == JsonTree::Text(text@),
        json_tree(Json::Other) == JsonTree::Other,
        opt_tree(Some(&value)) == Some(json_tree(value)),
        opt_tree(None) is None,
{
}

/// A YAML value stands for what it holds, each part in its place.
pub proof fn lemma_yaml(entries: Vec<(Yaml, Yaml)>, items: Vec<Yaml>, text: String)
    ensures
        yaml_tree(Yaml::Mapping(entries)) matches YamlTree::Mapping(trees) && trees.len()
            == entries@.len() && forall|i: int|
            0 <= i < entries@.len() ==> #[trigger] trees[i] == (
            yaml_tree(entries@[i].0),
            yaml_tree(entries@[i].1),
            ),
        yaml_tree(Yaml::Sequence(items)) matches YamlTree::Sequence(trees) && trees.len()
            == items@.len() && forall|i: int|
            0 <= i < items@.len() ==> #[trigger] trees[i] == yaml_tree(items@[i]),
        yaml_tree(Yaml::Text(text)) == YamlTree::Text(text@),
        yaml_tree(Yaml::Other) == YamlTree::Other,
{
}

/// A mapping stands for its prefix and its directory, a Composer file for its path and its text, and
/// an error for the path of the file.
pub proof fn lemma_composer(mapping: Psr4Mapping, file: ComposerFile, path: PathBuf)
    ensures
        mapping.deep_view().prefix == mapping.prefix@,
        mapping.deep_view().base == path_bytes(mapping.base),
        file.deep_view().path == path_bytes(file.path),
        file.deep_view().contents == match file.contents {
            Some(text) => Some(text@),
            None => None,
        },
        IndexError::Unreadable(path).deep_view() == IndexErrorView::Unreadable(path_bytes(path)),
        IndexError::Unparsable(path).deep_view() == IndexErrorView::Unparsable(path_bytes(path)),
{
}

/// Candidates stand for the context and its paths, and what is found for its marks.
pub proof fn lemma_candidates_view(candidates: ContextCandidates, found: FoundFiles)
    ensures
        candidates.deep_view().context == candidates.context@,
        candidates.deep_view().mapped == bytes_of_paths(candidates.mapped@),
        candidates.deep_view().fallback == bytes_of_paths(candidates.fallback@),
        found.deep_view().mapped == found.mapped@,
        found.deep_view().fallback == found.fallback@,
{
}

/// What a context was found in stands for its paths, and a file for its path and its contexts.
pub proof fn lemma_context_files(paths: ContextPaths, file: ContextFile)
    ensures
        paths.deep_view().context == paths.context@,
        paths.deep_view().paths == bytes_of_paths(paths.paths@),
        file.deep_view().path == path_bytes(file.path),
        file.deep_view().contexts.len() == file.contexts@.len(),
        forall|i: int|
            0 <= i < file.contexts@.len() ==> #[trigger] file.deep_view().contexts[i]
                == file.contexts@[i]@,
{
}

/// A completion stands for all that it says.
pub proof fn lemma_item(item: CompletionItem, range: Range, new_text: String)
    ensures
        item.deep_view().label == item.label@,
        item.deep_view().kind == item.kind,
        item.deep_view().detail == item.detail@,
        item.deep_view().edit == item.edit.deep_view(),
        item.deep_view().is_snippet == item.is_snippet,
        (CompletionEdit::Replace { range, new_text }).deep_view() == (EditView::Replace {
            range,
            new_text: new_text@,
        }),
        (CompletionEdit::Insert { new_text }).deep_view() == (EditView::Insert {
            new_text: new_text@,
        }),
{
}

/// What is sent stands for all that it says.
pub proof fn lemma_action(token: i32, title: String, message: String, level: LogLevel)
    ensures
        (ClientAction::CreateProgress { token }).deep_view() == (ActionView::CreateProgress {
            token,
        }),
        (ClientAction::Begin { token, title, message }).deep_view() == (ActionView::Begin {
            token,
            title: title@,
            message: message@,
        }),
        (ClientAction::Report { token, message }).deep_view() == (ActionView::Report {
            token,
            message: message@,
        }),
        (ClientAction::End { token, message }).deep_view() == (ActionView::End {
            token,
            message: message@,
        }),
        (ClientAction::Log { level, text: message }).deep_view() == (ActionView::Log {
            level,
            text: message@,
        }),
{
}

/// An outcome stands for its steps, its error or its reason, and a counter for its counts.
pub proof fn lemma_outcome(
    steps: Vec<StepDef>,
    error: IndexError,
    reason: String,
    counter: ProgressCounter,
)
    ensures
        BuildOutcome::Built(steps).deep_view() == OutcomeView::Built(steps.deep_view()),
        BuildOutcome::Failed(error).deep_view() == OutcomeView::Failed(error.deep_view()),
        BuildOutcome::Aborted(reason).deep_view() == OutcomeView::Aborted(reason@),
        counter@.contexts_done == counter.contexts_done,
        counter@.steps_done == counter.steps_done,
        counter.contexts_total is None ==> counter@.contexts_total is None,
        counter.contexts_total matches Some(total) ==> counter@.contexts_total == Some(
            total as nat,
        ),
{
}

} // verus!
