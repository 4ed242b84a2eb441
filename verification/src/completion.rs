//! The completions that steps stand for.

use vstd::prelude::*;

use crate::document::Range;
use crate::snippet::build_step_snippet;
use crate::steps::{format_step_detail, step_kind_keyword, StepDef, StepKind};

verus! {

use crate::paths::path_shown;
use crate::snippet::{pieces, plain_text, snippet_text, step_pattern};
use crate::steps::{keyword, origin_text, StepView};
use vstd::string::StringExecFns;

/// The sign that an editor shows beside a completion.
#[derive(Clone, Copy, Debug, PartialEq, Eq, Structural)]
pub enum CompletionKind {
    Text,
    Function,
    Field,
    Keyword,
    Event,
}

/// What a completion does to the document.
#[derive(Debug)]
pub enum CompletionEdit {
    /// The text takes the place of what stands in the range.
    Replace { range: Range, new_text: String },
    /// The text is put in where the editor sees fit.
    Insert { new_text: String },
}

/// What a `CompletionEdit` says.
pub enum EditView {
    Replace { range: Range, new_text: Seq<char> },
    Insert { new_text: Seq<char> },
}

impl DeepView for CompletionEdit {
    type V = EditView;

    open spec fn deep_view(&self) -> EditView {
        match *self {
            CompletionEdit::Replace { range, new_text } => EditView::Replace {
                range,
                new_text: new_text@,
            },
            CompletionEdit::Insert { new_text } => EditView::Insert { new_text: new_text@ },
        }
    }
}

/// A completion.
#[derive(Debug)]
pub struct CompletionItem {
    pub label: String,
    pub kind: CompletionKind,
    pub detail: String,
    pub edit: CompletionEdit,
    /// Whether the new text has tab stops.
    pub is_snippet: bool,
}

/// What a `CompletionItem` says.
pub struct ItemView {
    pub label: Seq<char>,
    pub kind: CompletionKind,
    pub detail: Seq<char>,
    pub edit: EditView,
    pub is_snippet: bool,
}

impl DeepView for CompletionItem {
    type V = ItemView;

    open spec fn deep_view(&self) -> ItemView {
        ItemView {
            label: self.label@,
            kind: self.kind,
            detail: self.detail@,
            edit: self.edit.deep_view(),
            is_snippet: self.is_snippet,
        }
    }
}

/// The completions at a place.
#[derive(Debug)]
pub struct CompletionList {
    /// Whether the editor is to ask again when more is typed.
    pub is_incomplete: bool,
    pub items: Vec<CompletionItem>,
}

/// The sign for a kind of step.
pub open spec fn kind_sign(kind: StepKind) -> CompletionKind {
    match kind {
        StepKind::Given => CompletionKind::Event,
        StepKind::Then => CompletionKind::Keyword,
        StepKind::When => CompletionKind::Function,
        StepKind::And => CompletionKind::Field,
        StepKind::But => CompletionKind::Field,
        StepKind::Other => CompletionKind::Text,
    }
}

/// What is shown for a step.
pub open spec fn step_label(step: StepView) -> Seq<char> {
    keyword(step.kind) + " "@ + plain_text(pieces(step_pattern(step.text)))
}

/// What is inserted for a step.
pub open spec fn step_snippet(step: StepView) -> Seq<char> {
    keyword(step.kind) + " "@ + snippet_text(pieces(step_pattern(step.text)), 1)
}

/// The completion that a step stands for.
pub open spec fn step_item(step: StepView, range: Option<Range>) -> ItemView {
    ItemView {
        label: step_label(step),
        kind: kind_sign(step.kind),
        detail: origin_text(step.class, path_shown(step.source)),
        edit: match range {
            Some(range) => EditView::Replace { range, new_text: step_snippet(step) },
            None => EditView::Insert { new_text: step_snippet(step) },
        },
        is_snippet: true,
    }
}

/// The completions that steps stand for.
pub open spec fn step_items(steps: Seq<StepView>, range: Option<Range>) -> Seq<ItemView> {
    steps.map_values(|step: StepView| step_item(step, range))
}

/// The sign for a kind of step.
pub fn step_kind_to_completion_kind(kind: StepKind) -> (sign: CompletionKind)
    ensures
        sign == kind_sign(kind),
{
    match kind {
        StepKind::Given => CompletionKind::Event,
        StepKind::Then => CompletionKind::Keyword,
        StepKind::When => CompletionKind::Function,
        StepKind::And => CompletionKind::Field,
        StepKind::But => CompletionKind::Field,
        StepKind::Other => CompletionKind::Text,
    }
}

/// A word, a space and a text.
fn spaced(word: &str, text: &str) -> (both: String)
    ensures
        both@ == word@ + " "@ + text@,
{
    let mut both = word.to_owned();
    both.append(" ");
    both.append(text);
    both
}

/// The completion that a step stands for.
pub fn completion_item(step: &StepDef, range: Option<Range>) -> (item: CompletionItem)
    ensures
        item.deep_view() == step_item(step.deep_view(), range),
{
    let word = step_kind_keyword(step.kind);
    let (plain, snippet) = build_step_snippet(step.text.as_str());
    let new_text = spaced(word, snippet.as_str());
    let edit = match range {
        Some(range) => CompletionEdit::Replace { range, new_text },
        None => CompletionEdit::Insert { new_text },
    };
    CompletionItem {
        label: spaced(word, plain.as_str()),
        kind: step_kind_to_completion_kind(step.kind),
        detail: format_step_detail(step),
        edit,
        is_snippet: true,
    }
}

/// The completions that steps stand for, one for each step and in their order. More typing may
/// bring others.
pub fn completion_list(steps: &Vec<StepDef>, range: Option<Range>) -> (list: CompletionList)
    ensures
        list.is_incomplete,
        list.items.deep_view() == step_items(steps.deep_view(), range),
{
    let ghost all = steps.deep_view();
    let mut items: Vec<CompletionItem> = Vec::new();
    let mut i: usize = 0;
    while i < steps.len()
        invariant
            i <= steps@.len(),
            all == steps.deep_view(),
            items@.len() == i,
            forall|j: int|
                0 <= j < i ==> (#[trigger] items@[j]).deep_view() == step_item(all[j], range),
        decreases steps@.len() - i,
    {
        items.push(completion_item(&steps[i], range));
        i += 1;
    }
    assert(items.deep_view() =~= step_items(all, range));
    CompletionList { is_incomplete: true, items }
}

} // verus!
