//! Step definitions, and how they are shown.

use std::path::PathBuf;

use vstd::prelude::*;

use crate::paths::shown_path;

verus! {

use crate::paths::{path_bytes, path_shown};
use vstd::string::StringExecFns;

/// The word that a step starts with.
#[derive(Clone, Copy, Debug, PartialEq, Eq, Structural)]
pub enum StepKind {
    Given,
    When,
    Then,
    And,
    But,
    Other,
}

/// A step that can be written in a feature file.
#[derive(Debug)]
pub struct StepDef {
    /// The pattern of the step.
    pub text: String,
    /// The file that defines the step.
    pub source: PathBuf,
    /// The class that defines the step.
    pub class: Option<String>,
    pub kind: StepKind,
}

/// What a `StepDef` says.
pub struct StepView {
    pub text: Seq<char>,
    pub source: Seq<u8>,
    pub class: Option<Seq<char>>,
    pub kind: StepKind,
}

impl DeepView for StepDef {
    type V = StepView;

    open spec fn deep_view(&self) -> StepView {
        StepView {
            text: self.text@,
            source: path_bytes(self.source),
            class: self.class.deep_view(),
            kind: self.kind,
        }
    }
}

/// The word that a step of a kind is written with.
pub open spec fn keyword(kind: StepKind) -> Seq<char> {
    match kind {
        StepKind::Given => "Given"@,
        StepKind::When => "When"@,
        StepKind::Then => "Then"@,
        StepKind::And => "And"@,
        StepKind::But => "But"@,
        StepKind::Other => "Given"@,
    }
}

/// Where a step comes from: the class and the file as it is shown, or the file alone.
pub open spec fn origin_text(class: Option<Seq<char>>, shown: Seq<char>) -> Seq<char> {
    match class {
        Some(name) => name + " ("@ + shown + ")"@,
        None => shown,
    }
}

/// The word that a step of a kind is written with.
pub fn step_kind_keyword(kind: StepKind) -> (word: &'static str)
    ensures
        word@ == keyword(kind),
{
    match kind {
        StepKind::Given => "Given",
        StepKind::When => "When",
        StepKind::Then => "Then",
        StepKind::And => "And",
        StepKind::But => "But",
        StepKind::Other => "Given",
    }
}

/// Where a step comes from, given the file as it is shown.
pub fn step_origin(class: &Option<String>, shown: String) -> (text: String)
    ensures
        text@ == origin_text(class.deep_view(), shown@),
{
    match class {
        Some(name) => {
            let mut text = name.clone();
            text.append(" (");
            text.append(shown.as_str());
            text.append(")");
            text
        },
        None => shown,
    }
}

/// Where a step comes from.
pub fn format_step_detail(step: &StepDef) -> (text: String)
    ensures
        text@ == origin_text(step.deep_view().class, path_shown(step.deep_view().source)),
{
    step_origin(&step.class, shown_path(&step.source))
}

} // verus!
