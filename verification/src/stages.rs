//! How an index is made, turn by turn.
//!
//! What lies on disk comes from outside: each stage tells what it needs to know next, and goes on
//! to another stage once it is told.

use std::path::PathBuf;

use vstd::prelude::*;

use crate::contexts::index_contexts;
use crate::index::{group_by_file, index_steps, locate_contexts, resolve_contexts, ContextFile};
use crate::paths::join_path;
use crate::progress::{context_events, step_events, ProgressEvent};
use crate::psr4::{ComposerFile, ContextCandidates, FoundFiles, IndexError};
use crate::steps::StepDef;

verus! {

use crate::contexts::configured_contexts;
use crate::index::{
    found_at, grouped_by_file, indexed_steps, is_found_candidate, is_resolution,
    lemma_steps_of_found_files, located_contexts, ContextFileView, ContextPathsView,
};
use crate::paths::{joined_path, path_bytes, path_class};
use crate::progress::{context_parts, step_parts};
use crate::psr4::{CandidatesView, FoundView};
use crate::steps::StepView;

/// The configuration is to be read.
#[derive(Debug)]
pub struct IndexBuild {
    pub root: PathBuf,
}

/// The Composer files below the root are to be read.
#[derive(Debug)]
pub struct LocatingContexts {
    pub root: PathBuf,
    pub contexts: Vec<String>,
}

/// Which of the candidates exist is to be found out.
#[derive(Debug)]
pub struct ResolvingContexts {
    pub root: PathBuf,
    pub candidates: Vec<ContextCandidates>,
}

/// The files are to be read.
#[derive(Debug)]
pub struct ReadingSources {
    pub root: PathBuf,
    pub files: Vec<ContextFile>,
}

/// What comes behind the configuration.
#[derive(Debug)]
pub enum Configured {
    /// The project has no contexts: these are its steps.
    Finished(Vec<StepDef>),
    /// The project has contexts.
    Locate(LocatingContexts),
}

/// Whether `files` are those that the contexts were found in, each with its contexts.
pub open spec fn are_found_files(
    files: Seq<ContextFileView>,
    candidates: Seq<CandidatesView>,
    found: Seq<FoundView>,
) -> bool {
    exists|resolved: Seq<ContextPathsView>| #[trigger]
        is_resolution(resolved, candidates, found) && files == grouped_by_file(resolved)
}

/// Each step that comes out in the end is defined in a file that is a candidate of a context and
/// was found.
pub proof fn lemma_steps_in_the_end(
    files: Seq<ContextFileView>,
    candidates: Seq<CandidatesView>,
    found: Seq<FoundView>,
    sources: Seq<Option<Seq<char>>>,
    step: StepView,
)
    requires
        are_found_files(files, candidates, found),
        indexed_steps(files, sources).contains(step),
    ensures
        exists|i: int, path: Seq<u8>|
            0 <= i < candidates.len() && path_class(path) == path_class(step.source)
                && #[trigger] is_found_candidate(path, candidates[i], found_at(found, i)),
{
    let resolved = choose|resolved: Seq<ContextPathsView>| #[trigger]
        is_resolution(resolved, candidates, found) && files == grouped_by_file(resolved);
    lemma_steps_of_found_files(resolved, candidates, found, sources, step);
}

impl IndexBuild {
    /// The file that the configuration of the project lies in.
    pub fn configuration_path(&self) -> (path: PathBuf)
        ensures
            path_bytes(path) == joined_path(path_bytes(self.root), "behat.yaml"@),
    {
        join_path(&self.root, "behat.yaml")
    }

    /// Goes on with the text of the configuration, where it could be read.
    pub fn with_configuration(self, configuration: Option<&str>) -> (next: Configured)
        ensures
            ({
                let contexts = configured_contexts(configuration.deep_view());
                match next {
                    Configured::Finished(steps) => contexts.len() == 0 && steps@.len() == 0,
                    Configured::Locate(stage) => contexts.len() > 0 && stage.contexts.deep_view()
                        == contexts && stage.root == self.root,
                }
            }),
    {
        let contexts = index_contexts(configuration);
        assert(contexts.deep_view().len() == contexts@.len());
        if contexts.len() == 0 {
            Configured::Finished(Vec::new())
        } else {
            Configured::Locate(LocatingContexts { root: self.root, contexts })
        }
    }
}

impl LocatingContexts {
    /// Goes on with the Composer files.
    pub fn with_composer_files(self, files: &Vec<ComposerFile>) -> (next: Result<
        ResolvingContexts,
        IndexError,
    >)
        ensures
            match (
                next,
                located_contexts(
                    self.contexts.deep_view(),
                    path_bytes(self.root),
                    files.deep_view(),
                ),
            ) {
                (Ok(stage), Ok(candidates)) => stage.candidates.deep_view() == candidates
                    && stage.root == self.root,
                (Err(error), Err(expected)) => error.deep_view() == expected,
                _ => false,
            },
    {
        match locate_contexts(&self.contexts, &self.root, files) {
            Ok(candidates) => Ok(ResolvingContexts { root: self.root, candidates }),
            Err(error) => Err(error),
        }
    }
}

impl ResolvingContexts {
    /// Goes on with which of the candidates exist. Each context is a part of the work that is done
    /// then.
    pub fn with_found_files(self, found: &Vec<FoundFiles>) -> (next: (
        ReadingSources,
        Vec<ProgressEvent>,
    ))
        ensures
            are_found_files(
                next.0.files.deep_view(),
                self.candidates.deep_view(),
                found.deep_view(),
            ),
            next.0.root == self.root,
            next.1@ == context_parts(self.candidates@.len() as usize),
    {
        let resolved = resolve_contexts(&self.candidates, found);
        let files = group_by_file(&resolved);
        let events = context_events(self.candidates.len());
        assert(is_resolution(
            resolved.deep_view(),
            self.candidates.deep_view(),
            found.deep_view(),
        ));
        (ReadingSources { root: self.root, files }, events)
    }
}

impl ReadingSources {
    /// Ends with the texts of the files, where they could be read. Each step is a part of the work
    /// that is done then.
    pub fn with_sources(self, sources: &Vec<Option<String>>) -> (end: (
        Vec<StepDef>,
        Vec<ProgressEvent>,
    ))
        ensures
            end.0.deep_view() == indexed_steps(self.files.deep_view(), sources.deep_view()),
            end.1@ == step_parts(end.0@.len() as usize),
    {
        let steps = index_steps(&self.files, sources, &self.root);
        let events = step_events(steps.len());
        (steps, events)
    }
}

} // verus!
