//! What the server does for its client.
//!
//! The functions here decide what is sent; sending it is left to the caller.

use std::path::PathBuf;

use tower_lsp::lsp_types::Url;
use vstd::prelude::*;

use crate::completion::{completion_list, CompletionList};
use crate::document::{OpenDocuments, Position};
use crate::paths::path_of_text;
use crate::progress::ProgressCounter;
use crate::psr4::IndexError;
use crate::steps::StepDef;
use crate::text::decimal_of;
use crate::watch::{should_rebuild_for_event, WatchEvent};

verus! {

use crate::completion::{kind_sign, step_items, step_label, step_snippet, EditView};
use crate::document::{changed_documents, lemma_word_before, no_texts, word_in_document};
use crate::paths::{bytes_of_paths, path_bytes, path_shown};
use crate::progress::progress_text;
use crate::psr4::{error_text, IndexErrorView};
use crate::steps::{origin_text, StepView};
use crate::text::decimal;
use crate::watch::outdates_index;
use vstd::string::StringExecFns;
use vstd::utf8::encode_utf8;

/// How much a message matters.
#[derive(Clone, Copy, Debug, PartialEq, Eq, Structural)]
pub enum LogLevel {
    Error,
    Info,
}

/// Something to send to the client.
#[derive(Debug)]
pub enum ClientAction {
    /// Ask the client to show the progress of some work.
    CreateProgress { token: i32 },
    /// The work starts.
    Begin { token: i32, title: String, message: String },
    /// The work goes on.
    Report { token: i32, message: String },
    /// The work is over.
    End { token: i32, message: String },
    /// A line for the log of the client.
    Log { level: LogLevel, text: String },
}

/// What a `ClientAction` says.
pub enum ActionView {
    CreateProgress { token: i32 },
    Begin { token: i32, title: Seq<char>, message: Seq<char> },
    Report { token: i32, message: Seq<char> },
    End { token: i32, message: Seq<char> },
    Log { level: LogLevel, text: Seq<char> },
}

impl DeepView for ClientAction {
    type V = ActionView;

    open spec fn deep_view(&self) -> ActionView {
        match *self {
            ClientAction::CreateProgress { token } => ActionView::CreateProgress { token },
            ClientAction::Begin { token, title, message } => ActionView::Begin {
                token,
                title: title@,
                message: message@,
            },
            ClientAction::Report { token, message } => ActionView::Report {
                token,
                message: message@,
            },
            ClientAction::End { token, message } => ActionView::End { token, message: message@ },
            ClientAction::Log { level, text } => ActionView::Log { level, text: text@ },
        }
    }
}

/// How the making of an index came out.
#[derive(Debug)]
pub enum BuildOutcome {
    /// The index holds these steps.
    Built(Vec<StepDef>),
    /// There is no index.
    Failed(IndexError),
    /// The work itself broke off, for the reason given.
    Aborted(String),
}

/// What a `BuildOutcome` says.
pub enum OutcomeView {
    Built(Seq<StepView>),
    Failed(IndexErrorView),
    Aborted(Seq<char>),
}

impl DeepView for BuildOutcome {
    type V = OutcomeView;

    open spec fn deep_view(&self) -> OutcomeView {
        match *self {
            BuildOutcome::Built(steps) => OutcomeView::Built(steps.deep_view()),
            BuildOutcome::Failed(error) => OutcomeView::Failed(error.deep_view()),
            BuildOutcome::Aborted(reason) => OutcomeView::Aborted(reason@),
        }
    }
}

/// What the server tells the client that it can do.
#[derive(Debug)]
pub struct Capabilities {
    /// Whether a change of a document is sent as the whole new text.
    pub full_sync: bool,
    /// The texts on which the client asks for completions.
    pub trigger_characters: Vec<String>,
}

/// What to do about news from the file system.
#[derive(Debug)]
pub enum WatchReaction {
    /// Send this.
    Send(ClientAction),
    /// Make the index anew.
    Rebuild,
    /// Nothing.
    Ignore,
}

/// What is sent when work starts.
pub open spec fn start_of_work(token: i32, title: Seq<char>, message: Seq<char>) -> Seq<
    ActionView,
> {
    seq![ActionView::CreateProgress { token }, ActionView::Begin { token, title, message }]
}

/// What is sent when the making of an index is over.
pub open spec fn end_of_build(token: i32, outcome: OutcomeView) -> Seq<ActionView> {
    match outcome {
        OutcomeView::Built(steps) => seq![
            ActionView::End {
                token,
                message: "Index built ("@ + decimal(steps.len()) + " steps)"@,
            },
        ],
        OutcomeView::Failed(error) => seq![
            ActionView::Log {
                level: LogLevel::Error,
                text: "Index build failed: "@ + error_text(error),
            },
            ActionView::End { token, message: "Index build failed"@ },
        ],
        OutcomeView::Aborted(reason) => seq![
            ActionView::Log {
                level: LogLevel::Error,
                text: "Index build task failed: "@ + reason,
            },
            ActionView::End { token, message: "Index build failed"@ },
        ],
    }
}

/// What is sent when completions have been listed.
pub open spec fn end_of_completion(token: i32, count: nat) -> Seq<ActionView> {
    seq![
        ActionView::Log {
            level: LogLevel::Info,
            text: "behat-lsp: completions ready ("@ + decimal(count) + ")"@,
        },
        ActionView::End { token, message: decimal(count) + " completion(s)"@ },
    ]
}

/// The token of a piece of work, by its number.
pub open spec fn token_of(number: u32) -> i32 {
    number as i32
}

/// The number that follows a number; the first one follows the last.
pub open spec fn next_number(number: u32) -> u32 {
    if number == u32::MAX {
        0
    } else {
        (number + 1) as u32
    }
}

/// The number that comes `n` numbers behind a number.
pub open spec fn nth_number(first: u32, n: nat) -> u32
    decreases n,
{
    if n == 0 {
        first
    } else {
        next_number(nth_number(first, (n - 1) as nat))
    }
}

proof fn lemma_nth_number(first: u32, n: nat)
    requires
        n <= u32::MAX,
    ensures
        nth_number(first, n) == if first + n <= u32::MAX {
            first + n
        } else {
            first + n - u32::MAX - 1
        },
    decreases n,
{
    if n > 0 {
        lemma_nth_number(first, (n - 1) as nat);
    }
}

/// Of as many pieces of work as there are numbers, no two have the same token.
pub proof fn lemma_tokens_differ(first: u32, a: nat, b: nat)
    requires
        a < b <= u32::MAX,
    ensures
        token_of(nth_number(first, a)) != token_of(nth_number(first, b)),
{
    lemma_nth_number(first, a);
    lemma_nth_number(first, b);
    let x = nth_number(first, a);
    let y = nth_number(first, b);
    assert(x != y ==> x as i32 != y as i32) by (bit_vector);
}

/// What a session is about.
pub struct SessionView {
    pub root: Seq<u8>,
    pub steps: Seq<StepView>,
    pub documents: Map<Seq<char>, Seq<char>>,
    pub next_token: u32,
}

/// What the server knows: the root of the project, its steps, the documents that are open, and
/// the number of the next piece of work.
#[derive(Debug)]
pub struct Session {
    root: PathBuf,
    steps: Vec<StepDef>,
    documents: OpenDocuments,
    next_token: u32,
}

impl View for Session {
    type V = SessionView;

    closed spec fn view(&self) -> SessionView {
        SessionView {
            root: path_bytes(self.root),
            steps: self.steps.deep_view(),
            documents: self.documents@,
            next_token: self.next_token,
        }
    }
}

/// The session once the making of an index is over: its steps are those of the index, or what they
/// were where there is no index.
pub open spec fn after_build(session: SessionView, outcome: OutcomeView) -> SessionView {
    match outcome {
        OutcomeView::Built(steps) => SessionView { steps, ..session },
        OutcomeView::Failed(_) => session,
        OutcomeView::Aborted(_) => session,
    }
}

/// Every step is offered at every place: what differs from place to place is only which range the
/// text of a completion replaces.
pub proof fn lemma_all_steps_offered(
    session: SessionView,
    uri: Seq<char>,
    position: Position,
    i: int,
)
    requires
        0 <= i < session.steps.len(),
    ensures
        ({
            let step = session.steps[i];
            let items = step_items(
                session.steps,
                word_in_document(session.documents, uri, position),
            );
            &&& items.len() == session.steps.len()
            &&& items[i].label == step_label(step)
            &&& items[i].kind == kind_sign(step.kind)
            &&& items[i].detail == origin_text(step.class, path_shown(step.source))
            &&& items[i].is_snippet
            &&& match items[i].edit {
                EditView::Replace { range, new_text } => new_text == step_snippet(step)
                    && range.end == position,
                EditView::Insert { new_text } => new_text == step_snippet(step),
            }
        }),
{
    if session.documents.contains_key(uri) {
        lemma_word_before(encode_utf8(session.documents[uri]), position);
    }
}

/// An index that cannot be made leaves the session as it was.
pub proof fn lemma_no_index_no_change(session: SessionView, outcome: OutcomeView)
    requires
        !(outcome is Built),
    ensures
        after_build(session, outcome) == session,
{
}

impl Session {
    /// The session before the client has said anything.
    pub fn new() -> (session: Session)
        ensures
            session@ == (SessionView {
                root: encode_utf8("."@),
                steps: Seq::empty(),
                documents: no_texts(),
                next_token: 1,
            }),
    {
        let session = Session {
            root: path_of_text("."),
            steps: Vec::new(),
            documents: OpenDocuments::new(),
            next_token: 1,
        };
        assert(session@.steps =~= Seq::empty());
        session
    }

    /// The root of the project.
    pub fn root(&self) -> (root: &PathBuf)
        ensures
            path_bytes(*root) == self@.root,
    {
        &self.root
    }

    /// Sets the root of the project.
    pub fn set_root(&mut self, root: PathBuf)
        ensures
            final(self)@ == (SessionView { root: path_bytes(root), ..old(self)@ }),
    {
        self.root = root;
    }

    /// A document is opened.
    pub fn did_open(&mut self, uri: String, text: String)
        ensures
            final(self)@ == (SessionView {
                documents: old(self)@.documents.insert(uri@, text@),
                ..old(self)@
            }),
    {
        self.documents.did_open(uri, text);
    }

    /// A document is changed.
    pub fn did_change(&mut self, uri: String, changes: &Vec<String>)
        ensures
            final(self)@ == (SessionView {
                documents: changed_documents(
                    old(self)@.documents,
                    uri@,
                    changes.deep_view(),
                ),
                ..old(self)@
            }),
    {
        self.documents.did_change(uri, changes);
    }

    /// The token of the next piece of work.
    fn take_token(&mut self) -> (token: i32)
        ensures
            token == token_of(old(self)@.next_token),
            final(self)@ == (SessionView {
                next_token: next_number(old(self)@.next_token),
                ..old(self)@
            }),
    {
        let number: u32 = self.next_token;
        self.next_token = if number == u32::MAX {
            0
        } else {
            number + 1
        };
        #[verifier::truncate]
        (number as i32)
    }

    /// The making of an index starts: its token, and what is sent.
    pub fn begin_rebuild(&mut self) -> (start: (i32, Vec<ClientAction>))
        ensures
            start.0 == token_of(old(self)@.next_token),
            start.1.deep_view() == start_of_work(
                start.0,
                "Behat index"@,
                "Parsing contexts and steps"@,
            ),
            final(self)@ == (SessionView {
                next_token: next_number(old(self)@.next_token),
                ..old(self)@
            }),
    {
        let token = self.take_token();
        (token, work_start(token, "Behat index", "Parsing contexts and steps"))
    }

    /// The making of an index is over: the steps of the index take the place of those that were
    /// known. Where there is no index they stay.
    pub fn install(&mut self, outcome: BuildOutcome)
        ensures
            final(self)@ == after_build(old(self)@, outcome.deep_view()),
    {
        match outcome {
            BuildOutcome::Built(steps) => {
                self.steps = steps;
            },
            BuildOutcome::Failed(_) => {},
            BuildOutcome::Aborted(_) => {},
        }
    }

    /// Completions are asked for: the token of the work, and what is sent.
    pub fn begin_completion(&mut self) -> (start: (i32, Vec<ClientAction>))
        ensures
            start.0 == token_of(old(self)@.next_token),
            start.1.deep_view() == start_of_work(
                start.0,
                "Behat completions"@,
                "Preparing completions"@,
            ),
            final(self)@ == (SessionView {
                next_token: next_number(old(self)@.next_token),
                ..old(self)@
            }),
    {
        let token = self.take_token();
        (token, work_start(token, "Behat completions", "Preparing completions"))
    }

    /// The completions at a position: one for each step, which replaces the word before the
    /// position where there is such a word.
    pub fn completion(&self, uri: &str, position: Position) -> (list: CompletionList)
        ensures
            list.is_incomplete,
            list.items.deep_view() == step_items(
                self@.steps,
                word_in_document(self@.documents, uri@, position),
            ),
    {
        let range = self.documents.replace_range(uri, position);
        completion_list(&self.steps, range)
    }
}

/// What is sent when work starts.
fn work_start(token: i32, title: &str, message: &str) -> (actions: Vec<ClientAction>)
    ensures
        actions.deep_view() == start_of_work(token, title@, message@),
{
    let mut actions: Vec<ClientAction> = Vec::new();
    actions.push(ClientAction::CreateProgress { token });
    actions.push(
        ClientAction::Begin { token, title: title.to_owned(), message: message.to_owned() },
    );
    assert(actions.deep_view() =~= start_of_work(token, title@, message@));
    actions
}

/// What is sent while an index is made.
pub fn report_progress(token: i32, counter: &ProgressCounter) -> (action: ClientAction)
    ensures
        action.deep_view() == (ActionView::Report { token, message: progress_text(counter@) }),
{
    ClientAction::Report { token, message: counter.message() }
}

/// Three texts in a row.
fn three_texts(a: &str, b: &str, c: &str) -> (text: String)
    ensures
        text@ == a@ + b@ + c@,
{
    let mut text = a.to_owned();
    text.append(b);
    text.append(c);
    text
}

/// Two texts in a row.
fn two_texts(a: &str, b: &str) -> (text: String)
    ensures
        text@ == a@ + b@,
{
    let mut text = a.to_owned();
    text.append(b);
    text
}

/// What is sent when the making of an index is over.
pub fn end_rebuild(token: i32, outcome: &BuildOutcome) -> (actions: Vec<ClientAction>)
    ensures
        actions.deep_view() == end_of_build(token, outcome.deep_view()),
{
    let mut actions: Vec<ClientAction> = Vec::new();
    match outcome {
        BuildOutcome::Built(steps) => {
            let count = decimal_of(steps.len());
            assert(steps.deep_view().len() == steps@.len());
            let message = three_texts("Index built (", count.as_str(), " steps)");
            actions.push(ClientAction::End { token, message });
        },
        BuildOutcome::Failed(error) => {
            let reason = error.message();
            let text = two_texts("Index build failed: ", reason.as_str());
            actions.push(ClientAction::Log { level: LogLevel::Error, text });
            let message = "Index build failed".to_owned();
            actions.push(ClientAction::End { token, message });
        },
        BuildOutcome::Aborted(reason) => {
            let text = two_texts("Index build task failed: ", reason.as_str());
            actions.push(ClientAction::Log { level: LogLevel::Error, text });
            let message = "Index build failed".to_owned();
            actions.push(ClientAction::End { token, message });
        },
    }
    assert(actions.deep_view() =~= end_of_build(token, outcome.deep_view()));
    actions
}

/// What is sent when `count` completions have been listed.
pub fn end_completion(token: i32, count: usize) -> (actions: Vec<ClientAction>)
    ensures
        actions.deep_view() == end_of_completion(token, count as nat),
{
    let number = decimal_of(count);
    let mut actions: Vec<ClientAction> = Vec::new();
    let text = three_texts("behat-lsp: completions ready (", number.as_str(), ")");
    actions.push(ClientAction::Log { level: LogLevel::Info, text });
    let message = two_texts(number.as_str(), " completion(s)");
    actions.push(ClientAction::End { token, message });
    assert(actions.deep_view() =~= end_of_completion(token, count as nat));
    actions
}

/// The root of the project: the path that the client asks for, or else the current directory.
pub fn choose_root(requested: Option<PathBuf>, current: Option<PathBuf>) -> (root: PathBuf)
    ensures
        path_bytes(root) == match (requested, current) {
            (Some(path), _) => path_bytes(path),
            (None, Some(path)) => path_bytes(path),
            (None, None) => encode_utf8("."@),
        },
{
    match requested {
        Some(path) => path,
        None => match current {
            Some(path) => path,
            None => path_of_text("."),
        },
    }
}

/// `tower_lsp::lsp_types::Url`, a URL that the client sends.
#[verifier::external_type_specification]
#[verifier::external_body]
pub struct ExUrl(Url);

/// The path that a `Url` leads to, where it leads to one.
pub uninterp spec fn url_path(url: Url) -> Option<Seq<u8>>;

/// `Url::to_file_path` gives the path that a URL leads to, or an error where its host or its path
/// makes none; `url_path` names the result.
#[verifier::external_body]
fn path_of_url(url: &Url) -> (path: Option<PathBuf>)
    ensures
        path is Some <==> url_path(*url) is Some,
        path matches Some(p) ==> path_bytes(p) == url_path(*url)->0,
{
    url.to_file_path().ok()
}

/// The root of the project: where the URL that the client asks for leads, or else the current
/// directory.
pub fn requested_root(requested: Option<&Url>, current: Option<PathBuf>) -> (root: PathBuf)
    ensures
        path_bytes(root) == match (requested, current) {
            (Some(url), Some(path)) => match url_path(*url) {
                Some(bytes) => bytes,
                None => path_bytes(path),
            },
            (Some(url), None) => match url_path(*url) {
                Some(bytes) => bytes,
                None => encode_utf8("."@),
            },
            (None, Some(path)) => path_bytes(path),
            (None, None) => encode_utf8("."@),
        },
{
    let path = match requested {
        Some(url) => path_of_url(url),
        None => None,
    };
    choose_root(path, current)
}

/// What the server tells the client that it can do.
pub fn capabilities() -> (capabilities: Capabilities)
    ensures
        capabilities.full_sync,
        capabilities.trigger_characters.deep_view() == seq![" "@, "/"@],
{
    let mut trigger_characters: Vec<String> = Vec::new();
    trigger_characters.push(" ".to_owned());
    trigger_characters.push("/".to_owned());
    assert(trigger_characters.deep_view() =~= seq![" "@, "/"@]);
    Capabilities { full_sync: true, trigger_characters }
}

/// What is sent when the file system cannot be watched.
pub fn watcher_failed(reason: &str) -> (action: ClientAction)
    ensures
        action.deep_view() == (ActionView::Log {
            level: LogLevel::Error,
            text: "Failed to start watcher: "@ + reason@,
        }),
{
    ClientAction::Log {
        level: LogLevel::Error,
        text: two_texts("Failed to start watcher: ", reason),
    }
}

/// What is sent once the client is ready.
pub fn greeting() -> (action: ClientAction)
    ensures
        action.deep_view() == (ActionView::Log {
            level: LogLevel::Info,
            text: "behat-lsp initialized"@,
        }),
{
    ClientAction::Log { level: LogLevel::Info, text: "behat-lsp initialized".to_owned() }
}

/// What to do about news from the file system: an event, or the reason why there is none.
pub fn react_to_watcher(news: Result<WatchEvent, String>) -> (reaction: WatchReaction)
    ensures
        match news {
            Ok(event) => if outdates_index(event.kind, bytes_of_paths(event.paths@)) {
                reaction is Rebuild
            } else {
                reaction is Ignore
            },
            Err(reason) => reaction matches WatchReaction::Send(action) && action.deep_view() == (
            ActionView::Log { level: LogLevel::Error, text: "Watcher error: "@ + reason@ }),
        },
{
    match news {
        Ok(event) => {
            if should_rebuild_for_event(&event) {
                WatchReaction::Rebuild
            } else {
                WatchReaction::Ignore
            }
        },
        Err(reason) => WatchReaction::Send(
            ClientAction::Log {
                level: LogLevel::Error,
                text: two_texts("Watcher error: ", reason.as_str()),
            },
        ),
    }
}

} // verus!
