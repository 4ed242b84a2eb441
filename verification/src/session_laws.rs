//! What the editor is offered and told.

use vstd::prelude::*;

use crate::completion::CompletionKind;
use crate::document::{Position, Range};
use crate::progress::ProgressEvent;
use crate::server::LogLevel;
use crate::steps::StepKind;
use crate::watch::WatchKind;

verus! {

use crate::completion::{kind_sign, step_item, step_items, step_label, EditView};
use crate::document::{
    changed_documents, is_ascii_space, lemma_word_start, lines, word_before, word_in_document,
};
use crate::paths::{path_extension, path_file_name, path_shown};
use crate::php_laws::word_of;
use crate::progress::{
    after_event, context_parts, no_progress, progress_text, step_parts, ProgressView,
};
use crate::psr4::IndexErrorView;
use crate::server::{
    after_build, end_of_build, end_of_completion, next_number, start_of_work, token_of, ActionView,
    OutcomeView, SessionView,
};
use crate::snippet::{pieces, plain_text, snippet_text, step_pattern};
use crate::steps::{keyword, origin_text, StepView};
use crate::text::decimal;
use crate::watch::{
    is_composer_name, is_ignored_name, is_watched, is_watched_path, outdates_index,
};
use vstd::utf8::encode_utf8;

/// A step is written with the word of its kind, letter for letter, and with `Given` where it has no
/// word of its own.
pub proof fn lemma_keyword(kind: StepKind)
    ensures
        kind != StepKind::Other ==> keyword(kind) == word_of(kind),
        keyword(StepKind::Other) == word_of(StepKind::Given),
{
    reveal_strlit("Given");
    reveal_strlit("When");
    reveal_strlit("Then");
    reveal_strlit("And");
    reveal_strlit("But");
    assert("Given"@ =~= word_of(StepKind::Given));
    assert("When"@ =~= word_of(StepKind::When));
    assert("Then"@ =~= word_of(StepKind::Then));
    assert("And"@ =~= word_of(StepKind::And));
    assert("But"@ =~= word_of(StepKind::But));
}

/// Where a step comes from is told by its class and, in parentheses, its file, or by its file alone.
pub proof fn lemma_origin(class: Seq<char>, shown: Seq<char>)
    ensures
        origin_text(Some(class), shown) == class + seq![' ', '('] + shown + seq![')'],
        origin_text(None, shown) == shown,
{
    reveal_strlit(" (");
    reveal_strlit(")");
    assert(" ("@ =~= seq![' ', '(']);
    assert(")"@ =~= seq![')']);
}

/// The letters of the word that a step of a kind is written with.
pub open spec fn written_word(kind: StepKind) -> Seq<char> {
    if kind == StepKind::Other {
        word_of(StepKind::Given)
    } else {
        word_of(kind)
    }
}

/// What is offered for a step: its word, a space and its pattern, as shown and as inserted with tab
/// stops from one, the sign of its kind, and where it comes from. The text takes the place of the
/// range where there is one.
pub proof fn lemma_offered(step: StepView, range: Option<Range>)
    ensures
        ({
            let item = step_item(step, range);
            let inserted = written_word(step.kind) + seq![' '] + snippet_text(
                pieces(step_pattern(step.text)),
                1,
            );
            &&& item.label == written_word(step.kind) + seq![' '] + plain_text(
                pieces(step_pattern(step.text)),
            )
            &&& item.detail == match step.class {
                Some(class) => class + seq![' ', '('] + path_shown(step.source) + seq![')'],
                None => path_shown(step.source),
            }
            &&& item.is_snippet
            &&& range matches Some(place) ==> item.edit == (EditView::Replace {
                range: place,
                new_text: inserted,
            })
            &&& range is None ==> item.edit == (EditView::Insert { new_text: inserted })
        }),
{
    reveal_strlit(" ");
    assert(" "@ =~= seq![' ']);
    lemma_keyword(step.kind);
    if let Some(class) = step.class {
        lemma_origin(class, path_shown(step.source));
    }
}

/// The signs tell the kinds of steps apart, but for those that go on with another step.
pub proof fn lemma_signs()
    ensures
        kind_sign(StepKind::Given) == CompletionKind::Event,
        kind_sign(StepKind::When) == CompletionKind::Function,
        kind_sign(StepKind::Then) == CompletionKind::Keyword,
        kind_sign(StepKind::And) == CompletionKind::Field,
        kind_sign(StepKind::But) == CompletionKind::Field,
        kind_sign(StepKind::Other) == CompletionKind::Text,
{
}

/// One completion is offered for each step, at the place of the step.
pub proof fn lemma_one_for_each(steps: Seq<StepView>, range: Option<Range>)
    ensures
        step_items(steps, range).len() == steps.len(),
        forall|i: int|
            0 <= i < steps.len() ==> {
                &&& #[trigger] step_items(steps, range)[i] == step_item(steps[i], range)
                &&& step_items(steps, range)[i].kind == kind_sign(steps[i].kind)
                &&& step_items(steps, range)[i].label == step_label(steps[i])
            },
{
}

/// There is a word before a position just where the text has the line and the line is that long. It
/// ends at the position and starts in the same line, right behind the last space, tab, newline, form
/// feed or carriage return before the position, or with the line.
pub proof fn lemma_word_replaced(text: Seq<u8>, position: Position)
    ensures
        word_before(text, position) is Some <==> position.line < lines(text).len()
            && position.character <= lines(text)[position.line as int].len(),
        word_before(text, position) matches Some(range) ==> {
            let line = lines(text)[position.line as int];
            let start = range.start.character as int;
            &&& range.end == position
            &&& range.start.line == position.line
            &&& start <= position.character
            &&& forall|i: int|
                start <= i < position.character ==> #[trigger] line[i] != 0x20 && line[i] != 0x09
                    && line[i] != 0x0a && line[i] != 0x0c && line[i] != 0x0d
            &&& start > 0 ==> (line[start - 1] == 0x20 || line[start - 1] == 0x09 || line[start - 1]
                == 0x0a || line[start - 1] == 0x0c || line[start - 1] == 0x0d)
        },
{
    if let Some(range) = word_before(text, position) {
        let line = lines(text)[position.line as int];
        let start = range.start.character as int;
        lemma_word_start(line, position.character as nat);
        assert forall|i: int| start <= i < position.character implies #[trigger] line[i] != 0x20
            && line[i] != 0x09 && line[i] != 0x0a && line[i] != 0x0c && line[i] != 0x0d by {
            assert(!is_ascii_space(line[i]));
        }
    }
}

/// A change gives a document the text of the first change, and no other document another text. No
/// change changes none.
pub proof fn lemma_changed(
    documents: Map<Seq<char>, Seq<char>>,
    uri: Seq<char>,
    changes: Seq<Seq<char>>,
    other: Seq<char>,
)
    ensures
        changes.len() > 0 ==> changed_documents(documents, uri, changes).contains_key(uri)
            && changed_documents(documents, uri, changes)[uri] == changes[0],
        other != uri ==> changed_documents(documents, uri, changes).contains_key(other)
            == documents.contains_key(other),
        other != uri && documents.contains_key(other) ==> changed_documents(
            documents,
            uri,
            changes,
        )[other] == documents[other],
        changes.len() == 0 ==> changed_documents(documents, uri, changes) == documents,
{
}

/// A word is looked for in the text of an open document, and nowhere where it is not open.
pub proof fn lemma_word_in_open_document(
    documents: Map<Seq<char>, Seq<char>>,
    uri: Seq<char>,
    position: Position,
)
    ensures
        documents.contains_key(uri) ==> word_in_document(documents, uri, position) == word_before(
            encode_utf8(documents[uri]),
            position,
        ),
        !documents.contains_key(uri) ==> word_in_document(documents, uri, position) is None,
{
}

/// The index is outdated just where a configuration, a Composer file or a PHP file is made, changed
/// or taken away.
pub proof fn lemma_outdated(kind: WatchKind, paths: Seq<Seq<u8>>)
    ensures
        outdates_index(kind, paths) <==> (kind == WatchKind::Create || kind == WatchKind::Modify
            || kind == WatchKind::Remove) && exists|i: int|
            0 <= i < paths.len() && (path_file_name(#[trigger] paths[i]) == Some("behat.yaml"@)
                || path_file_name(paths[i]) == Some("composer.lock"@) || path_file_name(paths[i])
                == Some("composer.json"@) || path_extension(paths[i]) == Some("php"@)),
{
    if outdates_index(kind, paths) {
        let i = choose|i: int| 0 <= i < paths.len() && is_watched_path(#[trigger] paths[i]);
        assert(is_watched(path_file_name(paths[i]), path_extension(paths[i])));
    }
    if exists|i: int|
        0 <= i < paths.len() && (path_file_name(#[trigger] paths[i]) == Some("behat.yaml"@)
            || path_file_name(paths[i]) == Some("composer.lock"@) || path_file_name(paths[i])
            == Some("composer.json"@) || path_extension(paths[i]) == Some("php"@)) {
        let i = choose|i: int|
            0 <= i < paths.len() && (path_file_name(#[trigger] paths[i]) == Some("behat.yaml"@)
                || path_file_name(paths[i]) == Some("composer.lock"@) || path_file_name(paths[i])
                == Some("composer.json"@) || path_extension(paths[i]) == Some("php"@));
        assert(is_watched_path(paths[i]));
    }
}

/// A name or an extension alone makes a file matter to the index, whatever the other is.
pub proof fn lemma_watched(name: Option<Seq<char>>, extension: Option<Seq<char>>)
    ensures
        is_watched(name, extension) <==> {
            ||| name == Some("behat.yaml"@)
            ||| name == Some("composer.lock"@)
            ||| name == Some("composer.json"@)
            ||| extension == Some("php"@)
        },
{
}

/// Which directories are not looked into, and which files are Composer files.
pub proof fn lemma_walk(name: Seq<char>)
    ensures
        is_ignored_name(name) <==> {
            ||| name == seq!['.', 'g', 'i', 't']
            ||| name == seq!['v', 'e', 'n', 'd', 'o', 'r']
            ||| name == seq!['n', 'o', 'd', 'e', '_', 'm', 'o', 'd', 'u', 'l', 'e', 's']
            ||| name == seq!['t', 'a', 'r', 'g', 'e', 't']
        },
        is_composer_name(name) <==> {
            ||| name == seq!['c', 'o', 'm', 'p', 'o', 's', 'e', 'r', '.', 'l', 'o', 'c', 'k']
            ||| name == seq!['c', 'o', 'm', 'p', 'o', 's', 'e', 'r', '.', 'j', 's', 'o', 'n']
        },
{
    reveal_strlit(".git");
    reveal_strlit("vendor");
    reveal_strlit("node_modules");
    reveal_strlit("target");
    reveal_strlit("composer.lock");
    reveal_strlit("composer.json");
    assert(".git"@ =~= seq!['.', 'g', 'i', 't']);
    assert("vendor"@ =~= seq!['v', 'e', 'n', 'd', 'o', 'r']);
    assert("node_modules"@ =~= seq!['n', 'o', 'd', 'e', '_', 'm', 'o', 'd', 'u', 'l', 'e', 's']);
    assert("target"@ =~= seq!['t', 'a', 'r', 'g', 'e', 't']);
    assert("composer.lock"@ =~= seq![
        'c', 'o', 'm', 'p', 'o', 's', 'e', 'r', '.', 'l', 'o', 'c', 'k',
    ]);
    assert("composer.json"@ =~= seq![
        'c', 'o', 'm', 'p', 'o', 's', 'e', 'r', '.', 'j', 's', 'o', 'n',
    ]);
}

/// Each event is counted once, as what it is, and the rest stays.
pub proof fn lemma_event_counted(progress: ProgressView, total: usize)
    ensures
        ({
            let after = after_event(progress, ProgressEvent::ContextParsed { total });
            &&& after.contexts_done == progress.contexts_done + 1
            &&& after.contexts_total == Some(total as nat)
            &&& after.steps_done == progress.steps_done
        }),
        ({
            let after = after_event(progress, ProgressEvent::StepParsed);
            &&& after.contexts_done == progress.contexts_done
            &&& after.contexts_total == progress.contexts_total
            &&& after.steps_done == progress.steps_done + 1
        }),
{
}

/// Looking for contexts and finding steps makes one event for each, and the events of contexts say
/// how many there are.
pub proof fn lemma_events(total: usize)
    ensures
        context_parts(total).len() == total,
        forall|i: int|
            0 <= i < total ==> #[trigger] context_parts(total)[i] == (
            ProgressEvent::ContextParsed { total }),
        step_parts(total).len() == total,
        forall|i: int|
            0 <= i < total ==> #[trigger] step_parts(total)[i] == ProgressEvent::StepParsed,
        no_progress().contexts_done == 0,
        no_progress().contexts_total is None,
        no_progress().steps_done == 0,
{
}

/// Progress is told by the contexts that are done, out of how many where that is known, and the
/// steps that are done.
pub proof fn lemma_progress_text(contexts: nat, total: nat, steps: nat)
    ensures
        progress_text(
            ProgressView {
                contexts_done: contexts,
                contexts_total: Some(total),
                steps_done: steps,
            },
        ) == "contexts "@ + decimal(contexts) + seq!['/'] + decimal(total) + ", steps "@ + decimal(
            steps,
        ),
        progress_text(
            ProgressView { contexts_done: contexts, contexts_total: None, steps_done: steps },
        ) == "contexts "@ + decimal(contexts) + ", steps "@ + decimal(steps),
{
    reveal_strlit("/");
    assert("/"@ =~= seq!['/']);
    let known = ProgressView {
        contexts_done: contexts,
        contexts_total: Some(total),
        steps_done: steps,
    };
    assert(progress_text(known) =~= "contexts "@ + decimal(contexts) + seq!['/'] + decimal(total)
        + ", steps "@ + decimal(steps));
    let unknown = ProgressView {
        contexts_done: contexts,
        contexts_total: None,
        steps_done: steps,
    };
    assert(progress_text(unknown) =~= "contexts "@ + decimal(contexts) + ", steps "@ + decimal(
        steps,
    ));
}

/// Work starts with a request for its progress to be shown, and then its title and message, both
/// with its token.
pub proof fn lemma_start_told(token: i32, title: Seq<char>, message: Seq<char>)
    ensures
        start_of_work(token, title, message).len() == 2,
        start_of_work(token, title, message)[0] == (ActionView::CreateProgress { token }),
        start_of_work(token, title, message)[1] == (ActionView::Begin { token, title, message }),
{
}

/// The end of a build is told with the token of the work: how many steps there are, or that there is
/// no index, behind a line in the log that says why.
pub proof fn lemma_end_told(token: i32, steps: Seq<StepView>, path: Seq<u8>, reason: Seq<char>)
    ensures
        end_of_build(token, OutcomeView::Built(steps)) == seq![
            ActionView::End {
                token,
                message: "Index built ("@ + decimal(steps.len()) + " steps)"@,
            },
        ],
        end_of_build(token, OutcomeView::Failed(IndexErrorView::Unreadable(path))) == seq![
            ActionView::Log {
                level: LogLevel::Error,
                text: "Index build failed: "@ + ("read "@ + path_shown(path)),
            },
            ActionView::End { token, message: "Index build failed"@ },
        ],
        end_of_build(token, OutcomeView::Failed(IndexErrorView::Unparsable(path))) == seq![
            ActionView::Log {
                level: LogLevel::Error,
                text: "Index build failed: "@ + ("parse "@ + path_shown(path)),
            },
            ActionView::End { token, message: "Index build failed"@ },
        ],
        end_of_build(token, OutcomeView::Aborted(reason)) == seq![
            ActionView::Log {
                level: LogLevel::Error,
                text: "Index build task failed: "@ + reason,
            },
            ActionView::End { token, message: "Index build failed"@ },
        ],
{
}

/// The end of a completion is told with the number of completions, in the log and with the token.
pub proof fn lemma_completions_told(token: i32, count: nat)
    ensures
        end_of_completion(token, count) == seq![
            ActionView::Log {
                level: LogLevel::Info,
                text: "behat-lsp: completions ready ("@ + decimal(count) + ")"@,
            },
            ActionView::End { token, message: decimal(count) + " completion(s)"@ },
        ],
{
}

/// A new index replaces the steps and nothing else.
pub proof fn lemma_installed(session: SessionView, steps: Seq<StepView>)
    ensures
        after_build(session, OutcomeView::Built(steps)).steps == steps,
        after_build(session, OutcomeView::Built(steps)).root == session.root,
        after_build(session, OutcomeView::Built(steps)).documents == session.documents,
        after_build(session, OutcomeView::Built(steps)).next_token == session.next_token,
{
}

/// Numbers go up by one and start anew behind the last. A token is the number, or the number less
/// than nothing that has the same bits.
pub proof fn lemma_numbers(number: u32)
    ensures
        number < u32::MAX ==> next_number(number) == number + 1,
        next_number(u32::MAX) == 0,
        number <= 0x7fff_ffff ==> token_of(number) == number,
        number > 0x7fff_ffff ==> token_of(number) == number - 0x1_0000_0000,
{
    assert(number <= 0x7fff_ffff ==> number as i32 == number) by (bit_vector);
    assert(number > 0x7fff_ffff ==> number as i32 == number - 0x1_0000_0000) by (bit_vector);
}

} // verus!
