//! How far the making of an index has come.

use vstd::prelude::*;

use crate::text::decimal_of;

verus! {

use crate::text::decimal;
use vstd::string::StringExecFns;

/// A part of the work that is done.
#[derive(Clone, Copy, Debug, PartialEq, Eq, Structural)]
pub enum ProgressEvent {
    /// One of `total` contexts has been looked for.
    ContextParsed { total: usize },
    /// A step has been found.
    StepParsed,
}

/// How much of the work is done.
#[derive(Clone, Copy, Debug, PartialEq, Eq, Structural)]
pub struct ProgressCounter {
    pub contexts_done: usize,
    pub contexts_total: Option<usize>,
    pub steps_done: usize,
}

/// How much of the work is done, as numbers without bound.
pub struct ProgressView {
    pub contexts_done: nat,
    pub contexts_total: Option<nat>,
    pub steps_done: nat,
}

impl View for ProgressCounter {
    type V = ProgressView;

    open spec fn view(&self) -> ProgressView {
        ProgressView {
            contexts_done: self.contexts_done as nat,
            contexts_total: match self.contexts_total {
                Some(total) => Some(total as nat),
                None => None,
            },
            steps_done: self.steps_done as nat,
        }
    }
}

/// No work is done.
pub open spec fn no_progress() -> ProgressView {
    ProgressView { contexts_done: 0, contexts_total: None, steps_done: 0 }
}

/// How much of the work is done once a part more is.
pub open spec fn after_event(progress: ProgressView, event: ProgressEvent) -> ProgressView {
    match event {
        ProgressEvent::ContextParsed { total } => ProgressView {
            contexts_done: progress.contexts_done + 1,
            contexts_total: Some(total as nat),
            ..progress
        },
        ProgressEvent::StepParsed => ProgressView {
            steps_done: progress.steps_done + 1,
            ..progress
        },
    }
}

/// How much of the work is done once many parts more are.
pub open spec fn after_events(progress: ProgressView, events: Seq<ProgressEvent>) -> ProgressView
    decreases events.len(),
{
    if events.len() == 0 {
        progress
    } else {
        after_event(after_events(progress, events.drop_last()), events.last())
    }
}

/// The text that tells how much of the work is done.
pub open spec fn progress_text(progress: ProgressView) -> Seq<char> {
    "contexts "@ + decimal(progress.contexts_done) + (match progress.contexts_total {
        Some(total) => "/"@ + decimal(total),
        None => Seq::empty(),
    }) + ", steps "@ + decimal(progress.steps_done)
}

/// The parts of looking for `total` contexts.
pub open spec fn context_parts(total: usize) -> Seq<ProgressEvent> {
    Seq::new(total as nat, |i: int| ProgressEvent::ContextParsed { total })
}

/// The parts of finding `count` steps.
pub open spec fn step_parts(count: usize) -> Seq<ProgressEvent> {
    Seq::new(count as nat, |i: int| ProgressEvent::StepParsed)
}

proof fn lemma_events_add(progress: ProgressView, a: Seq<ProgressEvent>, b: Seq<ProgressEvent>)
    ensures
        after_events(progress, a + b) == after_events(after_events(progress, a), b),
    decreases b.len(),
{
    if b.len() == 0 {
        assert(a + b =~= a);
    } else {
        assert((a + b).drop_last() =~= a + b.drop_last());
        lemma_events_add(progress, a, b.drop_last());
    }
}

proof fn lemma_context_parts(progress: ProgressView, total: usize, n: nat)
    requires
        n <= total,
    ensures
        after_events(progress, context_parts(total).take(n as int)) == (ProgressView {
            contexts_done: progress.contexts_done + n,
            contexts_total: if n == 0 {
                progress.contexts_total
            } else {
                Some(total as nat)
            },
            steps_done: progress.steps_done,
        }),
    decreases n,
{
    if n > 0 {
        let parts = context_parts(total).take(n as int);
        assert(parts.drop_last() =~= context_parts(total).take(n - 1));
        lemma_context_parts(progress, total, (n - 1) as nat);
    }
}

proof fn lemma_step_parts(progress: ProgressView, count: usize, n: nat)
    requires
        n <= count,
    ensures
        after_events(progress, step_parts(count).take(n as int)) == (ProgressView {
            steps_done: progress.steps_done + n,
            ..progress
        }),
    decreases n,
{
    if n > 0 {
        let parts = step_parts(count).take(n as int);
        assert(parts.drop_last() =~= step_parts(count).take(n - 1));
        lemma_step_parts(progress, count, (n - 1) as nat);
    }
}

/// Once all the contexts have been looked for and all the steps found, that is what has been
/// counted.
pub proof fn lemma_all_counted(contexts: usize, steps: usize)
    ensures
        after_events(no_progress(), context_parts(contexts) + step_parts(steps)) == (ProgressView {
            contexts_done: contexts as nat,
            contexts_total: if contexts == 0 {
                None
            } else {
                Some(contexts as nat)
            },
            steps_done: steps as nat,
        }),
{
    lemma_events_add(no_progress(), context_parts(contexts), step_parts(steps));
    assert(context_parts(contexts).take(contexts as int) =~= context_parts(contexts));
    assert(step_parts(steps).take(steps as int) =~= step_parts(steps));
    lemma_context_parts(no_progress(), contexts, contexts as nat);
    lemma_step_parts(
        after_events(no_progress(), context_parts(contexts)),
        steps,
        steps as nat,
    );
}

/// The parts of looking for `total` contexts.
pub fn context_events(total: usize) -> (events: Vec<ProgressEvent>)
    ensures
        events@ == context_parts(total),
{
    let mut events: Vec<ProgressEvent> = Vec::new();
    let mut i: usize = 0;
    while i < total
        invariant
            i <= total,
            events@ == context_parts(total).take(i as int),
        decreases total - i,
    {
        events.push(ProgressEvent::ContextParsed { total });
        i += 1;
        assert(events@ =~= context_parts(total).take(i as int));
    }
    assert(events@ =~= context_parts(total));
    events
}

/// The parts of finding `count` steps.
pub fn step_events(count: usize) -> (events: Vec<ProgressEvent>)
    ensures
        events@ == step_parts(count),
{
    let mut events: Vec<ProgressEvent> = Vec::new();
    let mut i: usize = 0;
    while i < count
        invariant
            i <= count,
            events@ == step_parts(count).take(i as int),
        decreases count - i,
    {
        events.push(ProgressEvent::StepParsed);
        i += 1;
        assert(events@ =~= step_parts(count).take(i as int));
    }
    assert(events@ =~= step_parts(count));
    events
}

impl ProgressCounter {
    /// No work is done.
    pub fn new() -> (counter: ProgressCounter)
        ensures
            counter@ == no_progress(),
    {
        ProgressCounter { contexts_done: 0, contexts_total: None, steps_done: 0 }
    }

    /// Whether a part more can be counted.
    pub open spec fn has_room_for(self, event: ProgressEvent) -> bool {
        match event {
            ProgressEvent::ContextParsed { .. } => self.contexts_done < usize::MAX,
            ProgressEvent::StepParsed => self.steps_done < usize::MAX,
        }
    }

    /// Tells whether a part more can be counted.
    pub fn can_count(&self, event: ProgressEvent) -> (r: bool)
        ensures
            r == self.has_room_for(event),
    {
        match event {
            ProgressEvent::ContextParsed { .. } => self.contexts_done < usize::MAX,
            ProgressEvent::StepParsed => self.steps_done < usize::MAX,
        }
    }

    /// Counts a part more.
    pub fn count(&mut self, event: ProgressEvent)
        requires
            old(self).has_room_for(event),
        ensures
            final(self)@ == after_event(old(self)@, event),
    {
        match event {
            ProgressEvent::ContextParsed { total } => {
                self.contexts_done = self.contexts_done + 1;
                self.contexts_total = Some(total);
            },
            ProgressEvent::StepParsed => {
                self.steps_done = self.steps_done + 1;
            },
        }
    }

    /// The text that tells how much of the work is done.
    pub fn message(&self) -> (text: String)
        ensures
            text@ == progress_text(self@),
    {
        let mut text = String::from_str("contexts ");
        let done = decimal_of(self.contexts_done);
        text.append(done.as_str());
        if let Some(total) = self.contexts_total {
            let total = decimal_of(total);
            text.append("/");
            text.append(total.as_str());
        }
        text.append(", steps ");
        let steps = decimal_of(self.steps_done);
        text.append(steps.as_str());
        assert(text@ =~= progress_text(self@));
        text
    }
}

} // verus!
