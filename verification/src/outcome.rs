//! What a finished scan generation hands the interface: the engine's outcome
//! with a successful tree converted for display.

use std::sync::atomic::{AtomicBool, Ordering};
use vstd::prelude::*;

use crate::display_tree::{entry_below, shows, DisplayNode};
use crate::scanner::{ScanError, ScanEvent, ScanId, ScanOutcome, ScanProgress};

verus! {

/// A scan generation's result, ready for the interface.
#[derive(Debug)]
pub enum PreparedOutcome {
    /// The display tree built from the engine's tree.
    Success(DisplayNode),
    /// Cooperative cancellation stopped the generation.
    Cancelled,
    /// The engine could not produce a result.
    Failed(ScanError),
    /// The worker contained a panic raised by the engine.
    Panicked,
}

/// Whether cancellation was requested.
fn cancel_requested(cancel: &AtomicBool) -> bool {
    cancel.load(Ordering::Acquire)
}

/// Prepares an engine's outcome. `cancelled` is whether cancellation had been
/// requested when the engine returned: a success seen then counts as
/// cancelled. Otherwise a successful tree is converted for display
/// (reopening the progress window for that), with `poll` asked for
/// cancellation at every node; a conversion cut short by it is cancelled too.
/// Other outcomes pass through.
pub fn prepare_outcome_polling<F: Fn() -> bool>(
    outcome: ScanOutcome,
    cancelled: bool,
    progress: &ScanProgress,
    poll: &F,
) -> (prepared: PreparedOutcome)
    requires
        call_requires(*poll, ()),
    ensures
        match outcome {
            ScanOutcome::Success(e) => {
                &&& prepared is Cancelled || (prepared matches PreparedOutcome::Success(d)
                    && d.well_formed() && shows(d, e))
                &&& cancelled ==> prepared is Cancelled
                &&& prepared is Cancelled ==> cancelled || call_ensures(*poll, (), true) || 1
                    + entry_below(e) >= usize::MAX
            },
            ScanOutcome::Cancelled => prepared is Cancelled,
            ScanOutcome::Failed(err) => prepared == PreparedOutcome::Failed(err),
            ScanOutcome::Panicked => prepared is Panicked,
        },
{
    match outcome {
        ScanOutcome::Success(entry) => {
            if cancelled {
                return PreparedOutcome::Cancelled;
            }
            progress.mark_incomplete();
            match DisplayNode::from_owned_entry_polling(entry, progress, poll) {
                Some(tree) => PreparedOutcome::Success(tree),
                None => PreparedOutcome::Cancelled,
            }
        },
        ScanOutcome::Cancelled => PreparedOutcome::Cancelled,
        ScanOutcome::Failed(error) => PreparedOutcome::Failed(error),
        ScanOutcome::Panicked => PreparedOutcome::Panicked,
    }
}

/// Prepares an engine's outcome against the generation's cancel flag: the
/// flag as it stands when the engine returned decides whether a success
/// still counts, and the tree conversion reads it again at every node.
/// Which values those reads see depends on the thread that sets the flag.
pub fn prepare_outcome(
    outcome: ScanOutcome,
    progress: &ScanProgress,
    cancel: &AtomicBool,
) -> (prepared: PreparedOutcome)
    ensures
        match outcome {
            ScanOutcome::Success(e) => prepared is Cancelled || (prepared matches PreparedOutcome::Success(
                d,
            ) && d.well_formed() && shows(d, e)),
            ScanOutcome::Cancelled => prepared is Cancelled,
            ScanOutcome::Failed(err) => prepared == PreparedOutcome::Failed(err),
            ScanOutcome::Panicked => prepared is Panicked,
        },
{
    let cancelled = cancel_requested(cancel);
    let poll = || cancel.load(Ordering::Relaxed);
    prepare_outcome_polling(outcome, cancelled, progress, &poll)
}

/// What a poll of the running generation's completion channel showed.
#[derive(Debug, Clone, Copy, PartialEq, Eq, Structural)]
pub enum CompletionPoll {
    /// A worker's completion, tagged with the generation that sent it.
    Received(ScanId),
    /// Nothing has arrived yet.
    Empty,
    /// The worker side hung up without sending.
    Disconnected,
}

/// What the controller does after a poll of the running generation.
#[derive(Debug, Clone, Copy, PartialEq, Eq, Structural)]
pub enum CompletionStep {
    /// Keep waiting.
    Wait,
    /// Retire the worker and publish the completion it sent.
    Publish,
    /// Retire the worker and publish a panic: it ended without a word.
    PublishPanicked,
    /// Retire the worker and publish nothing: the completion belongs to
    /// another generation.
    Discard,
}

/// The controller's decision on a poll of generation `active`: a
/// completion is published only when it carries `active`'s id (one for
/// another generation retires the worker silently); a hung-up channel
/// counts as a panic once the worker has finished; otherwise it waits.
pub fn completion_step(active: ScanId, poll: CompletionPoll, worker_finished: bool) -> (step:
    CompletionStep)
    ensures
        match poll {
            CompletionPoll::Received(id) => if id == active {
                step == CompletionStep::Publish
            } else {
                step == CompletionStep::Discard
            },
            CompletionPoll::Empty => step == CompletionStep::Wait,
            CompletionPoll::Disconnected => if worker_finished {
                step == CompletionStep::PublishPanicked
            } else {
                step == CompletionStep::Wait
            },
        },
{
    match poll {
        CompletionPoll::Received(id) => if id == active {
            CompletionStep::Publish
        } else {
            CompletionStep::Discard
        },
        CompletionPoll::Empty => CompletionStep::Wait,
        CompletionPoll::Disconnected => if worker_finished {
            CompletionStep::PublishPanicked
        } else {
            CompletionStep::Wait
        },
    }
}

/// Whether a live event belongs to generation `active`; events of any other
/// generation are dropped.
pub fn event_is_current(event: &ScanEvent, active: ScanId) -> (current: bool)
    ensures
        current == (event.parts().0 == active),
{
    event.scan_id() == active
}

} // verus!
