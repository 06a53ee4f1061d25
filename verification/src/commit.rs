//! The commit of a document and its words to two collections, each under a
//! session of its own.
//!
//! The store is not reached from here. The protocol is a state machine: it
//! names the next thing to do with the store, and is told how that went. The
//! two sessions are independent: where the first commit lands and the second
//! fails, the document stays without its words, and the commit reports
//! failure.

use vstd::prelude::*;

verus! {

/// Where a commit stands.
#[derive(Debug, Clone, Copy, PartialEq, Eq, Structural)]
pub enum CommitState {
    /// The two sessions are being opened.
    Opening,
    /// The document is being inserted under its session.
    InsertingDocument,
    /// The words are being inserted under their session.
    InsertingWords,
    /// The document's session is being aborted after its insert failed.
    AbortingDocument,
    /// The words' session is being aborted after their insert failed.
    AbortingWords,
    /// The document's session is being committed.
    CommittingDocument,
    /// The words' session is being committed; the field says whether the
    /// document's commit landed.
    CommittingWords(bool),
    /// The commit is over; the field says whether it succeeded.
    Done(bool),
}

/// What is to be done with the store next.
#[derive(Debug, Clone, Copy, PartialEq, Eq, Structural)]
pub enum CommitAction {
    /// Open a session with a transaction for each of the two collections.
    OpenSessions,
    InsertDocument,
    InsertWords,
    AbortDocument,
    AbortWords,
    CommitDocument,
    CommitWords,
    /// Nothing more; the field is the result of the commit.
    Finish(bool),
}

/// The state and the action that follow when the last action went well
/// (`ok`) or failed.
pub open spec fn step(state: CommitState, ok: bool) -> (CommitState, CommitAction) {
    match state {
        CommitState::Opening => if ok {
            (CommitState::InsertingDocument, CommitAction::InsertDocument)
        } else {
            (CommitState::Done(false), CommitAction::Finish(false))
        },
        CommitState::InsertingDocument => if ok {
            (CommitState::InsertingWords, CommitAction::InsertWords)
        } else {
            (CommitState::AbortingDocument, CommitAction::AbortDocument)
        },
        CommitState::InsertingWords => if ok {
            (CommitState::CommittingDocument, CommitAction::CommitDocument)
        } else {
            (CommitState::AbortingWords, CommitAction::AbortWords)
        },
        CommitState::AbortingDocument => (CommitState::Done(false), CommitAction::Finish(false)),
        CommitState::AbortingWords => (CommitState::Done(false), CommitAction::Finish(false)),
        CommitState::CommittingDocument => (
            CommitState::CommittingWords(ok),
            CommitAction::CommitWords,
        ),
        CommitState::CommittingWords(landed) => (
            CommitState::Done(landed && ok),
            CommitAction::Finish(landed && ok),
        ),
        CommitState::Done(result) => (CommitState::Done(result), CommitAction::Finish(result)),
    }
}

/// The state after the outcomes `outcomes` of the actions so far.
pub open spec fn state_after(outcomes: Seq<bool>) -> CommitState
    decreases outcomes.len(),
{
    if outcomes.len() == 0 {
        CommitState::Opening
    } else {
        step(state_after(outcomes.drop_last()), outcomes.last()).0
    }
}

/// The action that the protocol names after the outcomes `outcomes`: the
/// opening of the sessions first, then what each outcome leads to.
pub open spec fn action_after(outcomes: Seq<bool>) -> CommitAction {
    if outcomes.len() == 0 {
        CommitAction::OpenSessions
    } else {
        step(state_after(outcomes.drop_last()), outcomes.last()).1
    }
}

/// Starts a commit: the state to keep and the first action.
pub fn begin() -> (start: (CommitState, CommitAction))
    ensures
        start.0 == state_after(Seq::empty()),
        start.1 == action_after(Seq::empty()),
{
    (CommitState::Opening, CommitAction::OpenSessions)
}

/// Takes the outcome of the last action and names the next.
pub fn advance(state: CommitState, ok: bool) -> (next: (CommitState, CommitAction))
    ensures
        next == step(state, ok),
{
    match state {
        CommitState::Opening => if ok {
            (CommitState::InsertingDocument, CommitAction::InsertDocument)
        } else {
            (CommitState::Done(false), CommitAction::Finish(false))
        },
        CommitState::InsertingDocument => if ok {
            (CommitState::InsertingWords, CommitAction::InsertWords)
        } else {
            (CommitState::AbortingDocument, CommitAction::AbortDocument)
        },
        CommitState::InsertingWords => if ok {
            (CommitState::CommittingDocument, CommitAction::CommitDocument)
        } else {
            (CommitState::AbortingWords, CommitAction::AbortWords)
        },
        CommitState::AbortingDocument => (CommitState::Done(false), CommitAction::Finish(false)),
        CommitState::AbortingWords => (CommitState::Done(false), CommitAction::Finish(false)),
        CommitState::CommittingDocument => (
            CommitState::CommittingWords(ok),
            CommitAction::CommitWords,
        ),
        CommitState::CommittingWords(landed) => (
            CommitState::Done(landed && ok),
            CommitAction::Finish(landed && ok),
        ),
        CommitState::Done(result) => (CommitState::Done(result), CommitAction::Finish(result)),
    }
}

/// Whether an action commits a session.
pub open spec fn commits(action: CommitAction) -> bool {
    action == CommitAction::CommitDocument || action == CommitAction::CommitWords
}

/// The states that a commit passes through are fixed by the number of
/// outcomes seen while all of them are good.
proof fn lemma_states(outcomes: Seq<bool>)
    ensures
        outcomes.len() >= 1 && !outcomes[0] ==> state_after(outcomes) == CommitState::Done(false),
        outcomes.len() == 1 && outcomes[0] ==> state_after(outcomes)
            == CommitState::InsertingDocument,
        outcomes.len() == 2 && outcomes[0] && outcomes[1] ==> state_after(outcomes)
            == CommitState::InsertingWords,
        outcomes.len() == 2 && outcomes[0] && !outcomes[1] ==> state_after(outcomes)
            == CommitState::AbortingDocument,
        outcomes.len() >= 3 && outcomes[0] && !outcomes[1] ==> state_after(outcomes)
            == CommitState::Done(false),
        outcomes.len() == 3 && outcomes[0] && outcomes[1] && outcomes[2] ==> state_after(outcomes)
            == CommitState::CommittingDocument,
        outcomes.len() == 3 && outcomes[0] && outcomes[1] && !outcomes[2] ==> state_after(outcomes)
            == CommitState::AbortingWords,
        outcomes.len() >= 4 && outcomes[0] && outcomes[1] && !outcomes[2] ==> state_after(outcomes)
            == CommitState::Done(false),
        outcomes.len() == 4 && outcomes[0] && outcomes[1] && outcomes[2] ==> state_after(outcomes)
            == CommitState::CommittingWords(outcomes[3]),
        outcomes.len() >= 5 && outcomes[0] && outcomes[1] && outcomes[2] ==> state_after(outcomes)
            == CommitState::Done(outcomes[3] && outcomes[4]),
    decreases outcomes.len(),
{
    if outcomes.len() > 0 {
        let before = outcomes.drop_last();
        lemma_states(before);
    }
}

/// A commit succeeds exactly where the sessions open, both inserts go well
/// and both commits land.
pub proof fn law_commit_result(outcomes: Seq<bool>)
    requires
        outcomes.len() == 5,
    ensures
        action_after(outcomes) == CommitAction::Finish(
            outcomes[0] && outcomes[1] && outcomes[2] && outcomes[3] && outcomes[4],
        ),
{
    let before = outcomes.drop_last();
    lemma_states(before);
}

/// No session is committed unless the sessions opened and both inserts went
/// well. A document whose words could not be inserted is therefore never
/// committed, and neither are words whose document could not be inserted:
/// what was inserted under the open sessions is dropped with them.
pub proof fn law_commit_needs_both_inserts(outcomes: Seq<bool>)
    requires
        commits(action_after(outcomes)),
    ensures
        outcomes.len() >= 3,
        outcomes[0] && outcomes[1] && outcomes[2],
{
    if outcomes.len() > 0 {
        let before = outcomes.drop_last();
        lemma_states(before);
    }
}

/// The words are not inserted unless the document was: after a failed insert
/// of the document its session is aborted and the commit ends in failure.
pub proof fn law_words_follow_document(outcomes: Seq<bool>)
    requires
        action_after(outcomes) == CommitAction::InsertWords,
    ensures
        outcomes.len() == 2,
        outcomes[0] && outcomes[1],
{
    if outcomes.len() > 0 {
        let before = outcomes.drop_last();
        lemma_states(before);
    }
}

/// A failed insert ends the commit in failure, whatever comes after it.
pub proof fn law_failed_insert_fails(outcomes: Seq<bool>)
    requires
        outcomes.len() >= 4,
        !outcomes[1] || !outcomes[2],
    ensures
        action_after(outcomes) == CommitAction::Finish(false),
{
    let before = outcomes.drop_last();
    lemma_states(before);
}

} // verus!
