//! The rebuilding of the score collection: clear it, read the documents and
//! the word records, compute the statistics and write them out in batches.
//!
//! The store is not reached from here. The rebuilding is a state machine: it
//! names the next thing to do with the store, and is told what came of it.

use crate::models::{DocumentMetadata, Words};
use crate::tfidf::{
    address_views, fact_views, statistics, term_statistics, term_views, TermStatistic, TermView,
    WordFact,
};
use vstd::prelude::*;

verus! {

/// The number of statistics that are written in one batch at most.
pub const BATCH_SIZE: usize = 1000;

/// Where a rebuilding stands.
#[derive(Debug, Clone, Copy, PartialEq, Eq, Structural)]
pub enum RebuildStage {
    /// The score collection is being cleared.
    Clearing,
    /// The documents are being read.
    LoadingDocuments,
    /// The word records are being read.
    LoadingWords,
    /// A batch is being written.
    Writing,
    /// The rebuilding is over; the field says whether it succeeded.
    Done(bool),
}

/// What came of the last action.
#[derive(Debug)]
pub enum RebuildEvent {
    /// Whether the score collection was cleared.
    Cleared(bool),
    /// The documents of the store; `None` where the store failed.
    Documents(Option<Vec<DocumentMetadata>>),
    /// The word records of the store; `None` where the store failed.
    WordRecords(Option<Vec<Words>>),
    /// Whether the batch was written.
    Written(bool),
}

/// What is to be done with the store next.
#[derive(Debug, Clone, Copy, PartialEq, Eq, Structural)]
pub enum RebuildAction {
    /// Delete every score.
    ClearScores,
    /// Read the identifier, address, title and description of every document.
    LoadDocuments,
    /// Read every word record.
    LoadWords,
    /// Write the statistics from the first place up to the second, as scores.
    WriteBatch(usize, usize),
    /// Nothing more; the field is the number of scores written, `None` where
    /// the rebuilding failed.
    Finish(Option<usize>),
}

/// An action as plain values.
pub ghost enum ActionView {
    ClearScores,
    LoadDocuments,
    LoadWords,
    WriteBatch(int, int),
    Finish(Option<int>),
}

impl View for RebuildAction {
    type V = ActionView;

    open spec fn view(&self) -> ActionView {
        match self {
            RebuildAction::ClearScores => ActionView::ClearScores,
            RebuildAction::LoadDocuments => ActionView::LoadDocuments,
            RebuildAction::LoadWords => ActionView::LoadWords,
            RebuildAction::WriteBatch(from, to) => ActionView::WriteBatch(*from as int, *to as int),
            RebuildAction::Finish(Some(count)) => ActionView::Finish(Some(*count as int)),
            RebuildAction::Finish(None) => ActionView::Finish(None),
        }
    }
}

/// A rebuilding: its stage, what it has read and computed, and the place up
/// to which the statistics are handed out.
#[derive(Debug)]
pub struct Rebuild {
    pub stage: RebuildStage,
    pub documents: Vec<DocumentMetadata>,
    pub terms: Vec<TermStatistic>,
    pub written: usize,
}

/// A rebuilding as plain values.
pub ghost struct RebuildView {
    pub stage: RebuildStage,
    pub addresses: Seq<(Seq<u8>, Seq<char>)>,
    pub terms: Seq<TermView>,
    pub written: int,
}

/// An event as plain values.
pub ghost enum RebuildEventView {
    Cleared(bool),
    Documents(Option<Seq<(Seq<u8>, Seq<char>)>>),
    WordRecords(Option<Seq<WordFact>>),
    Written(bool),
}

impl View for Rebuild {
    type V = RebuildView;

    open spec fn view(&self) -> RebuildView {
        RebuildView {
            stage: self.stage,
            addresses: address_views(self.documents@),
            terms: term_views(self.terms@),
            written: self.written as int,
        }
    }
}

impl View for RebuildEvent {
    type V = RebuildEventView;

    open spec fn view(&self) -> RebuildEventView {
        match self {
            RebuildEvent::Cleared(ok) => RebuildEventView::Cleared(*ok),
            RebuildEvent::Documents(None) => RebuildEventView::Documents(None),
            RebuildEvent::Documents(Some(documents)) => RebuildEventView::Documents(
                Some(address_views(documents@)),
            ),
            RebuildEvent::WordRecords(None) => RebuildEventView::WordRecords(None),
            RebuildEvent::WordRecords(Some(words)) => RebuildEventView::WordRecords(
                Some(fact_views(words@)),
            ),
            RebuildEvent::Written(ok) => RebuildEventView::Written(*ok),
        }
    }
}

/// The end of the batch that starts at `from`.
pub open spec fn batch_end(from: int, len: int) -> int {
    if len - from <= BATCH_SIZE {
        len
    } else {
        from + BATCH_SIZE
    }
}

/// The step of a rebuilding that has handed out its statistics up to
/// `state.written`: the next batch, or the end where none is left.
pub open spec fn next_batch(state: RebuildView) -> (RebuildView, ActionView) {
    if state.written < state.terms.len() {
        let end = batch_end(state.written, state.terms.len() as int);
        (
            RebuildView { stage: RebuildStage::Writing, written: end, ..state },
            ActionView::WriteBatch(state.written, end),
        )
    } else {
        (
            RebuildView { stage: RebuildStage::Done(true), ..state },
            ActionView::Finish(Some(state.terms.len() as int)),
        )
    }
}

/// The end of a rebuilding in failure.
pub open spec fn broken(state: RebuildView) -> (RebuildView, ActionView) {
    (RebuildView { stage: RebuildStage::Done(false), ..state }, ActionView::Finish(None))
}

/// The state and the action that follow an event.
pub open spec fn rebuild_step(state: RebuildView, event: RebuildEventView) -> (
    RebuildView,
    ActionView,
) {
    match (state.stage, event) {
        (RebuildStage::Clearing, RebuildEventView::Cleared(true)) => (
            RebuildView { stage: RebuildStage::LoadingDocuments, ..state },
            ActionView::LoadDocuments,
        ),
        (RebuildStage::LoadingDocuments, RebuildEventView::Documents(Some(addresses))) => (
            RebuildView { stage: RebuildStage::LoadingWords, addresses, ..state },
            ActionView::LoadWords,
        ),
        (RebuildStage::LoadingWords, RebuildEventView::WordRecords(Some(facts))) => next_batch(
            RebuildView { terms: statistics(state.addresses, facts), written: 0, ..state },
        ),
        (RebuildStage::Writing, RebuildEventView::Written(true)) => next_batch(state),
        (RebuildStage::Done(true), _) => (
            state,
            ActionView::Finish(Some(state.terms.len() as int)),
        ),
        _ => broken(state),
    }
}

/// The state in which a rebuilding starts. Its first action is to clear the
/// score collection.
pub open spec fn fresh() -> RebuildView {
    RebuildView {
        stage: RebuildStage::Clearing,
        addresses: Seq::empty(),
        terms: Seq::empty(),
        written: 0,
    }
}

impl Rebuild {
    /// Starts a rebuilding: the state to keep and the first action.
    pub fn start() -> (start: (Rebuild, RebuildAction))
        ensures
            start.0@ == fresh(),
            start.1 == RebuildAction::ClearScores,
    {
        let rebuild = Rebuild {
            stage: RebuildStage::Clearing,
            documents: Vec::new(),
            terms: Vec::new(),
            written: 0,
        };
        assert(rebuild@.addresses =~= Seq::empty());
        assert(rebuild@.terms =~= Seq::empty());
        (rebuild, RebuildAction::ClearScores)
    }

    /// The next batch, or the end where none is left.
    fn hand_out(&mut self) -> (action: RebuildAction)
        ensures
            (final(self)@, action@) == next_batch(old(self)@),
    {
        let len = self.terms.len();
        assert(term_views(self.terms@).len() == len);
        if self.written < len {
            let from = self.written;
            let end = if len - from <= BATCH_SIZE {
                len
            } else {
                from + BATCH_SIZE
            };
            self.stage = RebuildStage::Writing;
            self.written = end;
            RebuildAction::WriteBatch(from, end)
        } else {
            self.stage = RebuildStage::Done(true);
            RebuildAction::Finish(Some(len))
        }
    }

    /// Takes what came of the last action and names the next.
    pub fn advance(&mut self, event: RebuildEvent) -> (action: RebuildAction)
        ensures
            (final(self)@, action@) == rebuild_step(old(self)@, event@),
    {
        match (self.stage, event) {
            (RebuildStage::Clearing, RebuildEvent::Cleared(true)) => {
                self.stage = RebuildStage::LoadingDocuments;
                RebuildAction::LoadDocuments
            },
            (RebuildStage::LoadingDocuments, RebuildEvent::Documents(Some(documents))) => {
                self.stage = RebuildStage::LoadingWords;
                self.documents = documents;
                RebuildAction::LoadWords
            },
            (RebuildStage::LoadingWords, RebuildEvent::WordRecords(Some(words))) => {
                self.terms = term_statistics(&self.documents, &words);
                self.written = 0;
                self.hand_out()
            },
            (RebuildStage::Writing, RebuildEvent::Written(true)) => self.hand_out(),
            (RebuildStage::Done(true), _) => {
                RebuildAction::Finish(Some(self.terms.len()))
            },
            _ => {
                self.stage = RebuildStage::Done(false);
                RebuildAction::Finish(None)
            },
        }
    }
}

/// What an action makes of the score collection `scores`, where `terms` are
/// the statistics of the rebuilding: clearing empties it, a batch is added at
/// its end, and nothing else touches it.
pub open spec fn scores_after(scores: Seq<TermView>, terms: Seq<TermView>, action: ActionView) -> Seq<
    TermView,
> {
    match action {
        ActionView::ClearScores => Seq::empty(),
        ActionView::WriteBatch(from, to) => scores + terms.subrange(from, to),
        _ => scores,
    }
}

/// A run of a rebuilding: the states that it passes through from the fresh
/// one on, the events that it is told of and the actions that it names in
/// answer.
pub open spec fn is_run(
    states: Seq<RebuildView>,
    events: Seq<RebuildEventView>,
    actions: Seq<ActionView>,
) -> bool {
    &&& states.len() == events.len() + 1
    &&& actions.len() == events.len()
    &&& states[0] == fresh()
    &&& forall|k: int|
        0 <= k < events.len() ==> (states[k + 1], actions[k]) == rebuild_step(
            #[trigger] states[k],
            events[k],
        )
}

/// The score collection after the first `k` steps of a run that found the
/// scores `prior`: the first action of all, before any event, clears it.
pub open spec fn scores_at(
    prior: Seq<TermView>,
    states: Seq<RebuildView>,
    actions: Seq<ActionView>,
    k: int,
) -> Seq<TermView>
    decreases k,
{
    if k <= 0 {
        scores_after(prior, Seq::empty(), ActionView::ClearScores)
    } else {
        scores_after(scores_at(prior, states, actions, k - 1), states[k].terms, actions[k - 1])
    }
}

/// What holds of the score collection at each step of a run.
spec fn on_track(state: RebuildView, scores: Seq<TermView>) -> bool {
    &&& 0 <= state.written <= state.terms.len()
    &&& match state.stage {
        RebuildStage::Clearing => scores.len() == 0,
        RebuildStage::LoadingDocuments => scores.len() == 0,
        RebuildStage::LoadingWords => scores.len() == 0,
        RebuildStage::Writing => scores == state.terms.subrange(0, state.written),
        RebuildStage::Done(true) => scores == state.terms,
        RebuildStage::Done(false) => true,
    }
}

/// The documents and the word records that a run was given: those of its
/// second and third event, where both are there.
pub open spec fn read_by(events: Seq<RebuildEventView>) -> Option<
    (Seq<(Seq<u8>, Seq<char>)>, Seq<WordFact>),
> {
    if events.len() >= 3 {
        match (events[1], events[2]) {
            (
                RebuildEventView::Documents(Some(addresses)),
                RebuildEventView::WordRecords(Some(facts)),
            ) => Some((addresses, facts)),
            _ => None,
        }
    } else {
        None
    }
}

/// The statistics of what a run was given.
pub open spec fn rebuilt(events: Seq<RebuildEventView>) -> Seq<TermView> {
    match read_by(events) {
        Some(read) => statistics(read.0, read.1),
        None => Seq::empty(),
    }
}

/// Once a run writes, its statistics are those of what it was given.
spec fn computed(states: Seq<RebuildView>, events: Seq<RebuildEventView>, k: int) -> bool {
    (states[k].stage == RebuildStage::Writing || states[k].stage == RebuildStage::Done(true))
        ==> (read_by(events) is Some && states[k].terms == rebuilt(events))
}

proof fn lemma_run(
    prior: Seq<TermView>,
    states: Seq<RebuildView>,
    events: Seq<RebuildEventView>,
    actions: Seq<ActionView>,
    k: int,
)
    requires
        is_run(states, events, actions),
        0 <= k <= events.len(),
    ensures
        on_track(states[k], scores_at(prior, states, actions, k)),
        computed(states, events, k),
        k <= 0 ==> states[k].stage == RebuildStage::Clearing,
        k == 1 ==> states[k].stage == RebuildStage::LoadingDocuments || states[k].stage
            == RebuildStage::Done(false),
        k == 2 ==> (states[k].stage == RebuildStage::LoadingWords && events[1]
            == RebuildEventView::Documents(Some(states[k].addresses))) || states[k].stage
            == RebuildStage::Done(false),
        k >= 3 ==> states[k].stage == RebuildStage::Writing || states[k].stage
            == RebuildStage::Done(true) || states[k].stage == RebuildStage::Done(false),
    decreases k,
{
    if k > 0 {
        lemma_run(prior, states, events, actions, k - 1);
        let before = states[k - 1];
        let scores = scores_at(prior, states, actions, k - 1);
        let now = states[k];
        match (before.stage, events[k - 1]) {
            (RebuildStage::LoadingWords, RebuildEventView::WordRecords(Some(facts))) => {
                if now.stage != RebuildStage::Writing {
                    assert(now.terms =~= scores);
                }
            },
            (RebuildStage::Writing, RebuildEventView::Written(true)) => {
                if now.stage == RebuildStage::Writing {
                    assert(scores + now.terms.subrange(before.written, now.written)
                        =~= now.terms.subrange(0, now.written));
                } else {
                    assert(scores =~= now.terms);
                }
            },
            _ => {},
        }
    }
}

/// A rebuilding replaces the score collection: where it ends well, the
/// collection holds exactly the statistics of the documents and the word
/// records that it was given, whatever the collection held before, and the
/// number that it reports is their number. Run twice on the same documents
/// and word records it therefore leaves the same scores, and as many, as run
/// once.
pub proof fn law_rebuild_replaces(
    prior: Seq<TermView>,
    states: Seq<RebuildView>,
    events: Seq<RebuildEventView>,
    actions: Seq<ActionView>,
    count: int,
)
    requires
        is_run(states, events, actions),
        events.len() >= 1,
        actions.last() == ActionView::Finish(Some(count)),
    ensures
        read_by(events) is Some,
        scores_at(prior, states, actions, events.len() as int) == rebuilt(events),
        count == rebuilt(events).len(),
{
    let n = events.len() as int;
    lemma_run(prior, states, events, actions, n);
    lemma_run(prior, states, events, actions, n - 1);
}

/// Rebuilding twice leaves what rebuilding once leaves: where a second run
/// is given the documents and word records that the first was given, and
/// both end well, the collection holds after the second the very scores that
/// it held after the first, as many and no more, and both runs report that
/// number.
pub proof fn law_rebuild_twice(
    prior: Seq<TermView>,
    first_states: Seq<RebuildView>,
    first_events: Seq<RebuildEventView>,
    first_actions: Seq<ActionView>,
    first_count: int,
    second_states: Seq<RebuildView>,
    second_events: Seq<RebuildEventView>,
    second_actions: Seq<ActionView>,
    second_count: int,
)
    requires
        is_run(first_states, first_events, first_actions),
        is_run(second_states, second_events, second_actions),
        first_events.len() >= 1,
        second_events.len() >= 1,
        first_actions.last() == ActionView::Finish(Some(first_count)),
        second_actions.last() == ActionView::Finish(Some(second_count)),
        read_by(first_events) == read_by(second_events),
    ensures
        scores_at(
            scores_at(prior, first_states, first_actions, first_events.len() as int),
            second_states,
            second_actions,
            second_events.len() as int,
        ) == scores_at(prior, first_states, first_actions, first_events.len() as int),
        second_count == first_count,
        first_count == scores_at(
            prior,
            first_states,
            first_actions,
            first_events.len() as int,
        ).len(),
{
    law_rebuild_replaces(prior, first_states, first_events, first_actions, first_count);
    let between = scores_at(prior, first_states, first_actions, first_events.len() as int);
    law_rebuild_replaces(between, second_states, second_events, second_actions, second_count);
}

} // verus!
