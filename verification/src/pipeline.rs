//! The indexing of one address, from the check of the store to the commit.
//!
//! Neither the store nor the network is reached from here. The pipeline is a
//! state machine: it names the next thing to do, and is told what came of it.

use crate::classify::{is_binary_extension, names_binary, probe_allows, should_fetch_after_probe};
use crate::extract::{
    clean_html, document_text, extract_structured_data, option_view, page_text_of,
    without_elements, PageText,
};
use crate::frequency::{counts_fit, records_of, try_create_frequency};
use crate::models::{Document, StateEvents, Words};
use crate::normalize::{english, normalized, stop_set};
use vstd::prelude::*;

verus! {

/// The number of addresses that are indexed at one time at most.
pub const MAX_IN_FLIGHT: usize = 10;

/// What `urlencoding::decode` makes of an address: the text with each `%` and
/// two hexadecimal digits replaced by the byte that they write, or `None`
/// where the bytes are then no UTF-8.
pub uninterp spec fn percent_decoded(url: Seq<char>) -> Option<Seq<char>>;

/// Calls `urlencoding::decode` and hands back the decoded text, or `None`
/// where the crate reports an error. The contract names the result.
#[verifier::external_body]
fn percent_decode(url: &str) -> (decoded: Option<String>)
    ensures
        option_view(decoded) == percent_decoded(url@),
{
    urlencoding::decode(url).ok().map(|text| text.into_owned())
}

/// Where the indexing of an address stands.
#[derive(Debug, Clone, Copy, PartialEq, Eq, Structural)]
pub enum Stage {
    /// The store is being asked whether it holds the address.
    CheckingExistence,
    /// The headers of the resource are being asked for.
    Probing,
    /// The body is being fetched.
    Fetching,
    /// The document and its words are being committed.
    Committing,
    /// The indexing is over, with this outcome.
    Finished(StateEvents),
    /// The indexing broke off without an outcome.
    Failed,
}

/// The headers of a probe that the classifier reads, `None` for one that the
/// response does not carry.
#[derive(Debug)]
pub struct ProbeHeaders {
    pub content_type: Option<String>,
    pub content_length: Option<String>,
}

/// What came of the last action.
#[derive(Debug)]
pub enum PipelineEvent {
    /// The store's answer to the question whether it holds the address;
    /// `None` where the store failed.
    Existence(Option<bool>),
    /// The headers of the probe; `None` where the probe failed.
    Headers(Option<ProbeHeaders>),
    /// The body of the page.
    Page(String),
    /// Whether the commit succeeded.
    Committed(bool),
}

/// Why an indexing broke off.
#[derive(Debug, Clone, Copy, PartialEq, Eq, Structural)]
pub enum PipelineError {
    /// The markup of the page made the rewriter give up.
    Markup,
    /// The page is so long that the counts of its words do not fit.
    TooLong,
    /// The event does not answer the action that was named.
    Unexpected,
}

/// What is to be done next.
#[derive(Debug)]
pub enum PipelineAction {
    /// Ask the store whether it holds the address.
    CheckExistence,
    /// Ask for the headers of the resource.
    Probe,
    /// Fetch the body.
    Fetch,
    /// Commit the document and its words.
    Commit(Document, Vec<Words>),
    /// Nothing more; the indexing ended with this outcome.
    Finish(StateEvents),
    /// Nothing more; the indexing broke off.
    Fail(PipelineError),
}

/// An event as plain values.
pub ghost enum EventView {
    Existence(Option<bool>),
    Headers(Option<(Option<Seq<char>>, Option<Seq<char>>)>),
    Page(Seq<char>),
    Committed(bool),
}

/// The kind of an action: the action without what it carries.
pub ghost enum ActionKind {
    CheckExistence,
    Probe,
    Fetch,
    Commit,
    Finish(StateEvents),
    Fail(PipelineError),
}

impl View for PipelineEvent {
    type V = EventView;

    open spec fn view(&self) -> EventView {
        match self {
            PipelineEvent::Existence(answer) => EventView::Existence(*answer),
            PipelineEvent::Headers(None) => EventView::Headers(None),
            PipelineEvent::Headers(Some(headers)) => EventView::Headers(
                Some((option_view(headers.content_type), option_view(headers.content_length))),
            ),
            PipelineEvent::Page(body) => EventView::Page(body@),
            PipelineEvent::Committed(ok) => EventView::Committed(*ok),
        }
    }
}

impl PipelineAction {
    /// The kind of the action.
    pub open spec fn kind(&self) -> ActionKind {
        match self {
            PipelineAction::CheckExistence => ActionKind::CheckExistence,
            PipelineAction::Probe => ActionKind::Probe,
            PipelineAction::Fetch => ActionKind::Fetch,
            PipelineAction::Commit(_, _) => ActionKind::Commit,
            PipelineAction::Finish(outcome) => ActionKind::Finish(*outcome),
            PipelineAction::Fail(error) => ActionKind::Fail(*error),
        }
    }
}

/// Whether an action reaches the network.
pub open spec fn reaches_network(kind: ActionKind) -> bool {
    kind == ActionKind::Probe || kind == ActionKind::Fetch
}

/// The stage and the kind of action that follow an event. A page that
/// arrives while the body is being fetched leads to the commit where the
/// rewriter reads it and the counts of its words fit; where the rewriter
/// fails on it, or the counts do not fit, the indexing breaks off.
pub open spec fn decided(url: Seq<char>, stage: Stage, event: EventView) -> (Stage, ActionKind) {
    match (stage, event) {
        (Stage::CheckingExistence, EventView::Existence(None)) => ended(StateEvents::UrlError),
        (Stage::CheckingExistence, EventView::Existence(Some(true))) => ended(
            StateEvents::UrlExists,
        ),
        (Stage::CheckingExistence, EventView::Existence(Some(false))) => if names_binary(url) {
            ended(StateEvents::InvalidExtension)
        } else {
            (Stage::Probing, ActionKind::Probe)
        },
        (Stage::Probing, EventView::Headers(None)) => ended(StateEvents::InvalidExtension),
        (Stage::Probing, EventView::Headers(Some(headers))) => if probe_allows(
            headers.0,
            headers.1,
        ) {
            (Stage::Fetching, ActionKind::Fetch)
        } else {
            ended(StateEvents::InvalidExtension)
        },
        (Stage::Fetching, EventView::Page(body)) => match page_text(body) {
            Some(text) => if text_fits(text) {
                (Stage::Committing, ActionKind::Commit)
            } else {
                (Stage::Failed, ActionKind::Fail(PipelineError::TooLong))
            },
            None => (Stage::Failed, ActionKind::Fail(PipelineError::Markup)),
        },
        (Stage::Committing, EventView::Committed(ok)) => if ok {
            ended(StateEvents::TransactionSuccess)
        } else {
            ended(StateEvents::TransactionError)
        },
        (Stage::Finished(outcome), _) => ended(outcome),
        (Stage::Failed, _) => (Stage::Failed, ActionKind::Fail(PipelineError::Unexpected)),
        _ => (Stage::Failed, ActionKind::Fail(PipelineError::Unexpected)),
    }
}

/// The end of an indexing with `outcome`.
pub open spec fn ended(outcome: StateEvents) -> (Stage, ActionKind) {
    (Stage::Finished(outcome), ActionKind::Finish(outcome))
}

/// Whether the counts of a page's words fit: the number of its tokens, with
/// the boosts for every token of its title and of its description, stays
/// within an `i32`.
pub open spec fn text_fits(text: PageText) -> bool {
    counts_fit(
        text.full_text,
        normalized(text.title, stop_set(english())),
        normalized(text.description, stop_set(english())),
    )
}

/// What the page `body` holds for the extractor once its scripts, styles and
/// vector graphics are removed; `None` where the rewriter fails on the page.
pub open spec fn page_text(body: Seq<char>) -> Option<PageText> {
    match without_elements(body, "script, svg, style"@) {
        Some(markup) => page_text_of(markup),
        None => None,
    }
}

/// Whether `document` and `words` are what the page `body` found at `url`
/// gives: the document of the page without its scripts, styles and vector
/// graphics, and the word records of that document.
pub open spec fn indexed(url: Seq<char>, body: Seq<char>, document: Document, words: Seq<Words>) -> bool {
    &&& document.url@ == url
    &&& page_text(body) == Some(document_text(document))
    &&& records_of(document, words)
}

/// The indexing of one address.
#[derive(Debug)]
pub struct Pipeline {
    pub url: String,
    pub stage: Stage,
}

/// The address that `url`, as read from a list, stands for: its
/// percent-decoded form, or `None` where that is no text.
pub fn decode_url(url: &str) -> (decoded: Option<String>)
    ensures
        option_view(decoded) == percent_decoded(url@),
{
    percent_decode(url)
}

impl Pipeline {
    /// Starts the indexing of the address `url`, already decoded. The first
    /// thing to do is to ask the store whether it holds the address.
    pub fn start(url: String) -> (start: (Pipeline, PipelineAction))
        ensures
            start.0.url == url,
            start.0.stage == Stage::CheckingExistence,
            start.1.kind() == ActionKind::CheckExistence,
    {
        (Pipeline { url, stage: Stage::CheckingExistence }, PipelineAction::CheckExistence)
    }

    /// Takes what came of the last action and names the next.
    pub fn advance(&mut self, event: PipelineEvent) -> (action: PipelineAction)
        ensures
            final(self).url == old(self).url,
            (final(self).stage, action.kind()) == decided(old(self).url@, old(self).stage, event@),
            action matches PipelineAction::Commit(document, words) ==> event matches PipelineEvent::Page(
                body,
            ) && indexed(old(self).url@, body@, document, words@),
    {
        let (next, action) = match (self.stage, event) {
            (Stage::CheckingExistence, PipelineEvent::Existence(None)) => finish(
                StateEvents::UrlError,
            ),
            (Stage::CheckingExistence, PipelineEvent::Existence(Some(true))) => finish(
                StateEvents::UrlExists,
            ),
            (Stage::CheckingExistence, PipelineEvent::Existence(Some(false))) => {
                if is_binary_extension(&self.url) {
                    finish(StateEvents::InvalidExtension)
                } else {
                    (Stage::Probing, PipelineAction::Probe)
                }
            },
            (Stage::Probing, PipelineEvent::Headers(None)) => finish(StateEvents::InvalidExtension),
            (Stage::Probing, PipelineEvent::Headers(Some(headers))) => {
                if should_fetch_after_probe(
                    headers.content_type.as_ref(),
                    headers.content_length.as_ref(),
                ) {
                    (Stage::Fetching, PipelineAction::Fetch)
                } else {
                    finish(StateEvents::InvalidExtension)
                }
            },
            (Stage::Fetching, PipelineEvent::Page(body)) => index_page(&self.url, body),
            (Stage::Committing, PipelineEvent::Committed(ok)) => {
                if ok {
                    finish(StateEvents::TransactionSuccess)
                } else {
                    finish(StateEvents::TransactionError)
                }
            },
            (Stage::Finished(outcome), _) => finish(outcome),
            _ => (Stage::Failed, PipelineAction::Fail(PipelineError::Unexpected)),
        };
        self.stage = next;
        action
    }
}

/// The end of an indexing with `outcome`.
fn finish(outcome: StateEvents) -> (end: (Stage, PipelineAction))
    ensures
        (end.0, end.1.kind()) == ended(outcome),
{
    (Stage::Finished(outcome), PipelineAction::Finish(outcome))
}

/// The step that a fetched page leads to: the commit of its document and
/// words, or the end where the page cannot be indexed.
fn index_page(url: &String, body: String) -> (step: (Stage, PipelineAction))
    ensures
        (step.0, step.1.kind()) == decided(url@, Stage::Fetching, EventView::Page(body@)),
        step.1 matches PipelineAction::Commit(document, words) ==> indexed(
            url@,
            body@,
            document,
            words@,
        ),
{
    let markup = match clean_html(body) {
        Ok(markup) => markup,
        Err(_) => {
            return (Stage::Failed, PipelineAction::Fail(PipelineError::Markup));
        },
    };
    let document = match extract_structured_data(markup, url.clone()) {
        Ok(document) => document,
        Err(_) => {
            return (Stage::Failed, PipelineAction::Fail(PipelineError::Markup));
        },
    };
    match try_create_frequency(&document) {
        Some(words) => (Stage::Committing, PipelineAction::Commit(document, words)),
        None => (Stage::Failed, PipelineAction::Fail(PipelineError::TooLong)),
    }
}

/// What to tell of an outcome.
pub fn outcome_message(outcome: StateEvents) -> (message: &'static str)
    ensures
        message@ == match outcome {
            StateEvents::TransactionSuccess => "Transaction successful"@,
            StateEvents::InvalidExtension => "Invalid extension or content type, skipping URL"@,
            StateEvents::TransactionError => "Transaction failed"@,
            StateEvents::UrlExists => "URL already exists"@,
            StateEvents::UrlError => "Error checking URL"@,
        },
{
    match outcome {
        StateEvents::TransactionSuccess => "Transaction successful",
        StateEvents::InvalidExtension => "Invalid extension or content type, skipping URL",
        StateEvents::TransactionError => "Transaction failed",
        StateEvents::UrlExists => "URL already exists",
        StateEvents::UrlError => "Error checking URL",
    }
}

/// A run of the pipeline on `url`: the stages that it passes through, the
/// events that it is told of and the kinds of the actions that it names in
/// answer, one step after the other from the check of the store on.
pub open spec fn is_run(
    url: Seq<char>,
    stages: Seq<Stage>,
    events: Seq<EventView>,
    kinds: Seq<ActionKind>,
) -> bool {
    &&& stages.len() == events.len() + 1
    &&& kinds.len() == events.len()
    &&& stages[0] == Stage::CheckingExistence
    &&& forall|k: int|
        0 <= k < events.len() ==> (stages[k + 1], kinds[k]) == decided(url, #[trigger] stages[k], events[k])
}

proof fn lemma_ended_stays(
    url: Seq<char>,
    stages: Seq<Stage>,
    events: Seq<EventView>,
    kinds: Seq<ActionKind>,
    outcome: StateEvents,
    k: int,
)
    requires
        is_run(url, stages, events, kinds),
        events.len() >= 1,
        stages[1] == Stage::Finished(outcome),
        kinds[0] == ActionKind::Finish(outcome),
        0 <= k < events.len(),
    ensures
        stages[k + 1] == Stage::Finished(outcome),
        kinds[k] == ActionKind::Finish(outcome),
    decreases k,
{
    if k > 0 {
        lemma_ended_stays(url, stages, events, kinds, outcome, k - 1);
    }
}

/// An address that the store holds already is not fetched: whatever the
/// pipeline is told afterwards, it names no action but the end with
/// `UrlExists`.
pub proof fn law_known_address_is_not_fetched(
    url: Seq<char>,
    stages: Seq<Stage>,
    events: Seq<EventView>,
    kinds: Seq<ActionKind>,
    k: int,
)
    requires
        is_run(url, stages, events, kinds),
        0 <= k < events.len(),
        events[0] == EventView::Existence(Some(true)),
    ensures
        kinds[k] == ActionKind::Finish(StateEvents::UrlExists),
        !reaches_network(kinds[k]),
        kinds[k] != ActionKind::Commit,
{
    lemma_ended_stays(url, stages, events, kinds, StateEvents::UrlExists, k);
}

/// An address whose path ends in a binary ending, whatever query or fragment
/// stands behind the path, and that the store does not hold yet, ends with
/// `InvalidExtension` without a call to the network.
pub proof fn law_binary_address_is_not_fetched(
    url: Seq<char>,
    stages: Seq<Stage>,
    events: Seq<EventView>,
    kinds: Seq<ActionKind>,
    k: int,
)
    requires
        is_run(url, stages, events, kinds),
        0 <= k < events.len(),
        events[0] == EventView::Existence(Some(false)),
        names_binary(url),
    ensures
        kinds[k] == ActionKind::Finish(StateEvents::InvalidExtension),
        !reaches_network(kinds[k]),
        kinds[k] != ActionKind::Commit,
{
    lemma_ended_stays(url, stages, events, kinds, StateEvents::InvalidExtension, k);
}

/// How far an indexing has come.
pub open spec fn progress(stage: Stage) -> int {
    match stage {
        Stage::CheckingExistence => 0,
        Stage::Probing => 1,
        Stage::Fetching => 2,
        Stage::Committing => 3,
        Stage::Finished(_) => 4,
        Stage::Failed => 4,
    }
}

proof fn lemma_no_way_back(
    url: Seq<char>,
    stages: Seq<Stage>,
    events: Seq<EventView>,
    kinds: Seq<ActionKind>,
    j: int,
    k: int,
)
    requires
        is_run(url, stages, events, kinds),
        0 <= j <= k <= events.len(),
    ensures
        progress(stages[j]) <= progress(stages[k]),
    decreases k - j,
{
    if j < k {
        lemma_no_way_back(url, stages, events, kinds, j, k - 1);
        assert((stages[k], kinds[k - 1]) == decided(url, stages[k - 1], events[k - 1]));
    }
}

/// A fetched page is committed once: a commit is named only in answer to a
/// page that arrives while the body is being fetched, no run names two, and
/// what the store then says of the commit ends the run with
/// `TransactionSuccess` or `TransactionError`.
pub proof fn law_page_is_committed_once(
    url: Seq<char>,
    stages: Seq<Stage>,
    events: Seq<EventView>,
    kinds: Seq<ActionKind>,
    j: int,
    k: int,
)
    requires
        is_run(url, stages, events, kinds),
        0 <= j < k < events.len(),
        kinds[j] == ActionKind::Commit,
    ensures
        stages[j] == Stage::Fetching,
        events[j] is Page,
        kinds[k] != ActionKind::Commit,
        k == j + 1 ==> (events[k] matches EventView::Committed(ok) ==> kinds[k]
            == ActionKind::Finish(
            if ok {
                StateEvents::TransactionSuccess
            } else {
                StateEvents::TransactionError
            },
        )),
{
    assert((stages[j + 1], kinds[j]) == decided(url, stages[j], events[j]));
    assert((stages[k + 1], kinds[k]) == decided(url, stages[k], events[k]));
    lemma_no_way_back(url, stages, events, kinds, j + 1, k);
}

} // verus!
