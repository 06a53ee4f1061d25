use indexer::models::StateEvents;
use indexer::pipeline::{
    decode_url, outcome_message, Pipeline, PipelineAction, PipelineError, PipelineEvent,
    ProbeHeaders, Stage, MAX_IN_FLIGHT,
};

fn headers(content_type: Option<&str>, content_length: Option<&str>) -> PipelineEvent {
    PipelineEvent::Headers(Some(ProbeHeaders {
        content_type: content_type.map(|s| s.to_string()),
        content_length: content_length.map(|s| s.to_string()),
    }))
}

fn started(url: &str) -> Pipeline {
    let (pipeline, action) = Pipeline::start(url.to_string());
    assert!(matches!(action, PipelineAction::CheckExistence));
    assert_eq!(pipeline.stage, Stage::CheckingExistence);
    assert_eq!(pipeline.url, url);
    pipeline
}

#[test]
fn a_known_address_is_not_fetched() {
    let mut pipeline = started("https://example.com/");
    assert!(matches!(
        pipeline.advance(PipelineEvent::Existence(Some(true))),
        PipelineAction::Finish(StateEvents::UrlExists)
    ));
    assert_eq!(pipeline.stage, Stage::Finished(StateEvents::UrlExists));
    assert!(matches!(
        pipeline.advance(PipelineEvent::Page("<p>x</p>".to_string())),
        PipelineAction::Finish(StateEvents::UrlExists)
    ));
    assert!(matches!(
        pipeline.advance(headers(None, None)),
        PipelineAction::Finish(StateEvents::UrlExists)
    ));
}

#[test]
fn a_failing_store_ends_with_an_error() {
    let mut pipeline = started("https://example.com/");
    assert!(matches!(
        pipeline.advance(PipelineEvent::Existence(None)),
        PipelineAction::Finish(StateEvents::UrlError)
    ));
}

#[test]
fn a_binary_address_is_not_probed() {
    for url in ["https://example.com/a.zip", "https://example.com/A.PDF"] {
        let mut pipeline = started(url);
        assert!(matches!(
            pipeline.advance(PipelineEvent::Existence(Some(false))),
            PipelineAction::Finish(StateEvents::InvalidExtension)
        ));
        assert_eq!(pipeline.stage, Stage::Finished(StateEvents::InvalidExtension));
    }
}

#[test]
fn a_new_address_is_probed_then_fetched() {
    let mut pipeline = started("https://example.com/page");
    assert!(matches!(pipeline.advance(PipelineEvent::Existence(Some(false))), PipelineAction::Probe));
    assert_eq!(pipeline.stage, Stage::Probing);
    assert!(matches!(
        pipeline.advance(headers(Some("text/html; charset=utf-8"), Some("2048"))),
        PipelineAction::Fetch
    ));
    assert_eq!(pipeline.stage, Stage::Fetching);
}

#[test]
fn a_probe_that_fails_or_forbids_ends_the_indexing() {
    let mut pipeline = started("https://example.com/page");
    pipeline.advance(PipelineEvent::Existence(Some(false)));
    assert!(matches!(
        pipeline.advance(PipelineEvent::Headers(None)),
        PipelineAction::Finish(StateEvents::InvalidExtension)
    ));
    let mut pipeline = started("https://example.com/page");
    pipeline.advance(PipelineEvent::Existence(Some(false)));
    assert!(matches!(
        pipeline.advance(headers(Some("image/png"), None)),
        PipelineAction::Finish(StateEvents::InvalidExtension)
    ));
    let mut pipeline = started("https://example.com/page");
    pipeline.advance(PipelineEvent::Existence(Some(false)));
    assert!(matches!(
        pipeline.advance(headers(None, Some("10485761"))),
        PipelineAction::Finish(StateEvents::InvalidExtension)
    ));
}

#[test]
fn a_page_becomes_a_document_and_its_words() {
    let mut pipeline = started("https://example.com/guide");
    pipeline.advance(PipelineEvent::Existence(Some(false)));
    pipeline.advance(headers(None, None));
    let page = r#"<html><head><title>Rust Guide</title>
<meta name="description" content="Learn systems programming">
<style>p { margin: 0 }</style></head>
<body><script>document.write("<p>scripted</p>")</script><p>rust is great rust rocks</p></body></html>"#;
    let action = pipeline.advance(PipelineEvent::Page(page.to_string()));
    assert_eq!(pipeline.stage, Stage::Committing);
    let (document, words) = match action {
        PipelineAction::Commit(document, words) => (document, words),
        other => panic!("{other:?}"),
    };
    assert_eq!(document.url, "https://example.com/guide");
    assert_eq!(document.title, "Rust Guide");
    assert_eq!(document.description, "Learn systems programming");
    assert_eq!(document.summary_text, "rust is great rust rocks");
    assert_eq!(document.full_text, vec!["rust", "great", "rust", "rocks"]);
    let counts: Vec<(&str, i32)> = words.iter().map(|w| (w.word.as_str(), w.count)).collect();
    assert_eq!(counts, vec![("rust", 52), ("great", 1), ("rocks", 1)]);
    assert!(words.iter().all(|w| w.document.bytes == document.get_id().bytes));
    assert!(matches!(
        pipeline.advance(PipelineEvent::Committed(true)),
        PipelineAction::Finish(StateEvents::TransactionSuccess)
    ));
}

#[test]
fn a_failed_commit_is_an_outcome_of_its_own() {
    let mut pipeline = started("https://example.com/guide");
    pipeline.advance(PipelineEvent::Existence(Some(false)));
    pipeline.advance(headers(None, None));
    pipeline.advance(PipelineEvent::Page("<p>text</p>".to_string()));
    assert!(matches!(
        pipeline.advance(PipelineEvent::Committed(false)),
        PipelineAction::Finish(StateEvents::TransactionError)
    ));
    assert_eq!(pipeline.stage, Stage::Finished(StateEvents::TransactionError));
}

#[test]
fn an_event_out_of_turn_breaks_the_indexing_off() {
    let mut pipeline = started("https://example.com/");
    assert!(matches!(
        pipeline.advance(PipelineEvent::Committed(true)),
        PipelineAction::Fail(PipelineError::Unexpected)
    ));
    assert_eq!(pipeline.stage, Stage::Failed);
    assert!(matches!(
        pipeline.advance(PipelineEvent::Existence(Some(true))),
        PipelineAction::Fail(PipelineError::Unexpected)
    ));
}

#[test]
fn addresses_are_percent_decoded() {
    assert_eq!(
        decode_url("https%3A%2F%2Fexample.com%2Fa%20b"),
        Some("https://example.com/a b".to_string())
    );
    assert_eq!(decode_url("https://example.com/"), Some("https://example.com/".to_string()));
    assert_eq!(decode_url("caf%C3%A9"), Some("caf\u{e9}".to_string()));
    assert_eq!(decode_url("a+b"), Some("a+b".to_string()));
    assert_eq!(decode_url("100%"), Some("100%".to_string()));
    assert_eq!(decode_url("%zz"), Some("%zz".to_string()));
    assert_eq!(decode_url("%FF"), None);
}

#[test]
fn every_outcome_has_its_message() {
    assert_eq!(outcome_message(StateEvents::TransactionSuccess), "Transaction successful");
    assert_eq!(
        outcome_message(StateEvents::InvalidExtension),
        "Invalid extension or content type, skipping URL"
    );
    assert_eq!(outcome_message(StateEvents::TransactionError), "Transaction failed");
    assert_eq!(outcome_message(StateEvents::UrlExists), "URL already exists");
    assert_eq!(outcome_message(StateEvents::UrlError), "Error checking URL");
}

fn fetching(url: &str) -> Pipeline {
    let mut pipeline = started(url);
    pipeline.advance(PipelineEvent::Existence(Some(false)));
    pipeline.advance(headers(None, None));
    assert_eq!(pipeline.stage, Stage::Fetching);
    pipeline
}

#[test]
fn markup_that_cannot_be_read_breaks_the_indexing_off() {
    let mut pipeline = fetching("https://example.com/");
    let page = "<select><xmp><script>\"use strict\";</script></select>";
    assert!(matches!(
        pipeline.advance(PipelineEvent::Page(page.to_string())),
        PipelineAction::Fail(PipelineError::Markup)
    ));
    assert_eq!(pipeline.stage, Stage::Failed);
}



#[test]
fn ten_addresses_are_indexed_at_a_time() {
    assert_eq!(MAX_IN_FLIGHT, 10);
}

#[test]
fn a_binary_address_with_a_query_is_not_probed() {
    for url in ["https://example.com/a.zip?download=1", "https://example.com/setup.EXE#top"] {
        let mut pipeline = started(url);
        assert!(matches!(
            pipeline.advance(PipelineEvent::Existence(Some(false))),
            PipelineAction::Finish(StateEvents::InvalidExtension)
        ));
    }
}

#[test]
fn a_long_title_of_one_word_is_indexed() {
    let mut pipeline = fetching("https://example.com/");
    let mut page = String::from("<title>");
    page.push_str(&"t".repeat(3_000_000));
    page.push_str("</title><p>text</p>");
    match pipeline.advance(PipelineEvent::Page(page)) {
        PipelineAction::Commit(document, words) => {
            assert_eq!(document.title.len(), 3_000_000);
            assert_eq!(words.len(), 1);
            assert_eq!(words[0].count, 1);
        }
        _ => panic!("the page was not committed"),
    }
}
