use indexer::models::{DocumentMetadata, ObjectId, Words};
use indexer::rebuild::{Rebuild, RebuildAction, RebuildEvent, RebuildStage, BATCH_SIZE};

fn documents(count: u8) -> Vec<DocumentMetadata> {
    (0..count)
        .map(|n| DocumentMetadata::new(ObjectId::from_bytes([n; 12]), format!("u{n}"), String::new(), String::new()))
        .collect()
}

fn words(documents: u8, each: usize) -> Vec<Words> {
    let mut list = Vec::new();
    for n in 0..documents {
        for i in 0..each {
            list.push(Words::new(ObjectId::from_bytes([n; 12]), format!("w{i}"), 1));
        }
    }
    list
}

/// Runs a rebuilding against a score collection kept in memory and hands
/// back the number that it reports.
fn run(scores: &mut Vec<(String, String)>, docs: u8, each: usize) -> Option<usize> {
    let (mut rebuild, mut action) = Rebuild::start();
    loop {
        let event = match action {
            RebuildAction::ClearScores => {
                scores.clear();
                RebuildEvent::Cleared(true)
            }
            RebuildAction::LoadDocuments => RebuildEvent::Documents(Some(documents(docs))),
            RebuildAction::LoadWords => RebuildEvent::WordRecords(Some(words(docs, each))),
            RebuildAction::WriteBatch(from, to) => {
                assert!(to - from <= BATCH_SIZE);
                assert!(from < to);
                for term in &rebuild.terms[from..to] {
                    scores.push((term.url.clone(), term.word.clone()));
                }
                RebuildEvent::Written(true)
            }
            RebuildAction::Finish(count) => return count,
        };
        action = rebuild.advance(event);
    }
}

#[test]
fn a_rebuilding_starts_by_clearing() {
    let (rebuild, action) = Rebuild::start();
    assert_eq!(action, RebuildAction::ClearScores);
    assert_eq!(rebuild.stage, RebuildStage::Clearing);
}

#[test]
fn statistics_are_written_in_batches_of_a_thousand() {
    let (mut rebuild, _) = Rebuild::start();
    assert_eq!(rebuild.advance(RebuildEvent::Cleared(true)), RebuildAction::LoadDocuments);
    assert_eq!(rebuild.advance(RebuildEvent::Documents(Some(documents(5)))), RebuildAction::LoadWords);
    assert_eq!(
        rebuild.advance(RebuildEvent::WordRecords(Some(words(5, 500)))),
        RebuildAction::WriteBatch(0, 1000)
    );
    assert_eq!(rebuild.advance(RebuildEvent::Written(true)), RebuildAction::WriteBatch(1000, 2000));
    assert_eq!(rebuild.advance(RebuildEvent::Written(true)), RebuildAction::WriteBatch(2000, 2500));
    assert_eq!(rebuild.advance(RebuildEvent::Written(true)), RebuildAction::Finish(Some(2500)));
    assert_eq!(rebuild.advance(RebuildEvent::Written(true)), RebuildAction::Finish(Some(2500)));
    assert_eq!(rebuild.stage, RebuildStage::Done(true));
}

#[test]
fn a_full_last_batch_is_not_followed_by_an_empty_one() {
    let (mut rebuild, _) = Rebuild::start();
    rebuild.advance(RebuildEvent::Cleared(true));
    rebuild.advance(RebuildEvent::Documents(Some(documents(2))));
    assert_eq!(
        rebuild.advance(RebuildEvent::WordRecords(Some(words(2, 1000)))),
        RebuildAction::WriteBatch(0, 1000)
    );
    assert_eq!(rebuild.advance(RebuildEvent::Written(true)), RebuildAction::WriteBatch(1000, 2000));
    assert_eq!(rebuild.advance(RebuildEvent::Written(true)), RebuildAction::Finish(Some(2000)));
}

#[test]
fn rebuilding_twice_leaves_as_many_scores_as_once() {
    let mut scores = vec![("stale".to_string(), "score".to_string())];
    assert_eq!(run(&mut scores, 3, 400), Some(1200));
    assert_eq!(scores.len(), 1200);
    let first = scores.clone();
    assert_eq!(run(&mut scores, 3, 400), Some(1200));
    assert_eq!(scores.len(), 1200);
    assert_eq!(scores, first);
}

#[test]
fn an_empty_store_writes_nothing_and_is_no_failure() {
    let mut scores = vec![("stale".to_string(), "score".to_string())];
    assert_eq!(run(&mut scores, 0, 10), Some(0));
    assert_eq!(scores.len(), 0);
    assert_eq!(run(&mut scores, 3, 0), Some(0));
    assert_eq!(scores.len(), 0);
}

#[test]
fn a_failure_of_the_store_ends_the_rebuilding() {
    let (mut rebuild, _) = Rebuild::start();
    assert_eq!(rebuild.advance(RebuildEvent::Cleared(false)), RebuildAction::Finish(None));
    assert_eq!(rebuild.stage, RebuildStage::Done(false));
    assert_eq!(rebuild.advance(RebuildEvent::Cleared(true)), RebuildAction::Finish(None));

    let (mut rebuild, _) = Rebuild::start();
    rebuild.advance(RebuildEvent::Cleared(true));
    assert_eq!(rebuild.advance(RebuildEvent::Documents(None)), RebuildAction::Finish(None));

    let (mut rebuild, _) = Rebuild::start();
    rebuild.advance(RebuildEvent::Cleared(true));
    rebuild.advance(RebuildEvent::Documents(Some(documents(1))));
    assert_eq!(rebuild.advance(RebuildEvent::WordRecords(None)), RebuildAction::Finish(None));

    let (mut rebuild, _) = Rebuild::start();
    rebuild.advance(RebuildEvent::Cleared(true));
    rebuild.advance(RebuildEvent::Documents(Some(documents(1))));
    rebuild.advance(RebuildEvent::WordRecords(Some(words(1, 3))));
    assert_eq!(rebuild.advance(RebuildEvent::Written(false)), RebuildAction::Finish(None));
}

#[test]
fn an_event_out_of_turn_ends_the_rebuilding() {
    let (mut rebuild, _) = Rebuild::start();
    assert_eq!(rebuild.advance(RebuildEvent::Written(true)), RebuildAction::Finish(None));
    assert_eq!(rebuild.stage, RebuildStage::Done(false));
}
