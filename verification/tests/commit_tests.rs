use indexer::commit::{advance, begin, CommitAction, CommitState};

fn run(outcomes: &[bool]) -> Vec<CommitAction> {
    let (mut state, first) = begin();
    let mut actions = vec![first];
    for ok in outcomes {
        let (next, action) = advance(state, *ok);
        state = next;
        actions.push(action);
    }
    actions
}

#[test]
fn a_commit_that_goes_well_commits_both_sessions() {
    assert_eq!(
        run(&[true, true, true, true, true]),
        vec![
            CommitAction::OpenSessions,
            CommitAction::InsertDocument,
            CommitAction::InsertWords,
            CommitAction::CommitDocument,
            CommitAction::CommitWords,
            CommitAction::Finish(true),
        ]
    );
}

#[test]
fn a_failed_insert_of_the_document_aborts_its_session() {
    let actions = run(&[true, false, true, true]);
    assert_eq!(
        actions,
        vec![
            CommitAction::OpenSessions,
            CommitAction::InsertDocument,
            CommitAction::AbortDocument,
            CommitAction::Finish(false),
            CommitAction::Finish(false),
        ]
    );
    assert!(!actions.contains(&CommitAction::InsertWords));
}

#[test]
fn a_failed_insert_of_the_words_commits_nothing() {
    let actions = run(&[true, true, false, true, true]);
    assert_eq!(
        actions,
        vec![
            CommitAction::OpenSessions,
            CommitAction::InsertDocument,
            CommitAction::InsertWords,
            CommitAction::AbortWords,
            CommitAction::Finish(false),
            CommitAction::Finish(false),
        ]
    );
    assert!(!actions.contains(&CommitAction::CommitDocument));
    assert!(!actions.contains(&CommitAction::CommitWords));
}

#[test]
fn both_commits_are_tried_and_both_must_land() {
    assert_eq!(run(&[true, true, true, false, true])[4..], [CommitAction::CommitWords, CommitAction::Finish(false)]);
    assert_eq!(run(&[true, true, true, true, false])[5], CommitAction::Finish(false));
    assert_eq!(run(&[true, true, true, false, false])[5], CommitAction::Finish(false));
}

#[test]
fn sessions_that_do_not_open_end_the_commit() {
    assert_eq!(run(&[false]), vec![CommitAction::OpenSessions, CommitAction::Finish(false)]);
}

#[test]
fn a_finished_commit_stays_finished() {
    assert_eq!(advance(CommitState::Done(true), false), (CommitState::Done(true), CommitAction::Finish(true)));
    assert_eq!(advance(CommitState::Done(false), true), (CommitState::Done(false), CommitAction::Finish(false)));
}
