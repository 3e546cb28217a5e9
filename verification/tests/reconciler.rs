use imessage_undeleter::logfmt::{format_log_record, permanent_path, tmp_path};
use imessage_undeleter::message::{BubbleComponent, Message};
use imessage_undeleter::reconcile::{
    find_min_attachment_number, tick, Observation, ReconcilerState,
};

fn message(rowid: i32, guid: &str, text: Option<&str>, components: Vec<BubbleComponent>, num_attachments: i32) -> Message {
    Message {
        rowid,
        guid: guid.to_string(),
        text: text.map(|t| t.to_string()),
        service: Some("iMessage".to_string()),
        handle_id: Some(0),
        destination_caller_id: None,
        subject: None,
        date: 0,
        date_read: 0,
        date_delivered: 0,
        is_from_me: false,
        is_read: false,
        item_type: 0,
        other_handle: None,
        share_status: false,
        share_direction: None,
        group_title: None,
        group_action_type: 0,
        associated_message_guid: None,
        associated_message_type: Some(0),
        balloon_bundle_id: None,
        expressive_send_style_id: None,
        thread_originator_guid: None,
        thread_originator_part: None,
        date_edited: 0,
        associated_message_emoji: None,
        chat_id: Some(10),
        num_attachments,
        deleted_from: None,
        num_replies: 0,
        components: Some(components),
        edited_parts: None,
    }
}

fn visible(rowid: i32, guid: &str, text: &str) -> Message {
    message(rowid, guid, Some(text), vec![BubbleComponent::Text(vec![])], 0)
}

fn retracted(rowid: i32, guid: &str) -> Message {
    message(rowid, guid, None, vec![BubbleComponent::Retracted], 0)
}

fn observe(m: Message) -> Observation {
    Observation { message: m, attachment_sources: vec![] }
}

#[test]
fn simple_retraction_writes_one_record() {
    // Tick 1: the message is visible and becomes tracked.
    let state = ReconcilerState::new(vec![]);
    let (state, outcome) = tick(state, vec![observe(visible(1, "g1", "hello"))]);
    assert!(outcome.retractions.is_empty());
    assert!(outcome.staged.is_empty());
    assert!(outcome.discarded.is_empty());

    // Tick 2: every part is retracted.
    let (state, outcome) = tick(state, vec![observe(retracted(1, "g1"))]);
    assert_eq!(outcome.retractions.len(), 1);
    let retraction = &outcome.retractions[0];
    assert_eq!(retraction.rowid, 1);
    // The record carries the last known text, from before the retraction.
    assert_eq!(retraction.entry.message.text.as_deref(), Some("hello"));
    assert!(retraction.entry.staged_attachments.is_empty());
    assert!(outcome.staged.is_empty());
    assert!(state.prev.is_empty());

    let record = format_log_record(
        "Me",
        "Jan 01, 2024 12:00:00 AM",
        &retraction.entry.message.text,
        &vec![],
    );
    assert_eq!(record, "===Me:Jan 01, 2024 12:00:00 AM\nText: hello\nAttachments:\n");

    // Ticks 3 and 4: the retracted row lingers in the database unchanged;
    // it is remembered and yields no further record.
    let (state, outcome) = tick(state, vec![observe(retracted(1, "g1"))]);
    assert!(outcome.retractions.is_empty());
    let (_, outcome) = tick(state, vec![observe(retracted(1, "g1"))]);
    assert!(outcome.retractions.is_empty());
}

#[test]
fn retraction_with_attachment_promotes_it() {
    let state = ReconcilerState::new(vec![]);
    let mut first = visible(1, "g1", "photo");
    first.num_attachments = 1;
    let obs = Observation {
        message: first,
        attachment_sources: vec![Some("source/a.heic".to_string())],
    };
    let (state, outcome) = tick(state, vec![obs]);
    assert_eq!(outcome.staged, vec![(0, "source/a.heic".to_string())]);
    assert_eq!(tmp_path("root", 0), "root/tmp/0");

    let mut second = retracted(1, "g1");
    second.num_attachments = 1;
    let obs = Observation { message: second, attachment_sources: vec![] };
    let (state, outcome) = tick(state, vec![obs]);
    assert_eq!(outcome.retractions.len(), 1);
    assert_eq!(
        outcome.retractions[0].entry.staged_attachments,
        vec![(0, "source/a.heic".to_string())]
    );
    assert_eq!(permanent_path("root", 0), "root/permanent/0");
    let record = format_log_record(
        "Me",
        "Jan 01, 2024 12:00:00 AM",
        &None,
        &vec![permanent_path("root", 0)],
    );
    assert_eq!(
        record,
        "===Me:Jan 01, 2024 12:00:00 AM\nAttachments:\nroot/permanent/0\n"
    );

    // The lingering retracted row is not promoted a second time.
    let mut third = retracted(1, "g1");
    third.num_attachments = 1;
    let obs = Observation { message: third, attachment_sources: vec![] };
    let (_, outcome) = tick(state, vec![obs]);
    assert!(outcome.retractions.is_empty());
    assert!(outcome.staged.is_empty());
}

#[test]
fn vanished_message_discards_staged_files() {
    let state = ReconcilerState::new(vec![]);
    let mut first = visible(1, "g1", "gone soon");
    first.num_attachments = 1;
    let obs = Observation {
        message: first,
        attachment_sources: vec![Some("source/b.mov".to_string())],
    };
    let (state, outcome) = tick(state, vec![obs]);
    assert_eq!(outcome.staged.len(), 1);

    // The row disappears from the query result entirely.
    let (state, outcome) = tick(state, vec![]);
    assert!(outcome.retractions.is_empty());
    assert!(outcome.staged.is_empty());
    assert_eq!(outcome.discarded, vec![0]);
    assert!(state.prev.is_empty());
}

#[test]
fn restart_numbering_skips_existing_files() {
    // permanent/ already holds 0, 1, 2 and 4.
    assert_eq!(find_min_attachment_number(0, &vec![0, 1, 2, 4]), 3);
    assert_eq!(find_min_attachment_number(4, &vec![0, 1, 2, 4]), 5);

    let state = ReconcilerState::new(vec![0, 1, 2, 4]);
    assert_eq!(state.cursor, 3);
    let mut first = visible(1, "g1", "two files");
    first.num_attachments = 2;
    let obs = Observation {
        message: first,
        attachment_sources: vec![Some("s/a".to_string()), Some("s/b".to_string())],
    };
    let (state, outcome) = tick(state, vec![obs]);
    // The first allocation takes 3; the next free number after it is 5.
    assert_eq!(outcome.staged, vec![(3, "s/a".to_string()), (5, "s/b".to_string())]);
    assert_eq!(state.cursor, 6);
}

#[test]
fn no_attachments_never_allocates() {
    let state = ReconcilerState::new(vec![]);
    // Even with resolved sources on offer, a message advertising zero
    // attachments takes no number.
    let obs = Observation {
        message: visible(1, "g1", "plain"),
        attachment_sources: vec![Some("s/x".to_string())],
    };
    let (state, outcome) = tick(state, vec![obs]);
    assert!(outcome.staged.is_empty());
    assert_eq!(state.cursor, 0);
}

#[test]
fn first_observation_fully_unsent_promotes_immediately() {
    let state = ReconcilerState::new(vec![]);
    let (state, outcome) = tick(state, vec![observe(retracted(7, "g7"))]);
    assert_eq!(outcome.retractions.len(), 1);
    assert_eq!(outcome.retractions[0].rowid, 7);
    assert!(outcome.retractions[0].entry.staged_attachments.is_empty());
    assert!(state.prev.is_empty());
    assert_eq!(state.logged, vec![7]);

    // The same pre-retracted row on every later tick: remembered, skipped,
    // never logged twice.
    let (state, outcome) = tick(state, vec![observe(retracted(7, "g7"))]);
    assert!(outcome.retractions.is_empty());
    let (_, outcome) = tick(state, vec![observe(retracted(7, "g7"))]);
    assert!(outcome.retractions.is_empty());
}

#[test]
fn static_database_produces_no_actions() {
    let state = ReconcilerState::new(vec![]);
    let snapshot = || vec![observe(visible(1, "g1", "a")), observe(visible(2, "g2", "b"))];
    let (state, _) = tick(state, snapshot());
    let (state, outcome) = tick(state, snapshot());
    assert!(outcome.retractions.is_empty());
    assert!(outcome.staged.is_empty());
    assert!(outcome.discarded.is_empty());
    assert_eq!(state.prev.len(), 2);
    let (_, outcome) = tick(state, snapshot());
    assert!(outcome.retractions.is_empty());
    assert!(outcome.staged.is_empty());
    assert!(outcome.discarded.is_empty());
}

#[test]
fn duplicate_rows_are_observed_once() {
    let state = ReconcilerState::new(vec![]);
    let obs = vec![observe(visible(1, "g1", "a")), observe(visible(1, "g1", "a"))];
    let (state, _) = tick(state, obs);
    assert_eq!(state.prev.len(), 1);
}
