use std::collections::BTreeSet;

use imessage_undeleter::query_context::QueryContext;

#[test]
fn can_create() {
    let context = QueryContext::default();
    assert!(context.limit.is_none());
    assert!(!context.has_filters());
}

#[test]
fn can_create_limit() {
    let mut context = QueryContext::default();
    context.set_limit(1);

    assert_eq!(context.limit, Some(1));
    assert!(context.limit.is_some());
    assert!(context.has_filters());
}

#[test]
fn test_can_set_selected_chat_ids() {
    let mut qc = QueryContext::default();
    qc.set_selected_chat_ids(BTreeSet::from([1, 2, 3]));

    assert_eq!(qc.selected_chat_ids, Some(BTreeSet::from([1, 2, 3])));
    assert!(qc.has_filters());
}

#[test]
fn test_can_set_selected_chat_ids_empty() {
    let mut qc = QueryContext::default();
    qc.set_selected_chat_ids(BTreeSet::new());

    assert_eq!(qc.selected_chat_ids, None);
    assert!(!qc.has_filters());
}

#[test]
fn test_can_overwrite_selected_chat_ids_empty() {
    let mut qc = QueryContext::default();
    qc.set_selected_chat_ids(BTreeSet::from([1, 2, 3]));
    qc.set_selected_chat_ids(BTreeSet::new());

    assert_eq!(qc.selected_chat_ids, None);
    assert!(!qc.has_filters());
}

#[test]
fn test_can_set_selected_handle_ids() {
    let mut qc = QueryContext::default();
    qc.set_selected_handle_ids(BTreeSet::from([1, 2, 3]));

    assert_eq!(qc.selected_handle_ids, Some(BTreeSet::from([1, 2, 3])));
    assert!(qc.has_filters());
}

#[test]
fn test_can_set_selected_handle_ids_empty() {
    let mut qc = QueryContext::default();
    qc.set_selected_handle_ids(BTreeSet::new());

    assert_eq!(qc.selected_handle_ids, None);
    assert!(!qc.has_filters());
}

#[test]
fn test_can_overwrite_selected_handle_ids_empty() {
    let mut qc = QueryContext::default();
    qc.set_selected_handle_ids(BTreeSet::from([1, 2, 3]));
    qc.set_selected_handle_ids(BTreeSet::new());

    assert_eq!(qc.selected_handle_ids, None);
    assert!(!qc.has_filters());
}

#[test]
fn can_sanitize_good() {
    let res = QueryContext::sanitize_date("2020-01-01");
    assert!(res.is_some());
}

#[test]
fn can_sanitize_short_day() {
    // The day field takes one digit or two.
    let res = QueryContext::sanitize_date("2020-01-1");
    assert!(res.is_some());
}

#[test]
fn can_reject_bad_short() {
    let res = QueryContext::sanitize_date("1-1-20");
    assert!(res.is_none());
}

#[test]
fn can_reject_bad_order() {
    let res = QueryContext::sanitize_date("01-01-2020");
    assert!(res.is_none());
}

#[test]
fn can_reject_bad_month() {
    let res = QueryContext::sanitize_date("2020-31-01");
    assert!(res.is_none());
}

#[test]
fn can_reject_bad_day() {
    let res = QueryContext::sanitize_date("2020-01-32");
    assert!(res.is_none());
}

#[test]
fn can_reject_bad_data() {
    let res = QueryContext::sanitize_date("2020-AB-CD");
    assert!(res.is_none());
}

#[test]
fn can_reject_wrong_hyphen() {
    let res = QueryContext::sanitize_date("2020–01–01");
    assert!(res.is_none());
}

#[test]
fn message_selected_applies_both_filters() {
    let mut qc = QueryContext::default();
    assert!(qc.message_selected(Some(10), Some(1)));
    assert!(qc.message_selected(None, None));

    qc.set_selected_chat_ids(BTreeSet::from([10]));
    assert!(qc.message_selected(Some(10), None));
    assert!(!qc.message_selected(Some(11), None));
    assert!(!qc.message_selected(None, None));

    qc.set_selected_handle_ids(BTreeSet::from([3]));
    assert!(qc.message_selected(Some(10), Some(3)));
    assert!(!qc.message_selected(Some(10), Some(4)));
    assert!(!qc.message_selected(Some(10), None));
}
