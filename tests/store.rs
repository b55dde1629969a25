use fim::diff::get_diff;
use fim::store::{check_file, EventKind, StorePlan, StoredKind};

fn bytes(s: &str) -> Vec<u8> {
    s.as_bytes().to_vec()
}

fn apply(base: &[u8], diff: &[u8]) -> Vec<u8> {
    let patch = diffy::Patch::from_bytes(diff).unwrap();
    diffy::apply_bytes(base, &patch).unwrap()
}

fn event_of(plan: &StorePlan) -> Option<(StoredKind, Vec<u8>)> {
    plan.event.as_ref().map(|e| (e.kind, e.diff.clone()))
}

#[test]
fn create_on_new_path_records_baseline() {
    let plan = check_file(EventKind::Create, &None, &bytes("hello"));
    assert_eq!(plan.new_record, Some(bytes("hello")));
    let (kind, diff) = event_of(&plan).unwrap();
    assert_eq!(kind, StoredKind::Create);
    assert!(diff.is_empty());
    assert_eq!(plan.new_baseline, Some(bytes("hello")));
}

#[test]
fn create_after_empty_baseline_has_diff() {
    let plan = check_file(EventKind::Create, &Some(Vec::new()), &bytes("hello"));
    assert_eq!(plan.new_record, None);
    let (kind, diff) = event_of(&plan).unwrap();
    assert_eq!(kind, StoredKind::Create);
    assert!(!diff.is_empty());
    assert_eq!(apply(b"", &diff), bytes("hello"));
    assert_eq!(plan.new_baseline, Some(bytes("hello")));
}

#[test]
fn modify_stores_diff_and_advances_baseline() {
    let plan = check_file(EventKind::Modify, &Some(bytes("hello")), &bytes("hello world"));
    assert_eq!(plan.new_record, None);
    let (kind, diff) = event_of(&plan).unwrap();
    assert_eq!(kind, StoredKind::Modify);
    assert_eq!(diff, get_diff(&bytes("hello"), &bytes("hello world")));
    assert_eq!(apply(b"hello", &diff), bytes("hello world"));
    assert_eq!(plan.new_baseline, Some(bytes("hello world")));
}

#[test]
fn delete_stores_empty_diff_and_keeps_baseline() {
    let plan = check_file(EventKind::Delete, &Some(bytes("hello world")), &Vec::new());
    assert_eq!(plan.new_record, None);
    assert_eq!(event_of(&plan), Some((StoredKind::Delete, Vec::new())));
    assert_eq!(plan.new_baseline, None);
}

#[test]
fn moved_from_stores_empty_diff() {
    let plan = check_file(EventKind::MovedFrom, &Some(bytes("x")), &Vec::new());
    assert_eq!(event_of(&plan), Some((StoredKind::MovedFrom, Vec::new())));
    assert_eq!(plan.new_baseline, None);
}

#[test]
fn moved_to_stores_diff() {
    let plan = check_file(EventKind::MovedTo, &Some(bytes("a\n")), &bytes("b\n"));
    let (kind, diff) = event_of(&plan).unwrap();
    assert_eq!(kind, StoredKind::MovedTo);
    assert_eq!(apply(b"a\n", &diff), bytes("b\n"));
    assert_eq!(plan.new_baseline, Some(bytes("b\n")));
}

#[test]
fn delete_of_unknown_path_creates_empty_record() {
    let plan = check_file(EventKind::Delete, &None, &Vec::new());
    assert_eq!(plan.new_record, Some(Vec::new()));
    assert_eq!(event_of(&plan), Some((StoredKind::Delete, Vec::new())));
}

#[test]
fn reconcile_unchanged_writes_nothing() {
    let plan = check_file(EventKind::Reconcile, &Some(bytes("same")), &bytes("same"));
    assert_eq!(plan.new_record, None);
    assert!(plan.event.is_none());
    assert_eq!(plan.new_baseline, None);
}

#[test]
fn reconcile_new_path_gets_baseline_only() {
    let plan = check_file(EventKind::Reconcile, &None, &bytes("data"));
    assert_eq!(plan.new_record, Some(bytes("data")));
    assert!(plan.event.is_none());
    assert_eq!(plan.new_baseline, None);
}

#[test]
fn reconcile_drift_is_recorded_as_modify() {
    let plan = check_file(EventKind::Reconcile, &Some(bytes("old\n")), &bytes("new\n"));
    let (kind, diff) = event_of(&plan).unwrap();
    assert_eq!(kind, StoredKind::Modify);
    assert_eq!(apply(b"old\n", &diff), bytes("new\n"));
    assert_eq!(plan.new_baseline, Some(bytes("new\n")));
}

#[test]
fn reconcile_twice_yields_no_second_event() {
    let first = check_file(EventKind::Reconcile, &Some(bytes("v1\n")), &bytes("v2\n"));
    assert!(first.event.is_some());
    let baseline = first.new_baseline.clone();
    let second = check_file(EventKind::Reconcile, &baseline, &bytes("v2\n"));
    assert!(second.event.is_none());
    assert_eq!(second.new_baseline, None);
}

#[test]
fn diff_of_identical_is_empty() {
    assert!(get_diff(&bytes("abc"), &bytes("abc")).is_empty());
    assert!(get_diff(&Vec::new(), &Vec::new()).is_empty());
}

#[test]
fn diff_round_trip() {
    let cases: Vec<(&str, &str)> = vec![
        ("", "x"),
        ("hello", "hello world"),
        ("a\nb\nc\n", "a\nB\nc\nd\n"),
        ("line\n", ""),
    ];
    for (a, b) in cases {
        let d = get_diff(&bytes(a), &bytes(b));
        assert!(!d.is_empty());
        assert_ne!(d, bytes(a));
        assert!(d.starts_with(b"--- original"));
        assert_eq!(apply(a.as_bytes(), &d), bytes(b));
    }
}

#[test]
fn stored_labels() {
    assert_eq!(StoredKind::Create.label(), "CREATE");
    assert_eq!(StoredKind::Delete.label(), "DELETE");
    assert_eq!(StoredKind::Modify.label(), "MODIFY");
    assert_eq!(StoredKind::MovedFrom.label(), "MOVED_FROM");
    assert_eq!(StoredKind::MovedTo.label(), "MOVED_TO");
}
