use savewatch::diff::ChangeKind;
use savewatch::doc::{Json, Number};
use savewatch::watch::{changes_between, Observation, Step, WatchState};

#[test]
fn first_check_decodes() {
    let mut s = WatchState::new();
    assert_eq!(s.check(Observation::Modified(5)), Step::Decode);
}

#[test]
fn unchanged_time_twice_is_idle() {
    let mut s = WatchState::new();
    assert_eq!(s.check(Observation::Modified(5)), Step::Decode);
    assert_eq!(s.persisted(5, false), None);
    let before = s;
    assert_eq!(s.check(Observation::Modified(5)), Step::Idle);
    assert_eq!(s.check(Observation::Modified(5)), Step::Idle);
    assert_eq!(s, before);
    assert_eq!(s.check(Observation::Modified(6)), Step::Decode);
}

#[test]
fn missing_file_resets_time_only() {
    let mut s = WatchState::new();
    s.check(Observation::Modified(5));
    assert_eq!(s.persisted(5, true), Some(1));
    assert_eq!(s.check(Observation::Absent), Step::Missing);
    assert_eq!(s.last_modified, None);
    assert_eq!(s.change_counter, 1);
    assert_eq!(s.check(Observation::Modified(5)), Step::Decode);
    s.persisted(5, false);
    s.vanished();
    assert_eq!(s.last_modified, None);
    assert_eq!(s.change_counter, 1);
}

#[test]
fn counter_counts_batches() {
    let mut s = WatchState::new();
    assert_eq!(s.persisted(1, true), Some(1));
    assert_eq!(s.persisted(2, false), None);
    assert_eq!(s.persisted(3, true), Some(2));
    assert_eq!(s.change_counter, 2);
    assert_eq!(s.last_modified, Some(3));
}

#[test]
fn unparsed_baseline_skips_comparison() {
    let doc = Json::Object(vec![("a".to_string(), Json::Number(Number::PosInt(1)))]);
    assert!(changes_between(None, Some(&doc)).is_empty());
    assert!(changes_between(Some(&doc), None).is_empty());
    let other = Json::Object(vec![("a".to_string(), Json::Number(Number::PosInt(2)))]);
    let c = changes_between(Some(&doc), Some(&other));
    assert_eq!(c.len(), 1);
    assert_eq!(c[0].kind, ChangeKind::Modified);
    assert_eq!(c[0].path, ".a");
}
