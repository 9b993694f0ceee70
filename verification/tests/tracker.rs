use ethera::ethera::canonical_tracker::{InstanceIdSet, XtCanonicalTracker};
use ethera::primitives::B256;

#[test]
fn xt_canonical_tracker_returns_cumulative_ids_for_committed_block() {
    let mut tracker = XtCanonicalTracker::default();
    let first_hash = B256::new([0x11; 32]);
    let second_hash = B256::new([0x22; 32]);

    let mut cumulative = InstanceIdSet::default();
    cumulative.insert("xt-1".to_string());
    tracker.record_candidate(first_hash, &cumulative);

    cumulative.insert("xt-2".to_string());
    tracker.record_candidate(second_hash, &cumulative);

    assert_eq!(
        tracker.take_confirmed(second_hash),
        vec!["xt-1".to_string(), "xt-2".to_string()]
    );
    assert!(tracker.take_confirmed(second_hash).is_empty());
    assert_eq!(tracker.take_confirmed(first_hash), vec!["xt-1".to_string()]);
}

#[test]
fn ids_come_out_in_text_order_without_duplicates() {
    let mut tracker = XtCanonicalTracker::default();
    let hash = B256::new([1; 32]);
    let mut set = InstanceIdSet::default();
    assert!(set.is_empty());
    for id in ["b", "a10", "a9", "b", "Z", "\u{e9}", ""] {
        set.insert(id.to_string());
    }
    assert!(!set.is_empty());
    assert!(!set.insert("b".to_string()));
    tracker.record_candidate(hash, &set);
    assert_eq!(tracker.take_confirmed(hash), vec!["", "Z", "a10", "a9", "b", "\u{e9}"]);
}

#[test]
fn empty_candidate_is_not_recorded() {
    let mut tracker = XtCanonicalTracker::default();
    let hash = B256::new([1; 32]);
    let mut set = InstanceIdSet::default();
    set.insert("a".to_string());
    tracker.record_candidate(hash, &set);
    tracker.record_candidate(hash, &InstanceIdSet::default());
    assert_eq!(tracker.take_confirmed(hash), vec!["a"]);
}

#[test]
fn later_candidate_replaces_earlier_one() {
    let mut tracker = XtCanonicalTracker::default();
    let hash = B256::new([1; 32]);
    let mut first = InstanceIdSet::default();
    first.insert("a".to_string());
    let mut second = InstanceIdSet::default();
    second.insert("b".to_string());
    tracker.record_candidate(hash, &first);
    tracker.record_candidate(hash, &second);
    assert_eq!(tracker.take_confirmed(hash), vec!["b"]);
    assert!(tracker.take_confirmed(B256::new([2; 32])).is_empty());
}
