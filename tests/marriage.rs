use std::collections::{BTreeMap, BTreeSet};

use stable_matching::stable_marriage::{Suited, Suitor};

#[test]
fn suitor_ranks_follow_the_list() {
    let suitor = Suitor::new(4, vec![3, 1, 2]);
    let expected: BTreeMap<u32, usize> = [(3, 0), (1, 1), (2, 2)].into_iter().collect();
    assert_eq!(suitor.id, 4);
    assert_eq!(suitor.preference_set, expected);
}

#[test]
fn repeated_entry_keeps_its_last_rank() {
    let suited = Suited::new(0, vec![1, 2, 1]);
    let expected: BTreeMap<u32, usize> = [(1, 2), (2, 1)].into_iter().collect();
    assert_eq!(suited.preference_set, expected);
}

#[test]
fn suitor_courts_best_remaining() {
    let suitor = Suitor::new(0, vec![3, 1, 2]);
    let none: BTreeSet<u32> = BTreeSet::new();
    assert_eq!(suitor.get_current_preference(&none), Some(3));
    let rejected: BTreeSet<u32> = [3].into_iter().collect();
    assert_eq!(suitor.get_current_preference(&rejected), Some(1));
    let all: BTreeSet<u32> = [1, 2, 3].into_iter().collect();
    assert_eq!(suitor.get_current_preference(&all), None);
}

#[test]
fn suited_accepts_best_proposal() {
    let suited = Suited::new(0, vec![3, 1, 2]);
    let proposals: BTreeSet<u32> = [2, 1, 7].into_iter().collect();
    assert_eq!(suited.get_current_accept(&proposals), Some(1));
    let unknown: BTreeSet<u32> = [7, 8].into_iter().collect();
    assert_eq!(suited.get_current_accept(&unknown), None);
    assert_eq!(suited.get_current_accept(&BTreeSet::new()), None);
}

#[test]
fn ranked_maps_compare_by_rank() {
    let suitor = Suitor::new(0, vec![3, 1, 2]);
    assert!(suitor.prefers_more(2, 1));
    assert!(!suitor.prefers_more(1, 2));
    assert!(suitor.prefers_more(9, 1));
    assert!(!suitor.prefers_more(1, 9));
    assert!(!suitor.prefers_more(8, 9));
    let suited = Suited::new(1, vec![0, 5]);
    assert!(suited.prefers_more(5, 0));
    assert!(!suited.prefers_more(0, 5));
}
