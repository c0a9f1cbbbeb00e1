use std::collections::HashMap;

use stable_matching::deferred_acceptance::{stable_matching, stable_matching_recomputed, MatchingError};
use stable_matching::input::{random_input, MatchingInput, ProposerInput, ResponderInput};
use stable_matching::stability::{find_blocking_pairs, validate_matching};

fn proposers_of(lists: &[Vec<u32>]) -> Vec<ProposerInput> {
    lists
        .iter()
        .enumerate()
        .map(|(i, l)| ProposerInput::new(i as u32, l.clone()))
        .collect()
}

fn responders_of(lists: &[Vec<u32>]) -> Vec<ResponderInput> {
    lists
        .iter()
        .enumerate()
        .map(|(i, l)| ResponderInput::new(i as u32, l.clone()))
        .collect()
}

fn example() -> (Vec<ProposerInput>, Vec<ResponderInput>) {
    (
        proposers_of(&[vec![0, 1, 2], vec![1, 0, 2], vec![0, 1, 2]]),
        responders_of(&[vec![1, 0, 2], vec![0, 1, 2], vec![0, 1, 2]]),
    )
}

fn rank(list: &[u32], x: u32) -> usize {
    list.iter().position(|y| *y == x).expect("ranked")
}

fn permutations(n: u32) -> Vec<Vec<u32>> {
    if n == 0 {
        return vec![vec![]];
    }
    let mut out = Vec::new();
    for p in permutations(n - 1) {
        for pos in 0..=p.len() {
            let mut q = p.clone();
            q.insert(pos, n - 1);
            out.push(q);
        }
    }
    out
}

fn basic_test(
    f: fn(&[ProposerInput], &[ResponderInput]) -> Result<HashMap<u32, u32>, MatchingError>,
) {
    let mut rng = rand::thread_rng();
    for n in 1..100 {
        let (proposers, responders) = random_input(n, &mut rng);

        let matching = f(&proposers, &responders).unwrap();

        assert_eq!(validate_matching(&proposers, &responders, &matching), true);
    }
}

#[test]
fn basic_v2_test() {
    basic_test(stable_matching_recomputed);
}

#[test]
fn basic_v0_test() {
    let mut rng = rand::thread_rng();
    for n in 1..100 {
        let (proposers, responders) = random_input(n, &mut rng);

        let matching = stable_matching(&proposers, &responders).unwrap();

        assert_eq!(validate_matching(&proposers, &responders, &matching), true);
    }
}

#[test]
fn example_gives_proposer_optimal_matching() {
    let (proposers, responders) = example();
    let matching = stable_matching(&proposers, &responders).unwrap();
    let expected: HashMap<u32, u32> = [(0, 0), (1, 1), (2, 2)].into_iter().collect();
    assert_eq!(matching, expected);
    assert!(validate_matching(&proposers, &responders, &matching));
    assert!(find_blocking_pairs(&proposers, &responders, &matching).is_empty());
}

#[test]
fn example_responder_optimal_alternative_is_stable() {
    let (proposers, responders) = example();
    let other: HashMap<u32, u32> = [(0, 1), (1, 0), (2, 2)].into_iter().collect();
    assert!(validate_matching(&proposers, &responders, &other));
    assert!(find_blocking_pairs(&proposers, &responders, &other).is_empty());
}

#[test]
fn reversed_example_gives_responder_optimal_matching() {
    let (proposers, responders) = example();
    let reversed_p: Vec<ProposerInput> = proposers
        .iter()
        .map(|p| ProposerInput::new(p.id, p.preferences.iter().rev().copied().collect()))
        .collect();
    let reversed_r: Vec<ResponderInput> = responders
        .iter()
        .map(|r| ResponderInput::new(r.id, r.preferences.iter().rev().copied().collect()))
        .collect();
    let matching = stable_matching(&reversed_p, &reversed_r).unwrap();
    let expected: HashMap<u32, u32> = [(0, 1), (1, 0), (2, 2)].into_iter().collect();
    assert_eq!(matching, expected);
    assert!(validate_matching(&proposers, &responders, &matching));
}

#[test]
fn empty_list_fails_with_that_proposer() {
    let proposers = proposers_of(&[vec![0, 1], vec![]]);
    let responders = responders_of(&[vec![0, 1], vec![1, 0]]);
    assert_eq!(
        stable_matching(&proposers, &responders),
        Err(MatchingError::NoStableMatching(1))
    );
}

#[test]
fn first_empty_list_is_reported() {
    let proposers = vec![
        ProposerInput::new(7, vec![]),
        ProposerInput::new(3, vec![]),
    ];
    let responders = responders_of(&[vec![7, 3], vec![3, 7]]);
    assert_eq!(
        stable_matching(&proposers, &responders),
        Err(MatchingError::NoStableMatching(7))
    );
}

#[test]
fn more_proposers_than_responders_fails() {
    let proposers = proposers_of(&[vec![0], vec![0]]);
    let responders = responders_of(&[vec![0, 1]]);
    assert_eq!(
        stable_matching(&proposers, &responders),
        Err(MatchingError::NoStableMatching(1))
    );
}

#[test]
fn duplicate_entry_is_invalid() {
    let proposers = proposers_of(&[vec![0, 0], vec![1, 0]]);
    let responders = responders_of(&[vec![0, 1], vec![1, 0]]);
    assert_eq!(
        stable_matching(&proposers, &responders),
        Err(MatchingError::InvalidPreferenceList)
    );
}

#[test]
fn unknown_agent_is_invalid() {
    let proposers = proposers_of(&[vec![0, 1], vec![1, 0]]);
    let responders = responders_of(&[vec![0, 5], vec![1, 0]]);
    assert_eq!(
        stable_matching(&proposers, &responders),
        Err(MatchingError::InvalidPreferenceList)
    );
}

#[test]
fn sparse_ids_are_matched() {
    let proposers = vec![
        ProposerInput::new(10, vec![200, 100]),
        ProposerInput::new(20, vec![200, 100]),
    ];
    let responders = vec![
        ResponderInput::new(100, vec![10, 20]),
        ResponderInput::new(200, vec![20, 10]),
    ];
    let matching = stable_matching(&proposers, &responders).unwrap();
    let expected: HashMap<u32, u32> = [(10, 100), (20, 200)].into_iter().collect();
    assert_eq!(matching, expected);
}

#[test]
fn empty_market_gives_empty_matching() {
    let matching = stable_matching(&[], &[]).unwrap();
    assert!(matching.is_empty());
}

#[test]
fn blocking_pairs_of_unstable_matching() {
    let (proposers, responders) = example();
    let bad: HashMap<u32, u32> = [(0, 2), (1, 1), (2, 0)].into_iter().collect();
    assert_eq!(
        find_blocking_pairs(&proposers, &responders, &bad),
        vec![(0, 0), (0, 1)]
    );
    assert!(!validate_matching(&proposers, &responders, &bad));
}

#[test]
fn blocking_pairs_of_missing_matching() {
    let (proposers, responders) = example();
    let empty: HashMap<u32, u32> = HashMap::new();
    assert_eq!(find_blocking_pairs(&proposers, &responders, &empty).len(), 9);
    assert!(!validate_matching(&proposers, &responders, &empty));
}

#[test]
fn incomplete_matching_is_not_valid() {
    let (proposers, responders) = example();
    let partial: HashMap<u32, u32> = [(0, 0), (1, 1)].into_iter().collect();
    assert!(!validate_matching(&proposers, &responders, &partial));
}

#[test]
fn non_injective_matching_is_not_valid() {
    let (proposers, responders) = example();
    let shared: HashMap<u32, u32> = [(0, 0), (1, 0), (2, 2)].into_iter().collect();
    assert!(!validate_matching(&proposers, &responders, &shared));
}

#[test]
fn checking_twice_gives_the_same_answer() {
    let (proposers, responders) = example();
    let bad: HashMap<u32, u32> = [(0, 2), (1, 1), (2, 0)].into_iter().collect();
    assert_eq!(
        find_blocking_pairs(&proposers, &responders, &bad),
        find_blocking_pairs(&proposers, &responders, &bad)
    );
    assert_eq!(
        validate_matching(&proposers, &responders, &bad),
        validate_matching(&proposers, &responders, &bad)
    );
}

#[test]
fn prefers_more_follows_the_list() {
    let p = ProposerInput::new(0, vec![3, 1, 2]);
    assert!(p.prefers_more(2, 1));
    assert!(!p.prefers_more(1, 2));
    assert!(!p.prefers_more(1, 1));
    assert!(p.prefers_more(9, 2));
    assert!(!p.prefers_more(2, 9));
    assert!(!p.prefers_more(8, 9));
    let r = ResponderInput::new(4, vec![0, 5]);
    assert!(r.prefers_more(5, 0));
    assert_eq!(r.id(), 4);
    assert_eq!(r.preferences(), &vec![0, 5]);
}

#[test]
fn random_input_ranks_everyone() {
    let mut rng = rand::thread_rng();
    let (proposers, responders) = random_input(6, &mut rng);
    assert_eq!(proposers.len(), 6);
    assert_eq!(responders.len(), 6);
    for (i, p) in proposers.iter().enumerate() {
        assert_eq!(p.id, i as u32);
        let mut sorted = p.preferences.clone();
        sorted.sort();
        assert_eq!(sorted, vec![0, 1, 2, 3, 4, 5]);
    }
    for (j, r) in responders.iter().enumerate() {
        assert_eq!(r.id, j as u32);
        let mut sorted = r.preferences.clone();
        sorted.sort();
        assert_eq!(sorted, vec![0, 1, 2, 3, 4, 5]);
    }
}

#[test]
fn result_is_best_for_every_proposer() {
    let mut rng = rand::thread_rng();
    for n in 1..=5u32 {
        for _ in 0..20 {
            let (proposers, responders) = random_input(n, &mut rng);
            let matching = stable_matching(&proposers, &responders).unwrap();
            for perm in permutations(n) {
                let other: HashMap<u32, u32> =
                    perm.iter().enumerate().map(|(p, r)| (p as u32, *r)).collect();
                if !validate_matching(&proposers, &responders, &other) {
                    continue;
                }
                for p in &proposers {
                    assert!(
                        rank(&p.preferences, matching[&p.id]) <= rank(&p.preferences, other[&p.id])
                    );
                }
            }
        }
    }
}

fn swapped(
    proposers: &[ProposerInput],
    responders: &[ResponderInput],
) -> (Vec<ProposerInput>, Vec<ResponderInput>) {
    (
        responders
            .iter()
            .map(|r| ProposerInput::new(r.id, r.preferences.clone()))
            .collect(),
        proposers
            .iter()
            .map(|p| ResponderInput::new(p.id, p.preferences.clone()))
            .collect(),
    )
}

fn flip(matching: &HashMap<u32, u32>) -> HashMap<u32, u32> {
    matching.iter().map(|(a, b)| (*b, *a)).collect()
}

#[test]
fn swapped_roles_give_the_expected_example_matching() {
    let (proposers, responders) = example();
    let (sp, sr) = swapped(&proposers, &responders);
    let matching = flip(&stable_matching(&sp, &sr).unwrap());
    let expected: HashMap<u32, u32> = [(0, 1), (1, 0), (2, 2)].into_iter().collect();
    assert_eq!(matching, expected);
    assert!(validate_matching(&proposers, &responders, &matching));
}

#[test]
fn swapped_roles_are_best_for_every_responder() {
    let mut rng = rand::thread_rng();
    for n in 1..=5u32 {
        for _ in 0..20 {
            let (proposers, responders) = random_input(n, &mut rng);
            let (sp, sr) = swapped(&proposers, &responders);
            let matching = flip(&stable_matching(&sp, &sr).unwrap());
            assert!(validate_matching(&proposers, &responders, &matching));
            let mine = flip(&matching);
            for perm in permutations(n) {
                let other: HashMap<u32, u32> =
                    perm.iter().enumerate().map(|(p, r)| (p as u32, *r)).collect();
                if !validate_matching(&proposers, &responders, &other) {
                    continue;
                }
                let theirs = flip(&other);
                for r in &responders {
                    assert!(rank(&r.preferences, mine[&r.id]) <= rank(&r.preferences, theirs[&r.id]));
                }
            }
        }
    }
}

#[test]
fn reversing_every_list_can_break_stability() {
    let proposers = proposers_of(&[vec![1, 0], vec![1, 0]]);
    let responders = responders_of(&[vec![0, 1], vec![1, 0]]);
    let reversed_p: Vec<ProposerInput> = proposers
        .iter()
        .map(|p| ProposerInput::new(p.id, p.preferences.iter().rev().copied().collect()))
        .collect();
    let reversed_r: Vec<ResponderInput> = responders
        .iter()
        .map(|r| ResponderInput::new(r.id, r.preferences.iter().rev().copied().collect()))
        .collect();
    let matching = stable_matching(&reversed_p, &reversed_r).unwrap();
    assert!(validate_matching(&reversed_p, &reversed_r, &matching));
    assert!(!validate_matching(&proposers, &responders, &matching));
    assert_eq!(find_blocking_pairs(&proposers, &responders, &matching), vec![(1, 1)]);
}

#[test]
fn random_input_is_shuffled() {
    let mut rng = rand::thread_rng();
    let (proposers, responders) = random_input(8, &mut rng);
    let ordered: Vec<u32> = (0..8).collect();
    let shuffled = proposers
        .iter()
        .map(|p| &p.preferences)
        .chain(responders.iter().map(|r| &r.preferences))
        .any(|l| *l != ordered);
    assert!(shuffled);
}

#[test]
fn both_round_strategies_agree() {
    let mut rng = rand::thread_rng();
    for n in 1..40 {
        let (proposers, responders) = random_input(n, &mut rng);
        assert_eq!(
            stable_matching(&proposers, &responders),
            stable_matching_recomputed(&proposers, &responders)
        );
    }
}

#[test]
fn recomputed_rounds_report_the_same_errors() {
    let (proposers, responders) = example();
    let expected: HashMap<u32, u32> = [(0, 0), (1, 1), (2, 2)].into_iter().collect();
    assert_eq!(stable_matching_recomputed(&proposers, &responders), Ok(expected));
    let proposers = proposers_of(&[vec![0, 1], vec![]]);
    let responders = responders_of(&[vec![0, 1], vec![1, 0]]);
    assert_eq!(
        stable_matching_recomputed(&proposers, &responders),
        Err(MatchingError::NoStableMatching(1))
    );
    let proposers = proposers_of(&[vec![0], vec![0]]);
    let responders = responders_of(&[vec![0, 1]]);
    assert_eq!(
        stable_matching_recomputed(&proposers, &responders),
        Err(MatchingError::NoStableMatching(1))
    );
    let proposers = proposers_of(&[vec![0, 0], vec![1, 0]]);
    let responders = responders_of(&[vec![0, 1], vec![1, 0]]);
    assert_eq!(
        stable_matching_recomputed(&proposers, &responders),
        Err(MatchingError::InvalidPreferenceList)
    );
}
