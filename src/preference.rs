//! Preference lists and the rank order they induce.
//!
//! A preference list names agents of the other population from most to least
//! preferred: the agent at index 0 is the most wanted one. Agents that do not
//! occur in the list are unacceptable.

use vstd::prelude::*;

verus! {

/// `k` is the first position at which `x` occurs in `list`.
pub open spec fn is_first_at(list: Seq<u32>, x: u32, k: int) -> bool {
    &&& 0 <= k < list.len()
    &&& list[k] == x
    &&& forall|l: int| 0 <= l < k ==> list[l] != x
}

/// The rank of `x` in `list` (its first position), or `None` when `x` is not
/// acceptable. A smaller rank means a stronger preference.
pub open spec fn rank_of(list: Seq<u32>, x: u32) -> Option<int> {
    if exists|k: int| is_first_at(list, x, k) {
        Some(choose|k: int| is_first_at(list, x, k))
    } else {
        None
    }
}

/// The owner of `list` would rather have `alternative` than `assigned`: an
/// acceptable agent beats an unacceptable one, and two acceptable agents are
/// compared by rank.
pub open spec fn prefers_more_spec(list: Seq<u32>, assigned: u32, alternative: u32) -> bool {
    match (rank_of(list, assigned), rank_of(list, alternative)) {
        (None, None) => false,
        (None, Some(_)) => true,
        (Some(_), None) => false,
        (Some(a), Some(b)) => b < a,
    }
}

/// The owner of `list` would rather have `alternative` than its current partner;
/// with no partner at all, any acceptable agent is better.
pub open spec fn prefers_over(list: Seq<u32>, current: Option<u32>, alternative: u32) -> bool {
    match current {
        Some(c) => prefers_more_spec(list, c, alternative),
        None => rank_of(list, alternative) is Some,
    }
}

/// Every entry of `list` is one of `ids`, and no entry is repeated.
pub open spec fn is_valid_list(list: Seq<u32>, ids: Seq<u32>) -> bool {
    &&& list.no_duplicates()
    &&& forall|k: int| 0 <= k < list.len() ==> #[trigger] ids.contains(list[k])
}

/// `list` ranks every one of `ids`.
pub open spec fn ranks_all(list: Seq<u32>, ids: Seq<u32>) -> bool {
    forall|j: int| 0 <= j < ids.len() ==> #[trigger] list.contains(ids[j])
}

pub proof fn lemma_rank_of_first(list: Seq<u32>, x: u32, k: int)
    requires
        is_first_at(list, x, k),
    ensures
        rank_of(list, x) == Some(k),
{
    let c = choose|c: int| is_first_at(list, x, c);
    assert(is_first_at(list, x, c));
    if c < k {
        assert(list[c] != x);
    } else if c > k {
        assert(list[k] != x);
    }
}

pub proof fn lemma_rank_of_absent(list: Seq<u32>, x: u32)
    requires
        forall|l: int| 0 <= l < list.len() ==> list[l] != x,
    ensures
        rank_of(list, x) is None,
{
}

/// In a list without repeats, each entry's rank is its position.
pub proof fn lemma_rank_of_entry(list: Seq<u32>, k: int)
    requires
        list.no_duplicates(),
        0 <= k < list.len(),
    ensures
        rank_of(list, list[k]) == Some(k),
{
    lemma_rank_of_first(list, list[k], k);
}

/// A rank names a position that holds the ranked agent.
pub proof fn lemma_rank_of_some(list: Seq<u32>, x: u32)
    requires
        rank_of(list, x) is Some,
    ensures
        is_first_at(list, x, rank_of(list, x)->0),
{
}

/// An agent that occurs in the list has a rank.
pub proof fn lemma_rank_of_contains(list: Seq<u32>, x: u32)
    requires
        list.contains(x),
    ensures
        rank_of(list, x) is Some,
    decreases list.len(),
{
    let k = choose|k: int| 0 <= k < list.len() && list[k] == x;
    if exists|l: int| 0 <= l < k && list[l] == x {
        let l = choose|l: int| 0 <= l < k && list[l] == x;
        let sub = list.subrange(0, k);
        assert(sub[l] == x);
        lemma_rank_of_contains(sub, x);
        let r = rank_of(sub, x)->0;
        assert(is_first_at(sub, x, r));
        assert forall|m: int| 0 <= m < r implies list[m] != x by {
            assert(sub[m] == list[m]);
        }
        assert(is_first_at(list, x, r));
    } else {
        assert(is_first_at(list, x, k));
    }
}

} // verus!
