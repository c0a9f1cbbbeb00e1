//! Suitors and suiteds: agents whose preferences are kept as a map from the
//! other side's ids to ranks, with rank 0 the most preferred.

use vstd::prelude::*;
use std::collections::{BTreeMap, BTreeSet};
use vstd::std_specs::btree::spec_btree_map_iter;
use vstd::std_specs::iter::IteratorSpec;

verus! {

broadcast use {vstd::std_specs::btree::group_btree_axioms, vstd::laws_cmp::group_laws_cmp};

pub type SuitedId = u32;

pub type SuitorId = u32;

/// The ranks of `list`: each listed id maps to the position where it last
/// occurs.
pub open spec fn rank_map(list: Seq<u32>) -> Map<u32, usize>
    decreases list.len(),
{
    if list.len() == 0 {
        Map::empty()
    } else {
        rank_map(list.drop_last()).insert(list.last(), (list.len() - 1) as usize)
    }
}

/// The owner of `ranks` would rather have `proposed` than `assigned`: a ranked
/// id beats an unranked one, and two ranked ids are compared by rank.
pub open spec fn map_prefers(ranks: Map<u32, usize>, assigned: u32, proposed: u32) -> bool {
    match (ranks.contains_key(assigned), ranks.contains_key(proposed)) {
        (false, false) => false,
        (false, true) => true,
        (true, false) => false,
        (true, true) => ranks[proposed] < ranks[assigned],
    }
}

/// `best` is a ranked id in `eligible` whose rank is the smallest among them;
/// with no eligible ranked id there is none.
pub open spec fn best_ranked(ranks: Map<u32, usize>, eligible: Set<u32>, best: Option<u32>) -> bool {
    match best {
        Some(s) => {
            &&& ranks.contains_key(s)
            &&& eligible.contains(s)
            &&& forall|t: u32| ranks.contains_key(t) && eligible.contains(t) ==> ranks[s] <= #[trigger] ranks[t]
        },
        None => forall|t: u32| #[trigger] ranks.contains_key(t) ==> !eligible.contains(t),
    }
}

/// Builds the rank map of a preference list.
fn ranks_of(preference_list: &Vec<u32>) -> (r: BTreeMap<u32, usize>)
    ensures
        r@ == rank_map(preference_list@),
{
    let mut ranks: BTreeMap<u32, usize> = BTreeMap::new();
    let mut i: usize = 0;
    while i < preference_list.len()
        invariant
            i <= preference_list@.len(),
            ranks@ == rank_map(preference_list@.subrange(0, i as int)),
        decreases preference_list@.len() - i,
    {
        let ghost before = preference_list@.subrange(0, i as int);
        ranks.insert(preference_list[i], i);
        i += 1;
        proof {
            let now = preference_list@.subrange(0, i as int);
            assert(now.drop_last() =~= before);
        }
    }
    proof {
        assert(preference_list@.subrange(0, preference_list@.len() as int) =~= preference_list@);
    }
    ranks
}

/// The best ranked id among the keys of `ranks` that `eligible` accepts.
fn best_of(ranks: &BTreeMap<u32, usize>, eligible: &BTreeSet<u32>, wanted: bool) -> (r: Option<u32>)
    ensures
        best_ranked(ranks@, Set::new(|t: u32| eligible@.contains(t) == wanted), r),
{
    let ghost chosen = Set::new(|t: u32| eligible@.contains(t) == wanted);
    let ghost v = spec_btree_map_iter(ranks).remaining();
    let ghost mut done: int = 0;
    let mut best: Option<(u32, usize)> = None;
    for entry in it: ranks.iter()
        invariant
            chosen == Set::new(|t: u32| eligible@.contains(t) == wanted),
            it.seq() == v,
            done == it.index(),
            match best {
                Some((s, p)) => {
                    &&& ranks@.contains_key(s)
                    &&& ranks@[s] == p
                    &&& chosen.contains(s)
                    &&& forall|i: int|
                        0 <= i < it.index() && chosen.contains(*it.seq()[i].0) ==> p <= *(#[trigger] it.seq()[i]).1
                },
                None => forall|i: int| 0 <= i < it.index() ==> !chosen.contains(*(#[trigger] it.seq()[i]).0),
            },
    {
        let (s, p) = entry;
        if eligible.contains(s) == wanted {
            match best {
                None => {
                    best = Some((*s, *p));
                },
                Some((_, bp)) => {
                    if *p < bp {
                        best = Some((*s, *p));
                    }
                },
            }
        }
        proof {
            done = done + 1;
        }
    }
    proof {
        assert(done == v.len());
        match best {
            Some((s, p)) => {
                assert forall|t: u32| ranks@.contains_key(t) && chosen.contains(t) implies p <= #[trigger] ranks@[t] by {
                    assert(v.contains((&t, &ranks@[t])));
                    let i = choose|i: int| 0 <= i < v.len() && v[i] == (&t, &ranks@[t]);
                }
            },
            None => {
                assert forall|t: u32| #[trigger] ranks@.contains_key(t) implies !chosen.contains(t) by {
                    assert(v.contains((&t, &ranks@[t])));
                    let i = choose|i: int| 0 <= i < v.len() && v[i] == (&t, &ranks@[t]);
                }
            },
        }
    }
    match best {
        Some((s, _)) => Some(s),
        None => None,
    }
}

/// Whether the owner of `ranks` would rather have `proposed` than `assigned`.
fn ranks_prefer(ranks: &BTreeMap<u32, usize>, assigned: u32, proposed: u32) -> (r: bool)
    ensures
        r == map_prefers(ranks@, assigned, proposed),
{
    match (ranks.get(&assigned), ranks.get(&proposed)) {
        (None, None) => false,
        (None, Some(_)) => true,
        (Some(_), None) => false,
        (Some(a), Some(p)) => *p < *a,
    }
}

/// A suitor and its ranking of the suiteds.
#[derive(Debug)]
pub struct Suitor {
    pub id: SuitorId,
    pub preference_set: BTreeMap<SuitedId, usize>,
}

impl Suitor {
    pub fn new(id: u32, preference_list: Vec<u32>) -> (r: Self)
        ensures
            r.id == id,
            r.preference_set@ == rank_map(preference_list@),
    {
        Suitor { id, preference_set: ranks_of(&preference_list) }
    }

    /// The most preferred suited that has not rejected this suitor.
    pub fn get_current_preference(&self, rejections: &BTreeSet<SuitedId>) -> (r: Option<SuitedId>)
        ensures
            best_ranked(self.preference_set@, Set::new(|t: u32| !rejections@.contains(t)), r),
    {
        let r = best_of(&self.preference_set, rejections, false);
        proof {
            assert(Set::new(|t: u32| rejections@.contains(t) == false) =~= Set::new(|t: u32| !rejections@.contains(t)));
        }
        r
    }

    /// Whether this suitor would rather have `proposed` than `assigned`.
    pub fn prefers_more(&self, assigned: u32, proposed: u32) -> (r: bool)
        ensures
            r == map_prefers(self.preference_set@, assigned, proposed),
    {
        ranks_prefer(&self.preference_set, assigned, proposed)
    }
}

/// A suited and its ranking of the suitors.
#[derive(Debug)]
pub struct Suited {
    pub id: u32,
    pub preference_set: BTreeMap<u32, usize>,
}

impl Suited {
    pub fn new(id: u32, preference_list: Vec<u32>) -> (r: Self)
        ensures
            r.id == id,
            r.preference_set@ == rank_map(preference_list@),
    {
        Suited { id, preference_set: ranks_of(&preference_list) }
    }

    /// The most preferred suitor among those that proposed.
    pub fn get_current_accept(&self, proposals: &BTreeSet<SuitorId>) -> (r: Option<u32>)
        ensures
            best_ranked(self.preference_set@, proposals@, r),
    {
        let r = best_of(&self.preference_set, proposals, true);
        proof {
            assert(Set::new(|t: u32| proposals@.contains(t) == true) =~= proposals@);
        }
        r
    }

    /// Whether this suited would rather have `proposed` than `assigned`.
    pub fn prefers_more(&self, assigned: u32, proposed: u32) -> (r: bool)
        ensures
            r == map_prefers(self.preference_set@, assigned, proposed),
    {
        ranks_prefer(&self.preference_set, assigned, proposed)
    }
}

} // verus!
