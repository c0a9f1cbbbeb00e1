//! The agents handed to the matching engine: an id and a preference list each.

use vstd::prelude::*;
use rand::rngs::ThreadRng;
use rand::seq::SliceRandom;
use crate::preference::{
    is_first_at, is_valid_list, lemma_rank_of_absent, lemma_rank_of_first, prefers_more_spec, ranks_all,
};
use crate::stability::{is_complete_market, proposer_ids, responder_ids};

verus! {

pub type ProposerId = u32;

pub type ResponderId = u32;

/// A proposer and the responders it accepts, most preferred first.
#[derive(Debug)]
pub struct ProposerInput {
    pub id: ProposerId,
    pub preferences: Vec<ResponderId>,
}

/// A responder and the proposers it accepts, most preferred first.
#[derive(Debug)]
pub struct ResponderInput {
    pub id: ResponderId,
    pub preferences: Vec<ProposerId>,
}

impl ProposerInput {
    pub fn new(id: ProposerId, preferences: Vec<ResponderId>) -> (r: Self)
        ensures
            r.id == id,
            r.preferences@ == preferences@,
    {
        ProposerInput { id, preferences }
    }
}

impl ResponderInput {
    pub fn new(id: ResponderId, preferences: Vec<ProposerId>) -> (r: Self)
        ensures
            r.id == id,
            r.preferences@ == preferences@,
    {
        ResponderInput { id, preferences }
    }
}

/// An agent with an id and a ranked list of acceptable partners.
pub trait MatchingInput {
    spec fn agent_id(&self) -> u32;

    spec fn ranking(&self) -> Seq<u32>;

    fn id(&self) -> (r: u32)
        ensures
            r == self.agent_id(),
    ;

    fn preferences(&self) -> (r: &Vec<u32>)
        ensures
            r@ == self.ranking(),
    ;

    /// Whether this agent would rather have `alternative` than `assigned`.
    fn prefers_more(&self, assigned: u32, alternative: u32) -> (r: bool)
        ensures
            r == prefers_more_spec(self.ranking(), assigned, alternative),
    {
        let prefs = self.preferences();
        let mut assigned_pref: Option<usize> = None;
        let mut alternative_pref: Option<usize> = None;
        let mut i: usize = 0;
        while i < prefs.len()
            invariant
                prefs@ == self.ranking(),
                i <= prefs.len(),
                match assigned_pref {
                    Some(k) => k < i && is_first_at(prefs@, assigned, k as int),
                    None => forall|l: int| 0 <= l < i ==> prefs@[l] != assigned,
                },
                alternative == assigned ==> alternative_pref is None,
                alternative != assigned ==> match alternative_pref {
                    Some(k) => k < i && is_first_at(prefs@, alternative, k as int),
                    None => forall|l: int| 0 <= l < i ==> prefs@[l] != alternative,
                },
            decreases prefs.len() - i,
        {
            let x = prefs[i];
            if x == assigned {
                if assigned_pref.is_none() {
                    assigned_pref = Some(i);
                }
            } else if x == alternative {
                if alternative_pref.is_none() {
                    alternative_pref = Some(i);
                }
            }
            i += 1;
        }
        proof {
            match assigned_pref {
                Some(k) => lemma_rank_of_first(prefs@, assigned, k as int),
                None => lemma_rank_of_absent(prefs@, assigned),
            }
            if alternative != assigned {
                match alternative_pref {
                    Some(k) => lemma_rank_of_first(prefs@, alternative, k as int),
                    None => lemma_rank_of_absent(prefs@, alternative),
                }
            }
        }
        match (assigned_pref, alternative_pref) {
            (None, None) => false,
            (None, Some(_)) => true,
            (Some(_), None) => false,
            (Some(a), Some(b)) => b < a,
        }
    }
}

impl MatchingInput for ProposerInput {
    open spec fn agent_id(&self) -> u32 {
        self.id
    }

    open spec fn ranking(&self) -> Seq<u32> {
        self.preferences@
    }

    fn id(&self) -> (r: u32) {
        self.id
    }

    fn preferences(&self) -> (r: &Vec<u32>) {
        &self.preferences
    }
}

impl MatchingInput for ResponderInput {
    open spec fn agent_id(&self) -> u32 {
        self.id
    }

    open spec fn ranking(&self) -> Seq<u32> {
        self.preferences@
    }

    fn id(&self) -> (r: u32) {
        self.id
    }

    fn preferences(&self) -> (r: &Vec<u32>) {
        &self.preferences
    }
}

#[verifier::external_type_specification]
#[verifier::external_body]
pub struct ExThreadRng(ThreadRng);

/// Relies on rand's `SliceRandom::shuffle`, which only swaps entries: the
/// result holds the same values, each as often as before.
#[verifier::external_body]
fn shuffle(values: &mut Vec<u32>, rng: &mut ThreadRng)
    ensures
        final(values)@.to_multiset() == old(values)@.to_multiset(),
        final(values)@.len() == old(values)@.len(),
{
    values.shuffle(rng);
}

/// The ids `0..n` in increasing order.
pub open spec fn id_range(n: nat) -> Seq<u32> {
    Seq::new(n, |i: int| i as u32)
}

/// A random ordering of the ids `0..n`.
fn random_permutation(n: u32, rng: &mut ThreadRng) -> (r: Vec<u32>)
    ensures
        r@.len() == n,
        r@.no_duplicates(),
        forall|x: u32| #[trigger] r@.contains(x) <==> x < n,
{
    let mut values: Vec<u32> = Vec::new();
    let mut i: u32 = 0;
    while i < n
        invariant
            i <= n,
            values@ == id_range(i as nat),
        decreases n - i,
    {
        values.push(i);
        i += 1;
        proof {
            assert(values@ =~= id_range(i as nat));
        }
    }
    let ghost ordered = values@;
    shuffle(&mut values, rng);
    proof {
        broadcast use vstd::seq_lib::group_to_multiset_ensures;

        assert(ordered.no_duplicates());
        ordered.lemma_multiset_has_no_duplicates();
        values@.lemma_multiset_has_no_duplicates_conv();
        assert forall|x: u32| #[trigger] values@.contains(x) <==> x < n by {
            assert(values@.contains(x) <==> values@.to_multiset().count(x) > 0);
            assert(ordered.contains(x) <==> ordered.to_multiset().count(x) > 0);
            if x < n {
                assert(ordered[x as int] == x);
            }
        }
    }
    values
}

/// A complete market of `n` proposers and `n` responders with ids `0..n`, each
/// ranking everyone on the other side in a random order.
pub fn random_input(n: u32, rng: &mut ThreadRng) -> (r: (Vec<ProposerInput>, Vec<ResponderInput>))
    ensures
        r.0@.len() == n,
        r.1@.len() == n,
        forall|i: int| 0 <= i < n ==> (#[trigger] r.0@[i]).id == i,
        forall|i: int| 0 <= i < n ==> (#[trigger] r.1@[i]).id == i,
        proposer_ids(r.0@).no_duplicates(),
        responder_ids(r.1@).no_duplicates(),
        is_complete_market(r.0@, r.1@),
{
    let mut proposers: Vec<ProposerInput> = Vec::new();
    let mut responders: Vec<ResponderInput> = Vec::new();
    let mut i: u32 = 0;
    while i < n
        invariant
            i <= n,
            proposers@.len() == i,
            responders@.len() == i,
            forall|k: int| 0 <= k < i ==> (#[trigger] proposers@[k]).id == k,
            forall|k: int| 0 <= k < i ==> (#[trigger] responders@[k]).id == k,
            forall|k: int| 0 <= k < i ==> (#[trigger] proposers@[k]).preferences@.len() == n
                && proposers@[k].preferences@.no_duplicates()
                && forall|x: u32| #[trigger] proposers@[k].preferences@.contains(x) <==> x < n,
            forall|k: int| 0 <= k < i ==> (#[trigger] responders@[k]).preferences@.len() == n
                && responders@[k].preferences@.no_duplicates()
                && forall|x: u32| #[trigger] responders@[k].preferences@.contains(x) <==> x < n,
        decreases n - i,
    {
        let proposer_pref = random_permutation(n, rng);
        proposers.push(ProposerInput::new(i, proposer_pref));
        let responder_pref = random_permutation(n, rng);
        responders.push(ResponderInput::new(i, responder_pref));
        i += 1;
    }
    proof {
        let ps = proposers@;
        let rs = responders@;
        assert forall|x: u32| #[trigger] proposer_ids(ps).contains(x) <==> x < n by {
            if x < n {
                assert(proposer_ids(ps)[x as int] == x);
            }
        }
        assert forall|x: u32| #[trigger] responder_ids(rs).contains(x) <==> x < n by {
            if x < n {
                assert(responder_ids(rs)[x as int] == x);
            }
        }
        assert forall|a: int, b: int| 0 <= a < n && 0 <= b < n && a != b implies proposer_ids(ps)[a] != proposer_ids(ps)[b] by {
            assert(ps[a].id == a && ps[b].id == b);
        }
        assert forall|a: int, b: int| 0 <= a < n && 0 <= b < n && a != b implies responder_ids(rs)[a] != responder_ids(rs)[b] by {
            assert(rs[a].id == a && rs[b].id == b);
        }
        assert forall|q: int| 0 <= q < n implies is_valid_list(#[trigger] ps[q].preferences@, responder_ids(rs))
            && ranks_all(ps[q].preferences@, responder_ids(rs)) by {
            assert forall|k: int| 0 <= k < ps[q].preferences@.len() implies #[trigger] responder_ids(rs).contains(ps[q].preferences@[k]) by {
                assert(ps[q].preferences@.contains(ps[q].preferences@[k]));
            }
        }
        assert forall|q: int| 0 <= q < n implies is_valid_list(#[trigger] rs[q].preferences@, proposer_ids(ps))
            && ranks_all(rs[q].preferences@, proposer_ids(ps)) by {
            assert forall|k: int| 0 <= k < rs[q].preferences@.len() implies #[trigger] proposer_ids(ps).contains(rs[q].preferences@[k]) by {
                assert(rs[q].preferences@.contains(rs[q].preferences@[k]));
            }
        }
    }
    (proposers, responders)
}

} // verus!
