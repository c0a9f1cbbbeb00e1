//! The round-based deferred-acceptance engine, in two strategies that share
//! one contract.
//!
//! Agents live in two arenas indexed by their position in the input. A
//! proposer's state is the number of responders on its list that have
//! rejected it; it always courts the next one.
//!
//! - `stable_matching`: in each round every unassigned proposer proposes;
//!   every responder keeps the best acceptable proposal it holds, including
//!   the one it accepted before, and rejects the others. The run ends when a
//!   round rejects nobody.
//! - `stable_matching_recomputed`: responders keep nothing between rounds; in
//!   each round every proposer proposes again and every responder accepts
//!   the best acceptable proposal of that round. The run ends when every
//!   proposer is accepted.

use vstd::prelude::*;
use std::collections::HashMap;
use crate::input::{MatchingInput, ProposerId, ProposerInput, ResponderId, ResponderInput};
use crate::preference::{
    is_valid_list, lemma_rank_of_absent, lemma_rank_of_contains, lemma_rank_of_entry, lemma_rank_of_some,
    prefers_more_spec, rank_of,
};
use crate::stability::{
    has_no_blocking_pair, has_partner, is_blocking, is_complete_market, is_proposer_optimal, lemma_partner_is,
    is_stable_matching, lists_valid, matched_to, matches_every_proposer, matches_every_responder, partner_of,
    proposer_ids, responder_ids,
};
use vstd::set_lib::{lemma_int_range, lemma_len_subset, set_int_range};

verus! {

broadcast use vstd::seq_lib::lemma_seq_contains_after_push;

/// Why no matching was produced.
#[derive(Debug, Clone, Copy, PartialEq, Eq, Structural)]
pub enum MatchingError {
    /// The proposer with this id ran out of responders to propose to.
    NoStableMatching(ProposerId),
    /// A preference list names an unknown agent or names an agent twice.
    InvalidPreferenceList,
}

/// The rank of `x` in `list`, with unacceptable agents ranked at the list's length.
pub open spec fn rank_entry(list: Seq<u32>, x: u32) -> int {
    match rank_of(list, x) {
        Some(k) => k,
        None => list.len() as int,
    }
}

/// Maps each agent id to the agent's position.
fn index_by_id<A: MatchingInput>(agents: &[A]) -> (r: HashMap<u32, usize>)
    requires
        agents@.map_values(|a: A| a.agent_id()).no_duplicates(),
    ensures
        indexes(r@, agents@.map_values(|a: A| a.agent_id())),
{
    broadcast use vstd::std_specs::hash::group_hash_axioms;

    let ghost ids = agents@.map_values(|a: A| a.agent_id());
    let mut index: HashMap<u32, usize> = HashMap::new();
    let mut k: usize = 0;
    while k < agents.len()
        invariant
            k <= agents@.len(),
            ids == agents@.map_values(|a: A| a.agent_id()),
            ids.no_duplicates(),
            forall|l: int| 0 <= l < k ==> #[trigger] index@.contains_key(agents@[l].agent_id())
                && index@[agents@[l].agent_id()] == l,
            forall|x: u32| #[trigger] index@.contains_key(x) ==> exists|l: int| 0 <= l < k && agents@[l].agent_id() == x,
        decreases agents@.len() - k,
    {
        let id = agents[k].id();
        proof {
            assert forall|l: int| 0 <= l < k implies agents@[l].agent_id() != id by {
                assert(ids[l] == agents@[l].agent_id());
                assert(ids[k as int] == agents@[k as int].agent_id());
            }
        }
        index.insert(id, k);
        k += 1;
    }
    proof {
        assert forall|w: int| 0 <= w < ids.len() implies #[trigger] index@.contains_key(ids[w]) && index@[ids[w]] == w by {
            assert(ids[w] == agents@[w].agent_id());
        }
        assert forall|x: u32| #[trigger] index@.contains_key(x) implies ids.contains(x) by {
            let l = choose|l: int| 0 <= l < k && agents@[l].agent_id() == x;
            assert(ids[l] == x);
        }
    }
    index
}

/// Translates a list of agent ids into positions, or `None` when the list
/// names an unknown agent or names one twice.
fn translate(list: &Vec<u32>, index: &HashMap<u32, usize>, n: usize, ids: Ghost<Seq<u32>>) -> (r: Option<Vec<usize>>)
    requires
        ids@.len() == n,
        ids@.no_duplicates(),
        forall|k: int| 0 <= k < n ==> #[trigger] index@.contains_key(ids@[k]) && index@[ids@[k]] == k,
        forall|x: u32| #[trigger] index@.contains_key(x) ==> ids@.contains(x),
    ensures
        r is Some <==> is_valid_list(list@, ids@),
        r matches Some(v) ==> v@.len() == list@.len() && forall|k: int|
            0 <= k < v@.len() ==> (#[trigger] v@[k]) < n && ids@[v@[k] as int] == list@[k],
{
    broadcast use vstd::std_specs::hash::group_hash_axioms;

    let mut seen: Vec<bool> = vec![false; n];
    let mut out: Vec<usize> = Vec::new();
    let mut k: usize = 0;
    while k < list.len()
        invariant
            k <= list@.len(),
            seen@.len() == n,
            out@.len() == k,
            ids@.len() == n,
            ids@.no_duplicates(),
            forall|w: int| 0 <= w < n ==> #[trigger] index@.contains_key(ids@[w]) && index@[ids@[w]] == w,
            forall|x: u32| #[trigger] index@.contains_key(x) ==> ids@.contains(x),
            forall|l: int| 0 <= l < k ==> (#[trigger] out@[l]) < n && ids@[out@[l] as int] == list@[l],
            forall|p: int| 0 <= p < n ==> (#[trigger] seen@[p] <==> exists|l: int| 0 <= l < k && out@[l] == p),
            forall|a: int, b: int| 0 <= a < b < k ==> list@[a] != list@[b],
            forall|l: int| 0 <= l < k ==> #[trigger] ids@.contains(list@[l]),
        decreases list@.len() - k,
    {
        let x = list[k];
        match index.get(&x) {
            None => {
                proof {
                    if ids@.contains(x) {
                        let w = choose|w: int| 0 <= w < n && ids@[w] == x;
                        assert(index@.contains_key(ids@[w]));
                    }
                    assert(!ids@.contains(list@[k as int]));
                }
                return None;
            },
            Some(pos) => {
                let pos = *pos;
                proof {
                    let w = choose|w: int| 0 <= w < n && ids@[w] == x;
                    assert(index@[ids@[w]] == w);
                }
                if seen[pos] {
                    proof {
                        let l = choose|l: int| 0 <= l < k && out@[l] == pos;
                        assert(list@[l] == list@[k as int]);
                    }
                    return None;
                }
                proof {
                    assert forall|l: int| 0 <= l < k implies list@[l] != list@[k as int] by {
                        if list@[l] == list@[k as int] {
                            assert(ids@[out@[l] as int] == ids@[pos as int]);
                        }
                    }
                }
                let ghost seen0 = seen@;
                let ghost out0 = out@;
                seen.set(pos, true);
                out.push(pos);
                proof {
                    assert forall|p: int| 0 <= p < n implies (#[trigger] seen@[p] <==> exists|l: int| 0 <= l < k + 1 && out@[l] == p) by {
                        if p == pos {
                            assert(out@[k as int] == p);
                        } else {
                            if seen@[p] {
                                assert(seen0[p]);
                                let l = choose|l: int| 0 <= l < k && out0[l] == p;
                                assert(out@[l] == p);
                            }
                            if exists|l: int| 0 <= l < k + 1 && out@[l] == p {
                                let l = choose|l: int| 0 <= l < k + 1 && out@[l] == p;
                                assert(out0[l] == p);
                            }
                        }
                    }
                }
            },
        }
        k += 1;
    }
    Some(out)
}

/// A proposer's preference list, as responder positions, and how many of the
/// listed responders have rejected it so far. Rejections always come in list
/// order, so the next candidate is the first one not yet tried.
struct Proposer {
    id: ProposerId,
    preferences: Vec<usize>,
    next: usize,
}

impl Proposer {
    fn new(id: ProposerId, preferences: Vec<usize>) -> (r: Self)
        ensures
            r.id == id,
            r.preferences == preferences,
            r.next == 0,
    {
        Proposer { id, preferences, next: 0 }
    }

    /// The most preferred responder that has not rejected this proposer.
    fn get_preference(&self) -> (r: Result<usize, MatchingError>)
        ensures
            self.next < self.preferences@.len() ==> r == Ok::<usize, MatchingError>(
                self.preferences@[self.next as int],
            ),
            self.next >= self.preferences@.len() ==> r == Err::<usize, MatchingError>(
                MatchingError::NoStableMatching(self.id),
            ),
    {
        if self.next < self.preferences.len() {
            Ok(self.preferences[self.next])
        } else {
            Err(MatchingError::NoStableMatching(self.id))
        }
    }

    /// Records that the current candidate rejected this proposer.
    fn add_rejection(&mut self)
        requires
            old(self).next < old(self).preferences@.len(),
        ensures
            final(self).next == old(self).next + 1,
            final(self).id == old(self).id,
            final(self).preferences == old(self).preferences,
    {
        proof {
            assert(self.next < self.preferences.len());
        }
        self.next += 1;
    }
}

/// A responder's ranking of the proposers (by position), the proposals it
/// holds and the one it tentatively accepts.
pub struct Responder {
    id: ResponderId,
    /// The rank of each proposer; `limit` for an unacceptable one.
    ranks: Vec<usize>,
    limit: usize,
    /// The proposals held: the accepted one and this round's new ones.
    proposals: Vec<usize>,
    accepted: Option<usize>,
}

impl Responder {
    fn new(id: ResponderId, preferences: &Vec<usize>, n: usize) -> (r: Self)
        requires
            preferences@.no_duplicates(),
            forall|k: int| 0 <= k < preferences@.len() ==> (#[trigger] preferences@[k]) < n,
        ensures
            r.id == id,
            r.limit == preferences@.len(),
            r.ranks@.len() == n,
            forall|k: int| 0 <= k < preferences@.len() ==> #[trigger] r.ranks@[preferences@[k] as int] == k,
            forall|q: int| 0 <= q < n ==> (#[trigger] r.ranks@[q]) <= r.limit,
            forall|q: int| 0 <= q < n && (#[trigger] r.ranks@[q]) < r.limit ==> preferences@[r.ranks@[q] as int] == q,
            r.proposals@.len() == 0,
            r.accepted is None,
    {
        let limit = preferences.len();
        let mut ranks: Vec<usize> = vec![limit; n];
        let mut k: usize = 0;
        while k < limit
            invariant
                limit == preferences@.len(),
                k <= limit,
                ranks@.len() == n,
                preferences@.no_duplicates(),
                forall|l: int| 0 <= l < preferences@.len() ==> (#[trigger] preferences@[l]) < n,
                forall|l: int| 0 <= l < k ==> #[trigger] ranks@[preferences@[l] as int] == l,
                forall|q: int| 0 <= q < n ==> (#[trigger] ranks@[q]) == limit || (ranks@[q] < k
                    && preferences@[ranks@[q] as int] == q),
            decreases limit - k,
        {
            let q = preferences[k];
            proof {
                assert forall|l: int| 0 <= l < k implies preferences@[l] != q by {}
            }
            ranks.set(q, k);
            k += 1;
        }
        Responder { id, ranks, limit, proposals: Vec::new(), accepted: None }
    }

    fn add_proposal(&mut self, proposer: usize)
        ensures
            final(self).proposals@ == old(self).proposals@.push(proposer),
            final(self).id == old(self).id,
            final(self).ranks == old(self).ranks,
            final(self).limit == old(self).limit,
            final(self).accepted == old(self).accepted,
    {
        self.proposals.push(proposer);
    }

    /// The best acceptable proposer among `proposals`, if any.
    fn get_response(&self, proposals: &Vec<usize>) -> (r: Option<usize>)
        requires
            forall|i: int| 0 <= i < proposals@.len() ==> (#[trigger] proposals@[i]) < self.ranks@.len(),
        ensures
            match r {
                Some(b) => {
                    &&& proposals@.contains(b)
                    &&& self.ranks@[b as int] < self.limit
                    &&& forall|x: usize| #[trigger] proposals@.contains(x) ==> self.ranks@[b as int] <= self.ranks@[x as int]
                },
                None => forall|x: usize| #[trigger] proposals@.contains(x) ==> self.ranks@[x as int] >= self.limit,
            },
    {
        let mut best: Option<usize> = None;
        let mut i: usize = 0;
        while i < proposals.len()
            invariant
                i <= proposals@.len(),
                forall|l: int| 0 <= l < proposals@.len() ==> (#[trigger] proposals@[l]) < self.ranks@.len(),
                match best {
                    Some(b) => {
                        &&& proposals@.contains(b)
                        &&& b < self.ranks@.len()
                        &&& self.ranks@[b as int] < self.limit
                        &&& forall|l: int| 0 <= l < i ==> self.ranks@[b as int] <= #[trigger] self.ranks@[proposals@[l] as int]
                            || self.ranks@[proposals@[l] as int] >= self.limit
                    },
                    None => forall|l: int| 0 <= l < i ==> #[trigger] self.ranks@[proposals@[l] as int] >= self.limit,
                },
            decreases proposals@.len() - i,
        {
            let x = proposals[i];
            let rank = self.ranks[x];
            if rank < self.limit {
                match best {
                    None => {
                        best = Some(x);
                    },
                    Some(b) => {
                        if rank < self.ranks[b] {
                            best = Some(x);
                        }
                    },
                }
            }
            i += 1;
        }
        proof {
            match best {
                Some(b) => {
                    assert forall|x: usize| #[trigger] proposals@.contains(x) implies self.ranks@[b as int] <= self.ranks@[x as int] by {
                        let l = choose|l: int| 0 <= l < proposals@.len() && proposals@[l] == x;
                        assert(self.ranks@[proposals@[l] as int] == self.ranks@[x as int]);
                    }
                },
                None => {
                    assert forall|x: usize| #[trigger] proposals@.contains(x) implies self.ranks@[x as int] >= self.limit by {
                        let l = choose|l: int| 0 <= l < proposals@.len() && proposals@[l] == x;
                        assert(self.ranks@[proposals@[l] as int] == self.ranks@[x as int]);
                    }
                },
            }
        }
        best
    }

    /// Keeps the best acceptable proposal, if any, and returns the proposers
    /// that were turned down.
    fn reject(&mut self) -> (rejected: Vec<usize>)
        requires
            forall|i: int| 0 <= i < old(self).proposals@.len() ==> #[trigger] old(self).proposals@[i]
                < old(self).ranks@.len(),
        ensures
            final(self).id == old(self).id,
            final(self).ranks == old(self).ranks,
            final(self).limit == old(self).limit,
            match final(self).accepted {
                Some(b) => {
                    &&& old(self).proposals@.contains(b)
                    &&& old(self).ranks@[b as int] < old(self).limit
                    &&& forall|x: usize| #[trigger] old(self).proposals@.contains(x) ==> old(self).ranks@[b as int]
                        <= old(self).ranks@[x as int]
                    &&& final(self).proposals@ == seq![b]
                },
                None => {
                    &&& forall|x: usize| #[trigger] old(self).proposals@.contains(x) ==> old(self).ranks@[x as int]
                        >= old(self).limit
                    &&& final(self).proposals@.len() == 0
                },
            },
            forall|x: usize| #[trigger] rejected@.contains(x) <==> old(self).proposals@.contains(x)
                && final(self).accepted != Some(x),
            old(self).proposals@.no_duplicates() ==> rejected@.no_duplicates(),
    {
        let ghost props = self.proposals@;
        let best = self.get_response(&self.proposals);
        let mut rejected: Vec<usize> = Vec::new();
        let mut i: usize = 0;
        while i < self.proposals.len()
            invariant
                props == self.proposals@,
                i <= props.len(),
                forall|x: usize| #[trigger] rejected@.contains(x) <==> (exists|l: int| 0 <= l < i && props[l] == x)
                    && best != Some(x),
                props.no_duplicates() ==> rejected@.no_duplicates(),
                props.no_duplicates() ==> forall|x: usize| #[trigger] rejected@.contains(x) ==> (exists|l: int|
                    0 <= l < i && props[l] == x),
            decreases props.len() - i,
        {
            let x = self.proposals[i];
            if Some(x) != best {
                proof {
                    if props.no_duplicates() && rejected@.contains(x) {
                        let l = choose|l: int| 0 <= l < i && props[l] == x;
                        assert(props[l] == props[i as int]);
                    }
                }
                let ghost r0 = rejected@;
                rejected.push(x);
                proof {
                    assert forall|y: usize| #[trigger] rejected@.contains(y) <==> (exists|l: int| 0 <= l < i + 1 && props[l] == y)
                        && best != Some(y) by {
                        if rejected@.contains(y) {
                            if y != x {
                                assert(r0.contains(y));
                                let l = choose|l: int| 0 <= l < i && props[l] == y;
                                assert(exists|l: int| 0 <= l < i + 1 && props[l] == y);
                            } else {
                                assert(props[i as int] == y);
                            }
                        }
                        if (exists|l: int| 0 <= l < i + 1 && props[l] == y) && best != Some(y) && y != x {
                            let l = choose|l: int| 0 <= l < i + 1 && props[l] == y;
                            assert(exists|l: int| 0 <= l < i && props[l] == y);
                            assert(r0.contains(y));
                        }
                    }
                }
            } else {
                proof {
                    assert forall|y: usize| #[trigger] rejected@.contains(y) <==> (exists|l: int| 0 <= l < i + 1 && props[l] == y)
                        && best != Some(y) by {
                        if (exists|l: int| 0 <= l < i + 1 && props[l] == y) && best != Some(y) {
                            let l = choose|l: int| 0 <= l < i + 1 && props[l] == y;
                            assert(l < i);
                            assert(exists|l: int| 0 <= l < i && props[l] == y);
                        }
                        if rejected@.contains(y) {
                            let l = choose|l: int| 0 <= l < i && props[l] == y;
                            assert(exists|l: int| 0 <= l < i + 1 && props[l] == y);
                        }
                    }
                }
            }
            i += 1;
        }
        self.proposals = Vec::new();
        if let Some(b) = best {
            self.proposals.push(b);
        }
        self.accepted = best;
        rejected
    }
}

/// The responder position that proposer `q` currently courts.
spec fn target(pr: Seq<Proposer>, q: int) -> int {
    pr[q].preferences@[pr[q].next as int] as int
}

/// Proposer `q` is tentatively accepted by the responder it courts.
spec fn held(pr: Seq<Proposer>, rr: Seq<Responder>, q: int) -> bool {
    pr[q].next < pr[q].preferences@.len() && rr[target(pr, q)].accepted == Some(q as usize)
}

/// The proposer arena mirrors the input: same ids, lists as positions.
spec fn proposers_linked(pr: Seq<Proposer>, ps: Seq<ProposerInput>, rs: Seq<ResponderInput>) -> bool {
    &&& pr.len() == ps.len()
    &&& forall|q: int|
        0 <= q < pr.len() ==> {
            &&& (#[trigger] pr[q]).id == ps[q].id
            &&& pr[q].preferences@.len() == ps[q].preferences@.len()
            &&& pr[q].next <= pr[q].preferences@.len()
        }
    &&& forall|q: int, k: int|
        0 <= q < pr.len() && 0 <= k < pr[q].preferences@.len() ==> {
            &&& (#[trigger] pr[q].preferences@[k]) < rs.len()
            &&& rs[pr[q].preferences@[k] as int].id == ps[q].preferences@[k]
        }
}

/// The responder arena mirrors the input: same ids, ranks as in the lists.
spec fn responders_linked(rr: Seq<Responder>, ps: Seq<ProposerInput>, rs: Seq<ResponderInput>) -> bool {
    &&& rr.len() == rs.len()
    &&& forall|j: int|
        0 <= j < rr.len() ==> {
            &&& (#[trigger] rr[j]).id == rs[j].id
            &&& rr[j].limit == rs[j].preferences@.len()
            &&& rr[j].ranks@.len() == ps.len()
        }
    &&& forall|j: int, q: int|
        0 <= j < rr.len() && 0 <= q < ps.len() ==> (#[trigger] rr[j].ranks@[q]) as int == rank_entry(
            rs[j].preferences@,
            ps[q].id,
        )
}

/// Whoever rejected a proposer holds someone it ranks higher, unless the
/// proposer was unacceptable to it.
spec fn rejections_justified(pr: Seq<Proposer>, rr: Seq<Responder>) -> bool {
    forall|q: int, k: int|
        0 <= q < pr.len() && 0 <= k < pr[q].next ==> {
            let j = #[trigger] pr[q].preferences@[k] as int;
            ||| rr[j].ranks@[q] >= rr[j].limit
            ||| (rr[j].accepted matches Some(a) && rr[j].ranks@[a as int] < rr[j].ranks@[q])
        }
}

/// In a complete market, no proposer has been rejected by a partner it has in
/// some stable matching.
spec fn rejections_unavoidable(pr: Seq<Proposer>, ps: Seq<ProposerInput>, rs: Seq<ResponderInput>) -> bool {
    forall|other: Map<u32, u32>, q: int, k: int|
        #![trigger other[ps[q].id], ps[q].preferences@[k]]
        is_complete_market(ps, rs) && is_stable_matching(ps, rs, other) && 0 <= q < pr.len() && 0 <= k < pr[q].next
            ==> other[ps[q].id] != ps[q].preferences@[k]
}

/// The state between two rounds; `unassigned` lists the proposers that must
/// propose in the next one.
spec fn between_rounds(
    ps: Seq<ProposerInput>,
    rs: Seq<ResponderInput>,
    pr: Seq<Proposer>,
    rr: Seq<Responder>,
    unassigned: Seq<usize>,
) -> bool {
    &&& proposers_linked(pr, ps, rs)
    &&& responders_linked(rr, ps, rs)
    &&& forall|j: int|
        0 <= j < rr.len() ==> match #[trigger] rr[j].accepted {
            Some(a) => {
                &&& a < pr.len()
                &&& pr[a as int].next < pr[a as int].preferences@.len()
                &&& target(pr, a as int) == j
                &&& rr[j].ranks@[a as int] < rr[j].limit
                &&& rr[j].proposals@ == seq![a]
            },
            None => rr[j].proposals@.len() == 0,
        }
    &&& unassigned.no_duplicates()
    &&& forall|u: int| 0 <= u < unassigned.len() ==> (#[trigger] unassigned[u]) < pr.len()
    &&& forall|q: int| 0 <= q < pr.len() ==> (unassigned.contains(q as usize) <==> !#[trigger] held(pr, rr, q))
    &&& rejections_justified(pr, rr)
    &&& rejections_unavoidable(pr, ps, rs)
}

/// How many proposals the proposers could still make.
spec fn remaining(pr: Seq<Proposer>) -> int
    decreases pr.len(),
{
    if pr.len() == 0 {
        0
    } else {
        remaining(pr.drop_last()) + (pr.last().preferences@.len() - pr.last().next)
    }
}

proof fn lemma_remaining_nonneg(pr: Seq<Proposer>)
    requires
        forall|q: int| 0 <= q < pr.len() ==> (#[trigger] pr[q]).next <= pr[q].preferences@.len(),
    ensures
        remaining(pr) >= 0,
    decreases pr.len(),
{
    if pr.len() > 0 {
        assert forall|q: int| 0 <= q < pr.drop_last().len() implies #[trigger] pr.drop_last()[q].next
            <= pr.drop_last()[q].preferences@.len() by {
            assert(pr.drop_last()[q] == pr[q]);
        }
        lemma_remaining_nonneg(pr.drop_last());
        assert(pr.last() == pr[pr.len() - 1]);
    }
}

proof fn lemma_remaining_step(pr: Seq<Proposer>, q: int, p: Proposer)
    requires
        0 <= q < pr.len(),
        p.preferences@.len() == pr[q].preferences@.len(),
        p.next == pr[q].next + 1,
    ensures
        remaining(pr.update(q, p)) == remaining(pr) - 1,
    decreases pr.len(),
{
    let upd = pr.update(q, p);
    if q == pr.len() - 1 {
        assert(upd.drop_last() =~= pr.drop_last());
    } else {
        lemma_remaining_step(pr.drop_last(), q, p);
        assert(upd.drop_last() =~= pr.drop_last().update(q, p));
    }
}

/// `n` values below `n` that avoid one of them repeat some value.
proof fn lemma_pigeonhole(s: Seq<int>, n: int, skip: int)
    requires
        s.len() == n,
        0 <= skip < n,
        forall|k: int| 0 <= k < n ==> 0 <= (#[trigger] s[k]) < n && s[k] != skip,
    ensures
        !s.no_duplicates(),
{
    if s.no_duplicates() {
        s.unique_seq_to_set();
        let range = set_int_range(0, n).remove(skip);
        lemma_int_range(0, n);
        assert(s.to_set().subset_of(range));
        lemma_len_subset(s.to_set(), range);
    }
}

proof fn lemma_ids_distinct_p(ps: Seq<ProposerInput>, a: int, b: int)
    requires
        proposer_ids(ps).no_duplicates(),
        0 <= a < ps.len(),
        0 <= b < ps.len(),
        ps[a].id == ps[b].id,
    ensures
        a == b,
{
    assert(proposer_ids(ps)[a] == ps[a].id);
    assert(proposer_ids(ps)[b] == ps[b].id);
}

proof fn lemma_ids_distinct_r(rs: Seq<ResponderInput>, a: int, b: int)
    requires
        responder_ids(rs).no_duplicates(),
        0 <= a < rs.len(),
        0 <= b < rs.len(),
        rs[a].id == rs[b].id,
    ensures
        a == b,
{
    assert(responder_ids(rs)[a] == rs[a].id);
    assert(responder_ids(rs)[b] == rs[b].id);
}

/// A responder with a matched partner `q` that ranks `b` higher, courted by
/// `b` before `b` meets its own partner, makes the matching unstable.
proof fn lemma_displaced(
    ps: Seq<ProposerInput>,
    rs: Seq<ResponderInput>,
    other: Map<u32, u32>,
    q: int,
    b: int,
    j: int,
    kb: int,
)
    requires
        lists_valid(ps, rs),
        0 <= q < ps.len(),
        0 <= b < ps.len(),
        0 <= j < rs.len(),
        q != b,
        other.contains_key(ps[q].id),
        other[ps[q].id] == rs[j].id,
        0 <= kb < ps[b].preferences@.len(),
        ps[b].preferences@[kb] == rs[j].id,
        forall|k: int| 0 <= k < kb ==> other[ps[b].id] != #[trigger] ps[b].preferences@[k],
        prefers_more_spec(rs[j].preferences@, ps[q].id, ps[b].id),
    ensures
        !is_stable_matching(ps, rs, other),
{
    if is_stable_matching(ps, rs, other) {
        let list = ps[b].preferences@;
        let x = other[ps[b].id];
        assert(other.contains_key(ps[b].id));
        assert(x != rs[j].id);
        assert(is_valid_list(list, responder_ids(rs)));
        lemma_rank_of_entry(list, kb);
        match rank_of(list, x) {
            Some(r) => {
                lemma_rank_of_some(list, x);
                assert(list[r] == x);
                assert(kb < r);
            },
            None => {},
        }
        assert(prefers_more_spec(list, x, rs[j].id));
        assert forall|i: int| 0 <= i < ps.len() && i != q implies !#[trigger] matched_to(ps, other, i, rs[j].id) by {
            assert(other[ps[i].id] != other[ps[q].id]);
        }
        lemma_partner_is(ps, other, rs[j].id, q);
        assert(is_blocking(ps, rs, other, b, j));
    }
}

/// Distinct acceptable proposers have distinct ranks.
proof fn lemma_ranks_distinct(ps: Seq<ProposerInput>, rs: Seq<ResponderInput>, j: int, a: int, b: int)
    requires
        lists_valid(ps, rs),
        proposer_ids(ps).no_duplicates(),
        0 <= j < rs.len(),
        0 <= a < ps.len(),
        0 <= b < ps.len(),
        rank_entry(rs[j].preferences@, ps[a].id) == rank_entry(rs[j].preferences@, ps[b].id),
        rank_entry(rs[j].preferences@, ps[a].id) < rs[j].preferences@.len(),
    ensures
        a == b,
{
    let list = rs[j].preferences@;
    lemma_rank_of_some(list, ps[a].id);
    lemma_rank_of_some(list, ps[b].id);
    lemma_ids_distinct_p(ps, a, b);
}

/// In a complete market every proposer is acceptable to every responder.
proof fn lemma_complete_acceptable(ps: Seq<ProposerInput>, rs: Seq<ResponderInput>, j: int, q: int)
    requires
        is_complete_market(ps, rs),
        0 <= j < rs.len(),
        0 <= q < ps.len(),
    ensures
        rank_entry(rs[j].preferences@, ps[q].id) < rs[j].preferences@.len(),
{
    let list = rs[j].preferences@;
    assert(proposer_ids(ps)[q] == ps[q].id);
    assert(list.contains(proposer_ids(ps)[q]));
    lemma_rank_of_contains(list, ps[q].id);
    lemma_rank_of_some(list, ps[q].id);
}

/// A proposer that every responder has rejected shows the market is not complete.
proof fn lemma_exhausted(
    ps: Seq<ProposerInput>,
    rs: Seq<ResponderInput>,
    pr: Seq<Proposer>,
    rr: Seq<Responder>,
    unassigned: Seq<usize>,
    q: int,
)
    requires
        between_rounds(ps, rs, pr, rr, unassigned),
        responder_ids(rs).no_duplicates(),
        0 <= q < pr.len(),
        pr[q].next == pr[q].preferences@.len(),
    ensures
        !is_complete_market(ps, rs),
{
    if is_complete_market(ps, rs) {
        let n = rs.len() as int;
        assert forall|j: int| 0 <= j < n implies (#[trigger] rr[j].accepted matches Some(a) && a != q) by {
            assert(responder_ids(rs)[j] == rs[j].id);
            assert(ps[q].preferences@.contains(responder_ids(rs)[j]));
            let k = choose|k: int| 0 <= k < ps[q].preferences@.len() && ps[q].preferences@[k] == rs[j].id;
            assert(pr[q].id == ps[q].id);
            let pos = pr[q].preferences@[k] as int;
            assert(pos < rs.len() && rs[pos].id == ps[q].preferences@[k]);
            lemma_ids_distinct_r(rs, pos, j);
            lemma_complete_acceptable(ps, rs, j, q);
            assert(rr[j].id == rs[j].id);
            assert(rr[j].ranks@[q] as int == rank_entry(rs[j].preferences@, ps[q].id));
            let kk = k;
            assert(0 <= kk < pr[q].next);
            let jj = pr[q].preferences@[kk] as int;
            assert(jj == j);
        }
        let s = Seq::new(n as nat, |j: int| rr[j].accepted->0 as int);
        assert forall|k: int| 0 <= k < n implies 0 <= (#[trigger] s[k]) < n && s[k] != q by {
            assert(rr[k].accepted matches Some(a) && a != q);
        }
        assert forall|a: int, b: int| 0 <= a < s.len() && 0 <= b < s.len() && a != b implies s[a] != s[b] by {
            assert(rr[a].accepted matches Some(x));
            assert(rr[b].accepted matches Some(x));
        }
        lemma_pigeonhole(s, n, q);
    }
}

proof fn lemma_unavoidable_at(
    pr: Seq<Proposer>,
    ps: Seq<ProposerInput>,
    rs: Seq<ResponderInput>,
    other: Map<u32, u32>,
    q: int,
    k: int,
)
    requires
        rejections_unavoidable(pr, ps, rs),
        is_complete_market(ps, rs),
        is_stable_matching(ps, rs, other),
        0 <= q < pr.len(),
        0 <= k < pr[q].next,
    ensures
        other[ps[q].id] != ps[q].preferences@[k],
{
    let pos = ps[q].preferences@[k];
    let partner = other[ps[q].id];
}

/// After the propose phase every proposer courts a responder and is among
/// that responder's proposals.
spec fn all_proposed(pr: Seq<Proposer>, rr: Seq<Responder>) -> bool {
    &&& forall|q: int| 0 <= q < pr.len() ==> (#[trigger] pr[q]).next < pr[q].preferences@.len()
    &&& forall|j: int, x: usize|
        0 <= j < rr.len() ==> (#[trigger] rr[j].proposals@.contains(x) <==> (x < pr.len() && target(
            pr,
            x as int,
        ) == j))
    &&& forall|j: int| 0 <= j < rr.len() ==> #[trigger] rr[j].proposals@.no_duplicates()
}

spec fn same_ranking(r0: Responder, r: Responder) -> bool {
    r.id == r0.id && r.ranks == r0.ranks && r.limit == r0.limit
}

/// `r` is what `r1` became once it kept its best acceptable proposal.
spec fn decided(r1: Responder, r: Responder) -> bool {
    &&& same_ranking(r1, r)
    &&& match r.accepted {
        Some(b) => {
            &&& r1.proposals@.contains(b)
            &&& r1.ranks@[b as int] < r1.limit
            &&& forall|x: usize| #[trigger] r1.proposals@.contains(x) ==> r1.ranks@[b as int] <= r1.ranks@[x as int]
            &&& r.proposals@ == seq![b]
        },
        None => {
            &&& forall|x: usize| #[trigger] r1.proposals@.contains(x) ==> r1.ranks@[x as int] >= r1.limit
            &&& r.proposals@.len() == 0
        },
    }
}

/// The reject phase has handled the responders before `jj`; `rejected`
/// lists the proposers they turned down.
spec fn rejecting(
    ps: Seq<ProposerInput>,
    rs: Seq<ResponderInput>,
    pr1: Seq<Proposer>,
    rr1: Seq<Responder>,
    pr: Seq<Proposer>,
    rr: Seq<Responder>,
    rejected: Seq<usize>,
    jj: int,
) -> bool {
    &&& proposers_linked(pr, ps, rs)
    &&& pr.len() == pr1.len()
    &&& rr.len() == rr1.len()
    &&& forall|q: int|
        0 <= q < pr.len() ==> {
            &&& (#[trigger] pr[q]).id == pr1[q].id
            &&& pr[q].preferences == pr1[q].preferences
            &&& pr[q].next == pr1[q].next + (if rejected.contains(q as usize) {
                1int
            } else {
                0int
            })
            &&& (rejected.contains(q as usize) <==> (target(pr1, q) < jj && rr[target(pr1, q)].accepted != Some(
                q as usize,
            )))
        }
    &&& forall|j: int| jj <= j < rr.len() ==> (#[trigger] rr[j]) == rr1[j]
    &&& forall|j: int| 0 <= j < jj ==> decided(rr1[j], #[trigger] rr[j])
    &&& rejected.no_duplicates()
    &&& forall|u: int| 0 <= u < rejected.len() ==> (#[trigger] rejected[u]) < pr.len()
    &&& remaining(pr) + rejected.len() == remaining(pr1)
}

/// A round that started in a good state and has proposed and decided
/// everywhere ends in a good state.
proof fn lemma_round_end(
    ps: Seq<ProposerInput>,
    rs: Seq<ResponderInput>,
    pr1: Seq<Proposer>,
    rr0: Seq<Responder>,
    un0: Seq<usize>,
    rr1: Seq<Responder>,
    pr: Seq<Proposer>,
    rr: Seq<Responder>,
    rejected: Seq<usize>,
)
    requires
        proposer_ids(ps).no_duplicates(),
        responder_ids(rs).no_duplicates(),
        lists_valid(ps, rs),
        between_rounds(ps, rs, pr1, rr0, un0),
        rr1.len() == rr0.len(),
        pr1.len() <= usize::MAX,
        forall|j: int| 0 <= j < rr1.len() ==> same_ranking(rr0[j], #[trigger] rr1[j]) && rr1[j].accepted
            == rr0[j].accepted,
        all_proposed(pr1, rr1),
        rejecting(ps, rs, pr1, rr1, pr, rr, rejected, rr.len() as int),
    ensures
        between_rounds(ps, rs, pr, rr, rejected),
{
    let np = pr.len() as int;
    let nr = rr.len() as int;
    assert forall|q: int| 0 <= q < np implies (#[trigger] target(pr1, q)) < nr by {
        assert(pr1[q].id == ps[q].id);
        assert(pr1[q].preferences@[pr1[q].next as int] < rs.len());
    }
    assert(responders_linked(rr, ps, rs)) by {
        assert forall|j: int| 0 <= j < rr.len() implies (#[trigger] rr[j]).id == rs[j].id && rr[j].limit
            == rs[j].preferences@.len() && rr[j].ranks@.len() == ps.len() by {
            assert(decided(rr1[j], rr[j]));
            assert(same_ranking(rr0[j], rr1[j]));
            assert(rr0[j].id == rs[j].id);
        }
        assert forall|j: int, q: int| 0 <= j < rr.len() && 0 <= q < ps.len() implies #[trigger] rr[j].ranks@[q] as int
            == rank_entry(rs[j].preferences@, ps[q].id) by {
            assert(decided(rr1[j], rr[j]));
            assert(same_ranking(rr0[j], rr1[j]));
            assert(rr0[j].ranks@[q] as int == rank_entry(rs[j].preferences@, ps[q].id));
        }
    }
    // the accepted proposers stay where they are
    assert forall|j: int| 0 <= j < nr implies match #[trigger] rr[j].accepted {
        Some(a) => {
            &&& a < pr.len()
            &&& pr[a as int].next < pr[a as int].preferences@.len()
            &&& target(pr, a as int) == j
            &&& rr[j].ranks@[a as int] < rr[j].limit
            &&& rr[j].proposals@ == seq![a]
        },
        None => rr[j].proposals@.len() == 0,
    } by {
        assert(decided(rr1[j], rr[j]));
        if let Some(a) = rr[j].accepted {
            assert(rr1[j].proposals@.contains(a));
            assert(target(pr1, a as int) == j);
            assert(pr[a as int].id == pr1[a as int].id);
            assert(!rejected.contains(a));
        }
    }
    assert forall|q: int| 0 <= q < np implies (rejected.contains(q as usize) <==> !#[trigger] held(pr, rr, q)) by {
        assert(pr[q].id == pr1[q].id);
        if rejected.contains(q as usize) {
            if held(pr, rr, q) {
                let j = target(pr, q);
                assert(pr[q].preferences@[pr[q].next as int] < rs.len());
                assert(decided(rr1[j], rr[j]));
                assert(rr1[j].proposals@.contains(q as usize));
                assert(target(pr1, q) == j);
            }
        } else {
            assert(target(pr1, q) < nr);
        }
    }
    assert(rejections_justified(pr, rr)) by {
        assert forall|q: int, k: int| 0 <= q < pr.len() && 0 <= k < pr[q].next implies {
            let j = #[trigger] pr[q].preferences@[k] as int;
            ||| rr[j].ranks@[q] >= rr[j].limit
            ||| (rr[j].accepted matches Some(a) && rr[j].ranks@[a as int] < rr[j].ranks@[q])
        } by {
            assert(pr[q].id == pr1[q].id);
            let j = pr[q].preferences@[k] as int;
            assert(pr[q].preferences@[k] < rs.len());
            assert(decided(rr1[j], rr[j]));
            assert(same_ranking(rr0[j], rr1[j]));
            if k < pr1[q].next {
                assert(pr1[q].preferences@[k] as int == j);
                if rr0[j].ranks@[q] < rr0[j].limit {
                    let a = rr0[j].accepted->0;
                    assert(rr0[j].accepted == Some(a));
                    assert(rr1[j].proposals@.contains(a));
                }
            } else {
                assert(rejected.contains(q as usize));
                assert(target(pr1, q) == j);
                assert(rr1[j].proposals@.contains(q as usize));
                if let Some(b) = rr[j].accepted {
                    assert(rr1[j].proposals@.contains(b));
                    assert(target(pr1, b as int) == j);
                    if rr[j].ranks@[b as int] == rr[j].ranks@[q] && rr[j].ranks@[q] < rr[j].limit {
                        lemma_ranks_distinct(ps, rs, j, b as int, q);
                    }
                }
            }
        }
    }
    assert(rejections_unavoidable(pr, ps, rs)) by {
        {
            assert forall|other: Map<u32, u32>, q: int, k: int|
                #![trigger other[ps[q].id], ps[q].preferences@[k]]
                is_complete_market(ps, rs) && is_stable_matching(ps, rs, other) && 0 <= q < pr.len() && 0 <= k < pr[q].next
                    implies other[ps[q].id] != ps[q].preferences@[k] by {
                assert(pr[q].id == pr1[q].id);
                if k < pr1[q].next {
                    lemma_unavoidable_at(pr1, ps, rs, other, q, k);
                } else {
                    let j = target(pr1, q);
                    assert(rejected.contains(q as usize));
                    assert(rr1[j].proposals@.contains(q as usize));
                    assert(decided(rr1[j], rr[j]));
                    assert(same_ranking(rr0[j], rr1[j]));
                    lemma_complete_acceptable(ps, rs, j, q);
                    assert(rr0[j].ranks@[q] as int == rank_entry(rs[j].preferences@, ps[q].id));
                    assert(rr0[j].id == rs[j].id);
                    let b = rr[j].accepted->0;
                    assert(rr[j].accepted == Some(b));
                    assert(rr1[j].proposals@.contains(b));
                    assert(target(pr1, b as int) == j);
                    assert(b as int != q);
                    assert(rr0[j].ranks@[b as int] as int == rank_entry(rs[j].preferences@, ps[b as int].id));
                    if rr[j].ranks@[b as int] == rr[j].ranks@[q] {
                        lemma_ranks_distinct(ps, rs, j, b as int, q);
                    }
                    assert(prefers_more_spec(rs[j].preferences@, ps[q].id, ps[b as int].id));
                    let kb = pr1[b as int].next as int;
                    assert(pr1[b as int].id == ps[b as int].id);
                    assert(pr1[b as int].preferences@[kb] < rs.len());
                    assert(ps[b as int].preferences@[kb] == rs[j].id);
                    let bi = b as int;
                    assert forall|k2: int| 0 <= k2 < kb implies other[ps[bi].id] != #[trigger] ps[bi].preferences@[k2] by {
                        lemma_unavoidable_at(pr1, ps, rs, other, bi, k2);
                    }
                    assert(pr1[q].preferences@[k] < rs.len());
                    assert(ps[q].preferences@[k] == rs[j].id);
                    if other[ps[q].id] == ps[q].preferences@[k] {
                        assert(ps[q].id == proposer_ids(ps)[q]);
                        lemma_displaced(ps, rs, other, q, b as int, j, kb);
                    }
                }
            }
        }
    }
}

/// The map that sends each proposer to the responder it courts.
spec fn maps_to_targets(ps: Seq<ProposerInput>, rs: Seq<ResponderInput>, pr: Seq<Proposer>, m: Map<u32, u32>) -> bool {
    forall|q: int|
        0 <= q < ps.len() ==> #[trigger] m.contains_key(ps[q].id) && m[ps[q].id] == rs[target(pr, q)].id
}

/// When every proposer is held, sending each proposer to the responder it
/// courts gives a stable matching that is best for the proposers.
proof fn lemma_final(
    ps: Seq<ProposerInput>,
    rs: Seq<ResponderInput>,
    pr: Seq<Proposer>,
    rr: Seq<Responder>,
    unassigned: Seq<usize>,
    m: Map<u32, u32>,
)
    requires
        proposer_ids(ps).no_duplicates(),
        responder_ids(rs).no_duplicates(),
        lists_valid(ps, rs),
        between_rounds(ps, rs, pr, rr, unassigned),
        unassigned.len() == 0,
        ps.len() <= usize::MAX,
        maps_to_targets(ps, rs, pr, m),
    ensures
        matches_every_proposer(ps, rs, m),
        has_no_blocking_pair(ps, rs, m),
        ps.len() == rs.len() ==> matches_every_responder(ps, rs, m),
        is_complete_market(ps, rs) ==> is_proposer_optimal(ps, rs, m),
{
    let np = ps.len() as int;
    let nr = rs.len() as int;
    assert forall|q: int| 0 <= q < np implies #[trigger] held(pr, rr, q) && 0 <= target(pr, q) < nr && m[ps[q].id]
        == ps[q].preferences@[pr[q].next as int] by {
        assert(!unassigned.contains(q as usize));
        assert(held(pr, rr, q));
        assert(pr[q].id == ps[q].id);
        assert(pr[q].preferences@[pr[q].next as int] < rs.len());
        assert(m.contains_key(ps[q].id));
    }
    // distinct proposers court distinct responders
    assert forall|a: int, b: int| 0 <= a < np && 0 <= b < np && a != b implies target(pr, a) != target(pr, b) by {
        assert(held(pr, rr, a));
        assert(held(pr, rr, b));
    }
    assert forall|a: int, b: int| 0 <= a < np && 0 <= b < np && a != b implies (#[trigger] m[ps[a].id]) != #[trigger] m[ps[b].id] by {
        assert(held(pr, rr, a));
        assert(held(pr, rr, b));
        assert(m.contains_key(ps[a].id));
        assert(m.contains_key(ps[b].id));
        if m[ps[a].id] == m[ps[b].id] {
            lemma_ids_distinct_r(rs, target(pr, a), target(pr, b));
        }
    }
    assert forall|q: int| 0 <= q < np implies #[trigger] responder_ids(rs).contains(m[ps[q].id]) by {
        assert(held(pr, rr, q));
        assert(m.contains_key(ps[q].id));
        assert(responder_ids(rs)[target(pr, q)] == rs[target(pr, q)].id);
    }
    assert forall|i: int, j: int| 0 <= i < np && 0 <= j < nr implies !#[trigger] is_blocking(ps, rs, m, i, j) by {
        assert(held(pr, rr, i));
        assert(m.contains_key(ps[i].id));
        let li = ps[i].preferences@;
        let ki = pr[i].next as int;
        assert(pr[i].id == ps[i].id);
        assert(is_valid_list(li, responder_ids(rs)));
        assert(rs[target(pr, i)].id == li[ki]);
        lemma_rank_of_entry(li, ki);
        if is_blocking(ps, rs, m, i, j) {
            let k = rank_of(li, rs[j].id)->0;
            lemma_rank_of_some(li, rs[j].id);
            assert(k < ki);
            let pos = pr[i].preferences@[k] as int;
            assert(pos < rs.len() && rs[pos].id == li[k]);
            lemma_ids_distinct_r(rs, pos, j);
            assert(rejections_justified(pr, rr));
            let lj = rs[j].preferences@;
            assert(rr[j].id == rs[j].id);
            assert(rr[j].ranks@[i] as int == rank_entry(lj, ps[i].id));
            if rr[j].ranks@[i] >= rr[j].limit {
                assert(rank_of(lj, ps[i].id) is None);
            } else {
                let a = rr[j].accepted->0;
                assert(rr[j].accepted == Some(a));
                assert(held(pr, rr, a as int));
                assert(target(pr, a as int) == j);
                assert(m[ps[a as int].id] == rs[j].id);
                assert forall|l: int| 0 <= l < np && l != a implies !#[trigger] matched_to(ps, m, l, rs[j].id) by {
                    assert(held(pr, rr, l));
                    assert(m[ps[l].id] != m[ps[a as int].id]);
                }
                lemma_partner_is(ps, m, rs[j].id, a as int);
                assert(rr[j].ranks@[a as int] as int == rank_entry(lj, ps[a as int].id));
            }
        }
    }
    if np == nr {
        assert forall|j: int| 0 <= j < nr implies #[trigger] has_partner(ps, m, rs[j].id) by {
            if let Some(a) = rr[j].accepted {
                assert(held(pr, rr, a as int));
                assert(matched_to(ps, m, a as int, rs[j].id));
            } else {
                let s = Seq::new(np as nat, |q: int| target(pr, q));
                assert forall|k: int| 0 <= k < np implies 0 <= (#[trigger] s[k]) < np && s[k] != j by {
                    assert(held(pr, rr, k));
                }
                assert forall|a: int, b: int| 0 <= a < s.len() && 0 <= b < s.len() && a != b implies s[a] != s[b] by {
                    assert(target(pr, a) != target(pr, b));
                }
                lemma_pigeonhole(s, np, j);
            }
        }
    }
    if is_complete_market(ps, rs) {
        assert forall|other: Map<u32, u32>, i: int|
            #![trigger is_stable_matching(ps, rs, other), ps[i]]
            is_stable_matching(ps, rs, other) && 0 <= i < ps.len() implies !prefers_more_spec(
                ps[i].preferences@,
                m[ps[i].id],
                other[ps[i].id],
            ) by {
            assert(held(pr, rr, i));
            let li = ps[i].preferences@;
            let ki = pr[i].next as int;
            assert(pr[i].id == ps[i].id);
            assert(is_valid_list(li, responder_ids(rs)));
            lemma_rank_of_entry(li, ki);
            let x = other[ps[i].id];
            if let Some(k) = rank_of(li, x) {
                lemma_rank_of_some(li, x);
                if k < ki {
                    lemma_unavoidable_at(pr, ps, rs, other, i, k);
                }
            }
        }
    }
}

/// The ranks a responder built from its translated list agree with its list.
proof fn lemma_ranks_match(
    ps: Seq<ProposerInput>,
    rs: Seq<ResponderInput>,
    j: int,
    positions: Seq<usize>,
    r: Responder,
)
    requires
        proposer_ids(ps).no_duplicates(),
        0 <= j < rs.len(),
        is_valid_list(rs[j].preferences@, proposer_ids(ps)),
        positions.len() == rs[j].preferences@.len(),
        forall|k: int|
            0 <= k < positions.len() ==> (#[trigger] positions[k]) < ps.len() && proposer_ids(ps)[positions[k] as int]
                == rs[j].preferences@[k],
        r.limit == positions.len(),
        r.ranks@.len() == ps.len(),
        forall|k: int| 0 <= k < positions.len() ==> #[trigger] r.ranks@[positions[k] as int] == k,
        forall|q: int| 0 <= q < ps.len() ==> (#[trigger] r.ranks@[q]) <= r.limit,
        forall|q: int| 0 <= q < ps.len() && (#[trigger] r.ranks@[q]) < r.limit ==> positions[r.ranks@[q] as int] == q,
    ensures
        forall|q: int| 0 <= q < ps.len() ==> #[trigger] r.ranks@[q] as int == rank_entry(rs[j].preferences@, ps[q].id),
{
    let list = rs[j].preferences@;
    assert forall|q: int| 0 <= q < ps.len() implies #[trigger] r.ranks@[q] as int == rank_entry(list, ps[q].id) by {
        assert(proposer_ids(ps)[q] == ps[q].id);
        if r.ranks@[q] < r.limit {
            let k = r.ranks@[q] as int;
            assert(positions[k] == q);
            lemma_rank_of_entry(list, k);
        } else {
            assert forall|l: int| 0 <= l < list.len() implies list[l] != ps[q].id by {
                if list[l] == ps[q].id {
                    let w = positions[l] as int;
                    assert(proposer_ids(ps)[w] == ps[w].id);
                    lemma_ids_distinct_p(ps, w, q);
                }
            }
            lemma_rank_of_absent(list, ps[q].id);
        }
    }
}

/// Once every unassigned proposer has proposed, every proposer sits among the
/// proposals of the responder it courts.
proof fn lemma_proposed(
    ps: Seq<ProposerInput>,
    rs: Seq<ResponderInput>,
    pr: Seq<Proposer>,
    rr0: Seq<Responder>,
    unassigned: Seq<usize>,
    rr1: Seq<Responder>,
)
    requires
        between_rounds(ps, rs, pr, rr0, unassigned),
        pr.len() <= usize::MAX,
        rr1.len() == rr0.len(),
        forall|j: int, x: usize|
            0 <= j < rr1.len() ==> (#[trigger] rr1[j].proposals@.contains(x) <==> (rr0[j].accepted == Some(x) || (
            exists|v: int| 0 <= v < unassigned.len() && unassigned[v] == x && target(pr, x as int) == j))),
        forall|j: int| 0 <= j < rr1.len() ==> #[trigger] rr1[j].proposals@.no_duplicates(),
        forall|v: int|
            0 <= v < unassigned.len() ==> #[trigger] pr[unassigned[v] as int].next < pr[unassigned[v] as int].preferences@.len(),
    ensures
        all_proposed(pr, rr1),
{
    assert forall|q: int| 0 <= q < pr.len() implies (#[trigger] pr[q]).next < pr[q].preferences@.len() by {
        if unassigned.contains(q as usize) {
            let v = choose|v: int| 0 <= v < unassigned.len() && unassigned[v] == q as usize;
            assert(pr[unassigned[v] as int].next < pr[unassigned[v] as int].preferences@.len());
        } else {
            assert(held(pr, rr0, q));
        }
    }
    assert forall|j: int, x: usize| 0 <= j < rr1.len() implies (#[trigger] rr1[j].proposals@.contains(x) <==> (x
        < pr.len() && target(pr, x as int) == j)) by {
        if rr1[j].proposals@.contains(x) {
            if rr0[j].accepted == Some(x) {
            } else {
                let v = choose|v: int| 0 <= v < unassigned.len() && unassigned[v] == x && target(pr, x as int) == j;
                assert(unassigned[v] < pr.len());
            }
        }
        if x < pr.len() && target(pr, x as int) == j {
            if unassigned.contains(x) {
                let v = choose|v: int| 0 <= v < unassigned.len() && unassigned[v] == x;
                assert(exists|v: int| 0 <= v < unassigned.len() && unassigned[v] == x && target(pr, x as int) == j);
            } else {
                assert(held(pr, rr0, x as int));
            }
        }
    }
}

/// Index facts that make `index` a lookup from the ids in `ids` to positions.
spec fn indexes(index: Map<u32, usize>, ids: Seq<u32>) -> bool {
    &&& forall|k: int| 0 <= k < ids.len() ==> #[trigger] index.contains_key(ids[k]) && index[ids[k]] == k
    &&& forall|x: u32| #[trigger] index.contains_key(x) ==> ids.contains(x)
}

/// Builds the proposer arena, or `None` when some proposer's list is invalid.
fn proposer_arena(
    proposers_input: &[ProposerInput],
    responders_input: &[ResponderInput],
    responder_index: &HashMap<u32, usize>,
) -> (r: Option<Vec<Proposer>>)
    requires
        responder_ids(responders_input@).no_duplicates(),
        indexes(responder_index@, responder_ids(responders_input@)),
    ensures
        r is Some <==> forall|q: int|
            0 <= q < proposers_input@.len() ==> is_valid_list(
                #[trigger] proposers_input@[q].preferences@,
                responder_ids(responders_input@),
            ),
        r matches Some(pr) ==> proposers_linked(pr@, proposers_input@, responders_input@) && forall|q: int|
            0 <= q < pr@.len() ==> (#[trigger] pr@[q]).next == 0,
{
    let ghost ps = proposers_input@;
    let ghost rs = responders_input@;
    let nr = responders_input.len();
    let mut proposers: Vec<Proposer> = Vec::new();
    let mut i: usize = 0;
    while i < proposers_input.len()
        invariant
            nr == rs.len(),
            ps == proposers_input@,
            rs == responders_input@,
            i <= ps.len(),
            responder_ids(rs).no_duplicates(),
            indexes(responder_index@, responder_ids(rs)),
            proposers@.len() == i,
            forall|q: int| 0 <= q < i ==> is_valid_list(#[trigger] ps[q].preferences@, responder_ids(rs)),
            forall|q: int|
                0 <= q < i ==> {
                    &&& (#[trigger] proposers@[q]).id == ps[q].id
                    &&& proposers@[q].preferences@.len() == ps[q].preferences@.len()
                    &&& proposers@[q].next == 0
                },
            forall|q: int, k: int|
                0 <= q < i && 0 <= k < proposers@[q].preferences@.len() ==> {
                    &&& (#[trigger] proposers@[q].preferences@[k]) < rs.len()
                    &&& rs[proposers@[q].preferences@[k] as int].id == ps[q].preferences@[k]
                },
        decreases ps.len() - i,
    {
        match translate(&proposers_input[i].preferences, responder_index, nr, Ghost(responder_ids(rs))) {
            None => {
                return None;
            },
            Some(list) => {
                proof {
                    assert forall|k: int| 0 <= k < list@.len() implies rs[list@[k] as int].id == ps[i as int].preferences@[k] by {
                        assert(responder_ids(rs)[list@[k] as int] == rs[list@[k] as int].id);
                    }
                }
                proposers.push(Proposer::new(proposers_input[i].id, list));
            },
        }
        i += 1;
    }
    proof {
        assert(i == ps.len());
        assert forall|q: int| 0 <= q < proposers@.len() implies {
            &&& (#[trigger] proposers@[q]).id == ps[q].id
            &&& proposers@[q].preferences@.len() == ps[q].preferences@.len()
            &&& proposers@[q].next <= proposers@[q].preferences@.len()
        } by {
            assert(proposers@[q].id == ps[q].id);
        }
        assert(proposers_linked(proposers@, ps, rs));
    }
    Some(proposers)
}

/// Builds the responder arena, or `None` when some responder's list is invalid.
fn responder_arena(
    proposers_input: &[ProposerInput],
    responders_input: &[ResponderInput],
    proposer_index: &HashMap<u32, usize>,
) -> (r: Option<Vec<Responder>>)
    requires
        proposer_ids(proposers_input@).no_duplicates(),
        indexes(proposer_index@, proposer_ids(proposers_input@)),
    ensures
        r is Some <==> forall|j: int|
            0 <= j < responders_input@.len() ==> is_valid_list(
                #[trigger] responders_input@[j].preferences@,
                proposer_ids(proposers_input@),
            ),
        r matches Some(rr) ==> responders_linked(rr@, proposers_input@, responders_input@) && forall|j: int|
            0 <= j < rr@.len() ==> #[trigger] rr@[j].accepted is None && rr@[j].proposals@.len() == 0,
{
    let ghost ps = proposers_input@;
    let ghost rs = responders_input@;
    let np = proposers_input.len();
    let mut responders: Vec<Responder> = Vec::new();
    let mut i: usize = 0;
    while i < responders_input.len()
        invariant
            np == ps.len(),
            ps == proposers_input@,
            rs == responders_input@,
            i <= rs.len(),
            proposer_ids(ps).no_duplicates(),
            indexes(proposer_index@, proposer_ids(ps)),
            responders@.len() == i,
            forall|j: int| 0 <= j < i ==> is_valid_list(#[trigger] rs[j].preferences@, proposer_ids(ps)),
            forall|j: int|
                0 <= j < i ==> {
                    &&& (#[trigger] responders@[j]).id == rs[j].id
                    &&& responders@[j].limit == rs[j].preferences@.len()
                    &&& responders@[j].ranks@.len() == ps.len()
                    &&& responders@[j].accepted is None
                    &&& responders@[j].proposals@.len() == 0
                },
            forall|j: int, q: int|
                0 <= j < i && 0 <= q < ps.len() ==> (#[trigger] responders@[j].ranks@[q]) as int == rank_entry(
                    rs[j].preferences@,
                    ps[q].id,
                ),
        decreases rs.len() - i,
    {
        match translate(&responders_input[i].preferences, proposer_index, np, Ghost(proposer_ids(ps))) {
            None => {
                return None;
            },
            Some(list) => {
                proof {
                    assert forall|a: int, b: int| 0 <= a < list@.len() && 0 <= b < list@.len() && a != b implies list@[a]
                        != list@[b] by {
                        assert(rs[i as int].preferences@.no_duplicates());
                    }
                }
                let responder = Responder::new(responders_input[i].id, &list, np);
                proof {
                    lemma_ranks_match(ps, rs, i as int, list@, responder);
                }
                responders.push(responder);
            },
        }
        i += 1;
    }
    proof {
        assert(i == rs.len());
        assert(responders_linked(responders@, ps, rs));
    }
    Some(responders)
}

/// Every unassigned proposer proposes to the best responder that has not
/// rejected it; fails if one has no such responder left.
fn propose_round(
    proposers: &Vec<Proposer>,
    responders: &mut Vec<Responder>,
    unassigned: &Vec<usize>,
    ps: Ghost<Seq<ProposerInput>>,
    rs: Ghost<Seq<ResponderInput>>,
) -> (r: Result<(), MatchingError>)
    requires
        responder_ids(rs@).no_duplicates(),
        between_rounds(ps@, rs@, proposers@, old(responders)@, unassigned@),
    ensures
        final(responders)@.len() == old(responders)@.len(),
        forall|j: int|
            0 <= j < old(responders)@.len() ==> same_ranking(old(responders)@[j], #[trigger] final(responders)@[j])
                && final(responders)@[j].accepted == old(responders)@[j].accepted,
        r is Ok ==> all_proposed(proposers@, final(responders)@),
        r matches Err(e) ==> exists|q: int|
            0 <= q < ps@.len() && e == MatchingError::NoStableMatching((#[trigger] ps@[q]).id)
                && !is_complete_market(ps@, rs@),
{
    let ghost pr0 = proposers@;
    let ghost rr0 = responders@;
    proof {
        assert(pr0.len() == proposers.len());
        assert forall|j: int| 0 <= j < rr0.len() implies #[trigger] rr0[j].proposals@.no_duplicates() by {
            if let Some(a) = rr0[j].accepted {
                assert(rr0[j].proposals@ == seq![a]);
            } else {
                assert(rr0[j].proposals@.len() == 0);
            }
        }
    }
    let mut u: usize = 0;
    while u < unassigned.len()
        invariant
            responder_ids(rs@).no_duplicates(),
            between_rounds(ps@, rs@, pr0, rr0, unassigned@),
            proposers@ == pr0,
            rr0 == old(responders)@,
            pr0.len() <= usize::MAX,
            u <= unassigned@.len(),
            responders@.len() == rr0.len(),
            forall|j: int|
                0 <= j < rr0.len() ==> same_ranking(rr0[j], #[trigger] responders@[j]) && responders@[j].accepted
                    == rr0[j].accepted,
            forall|j: int, x: usize|
                0 <= j < rr0.len() ==> (#[trigger] responders@[j].proposals@.contains(x) <==> (rr0[j].accepted == Some(
                    x,
                ) || (exists|v: int| 0 <= v < u && unassigned@[v] == x && target(pr0, x as int) == j))),
            forall|j: int| 0 <= j < rr0.len() ==> #[trigger] responders@[j].proposals@.no_duplicates(),
            forall|v: int|
                0 <= v < u ==> #[trigger] pr0[unassigned@[v] as int].next < pr0[unassigned@[v] as int].preferences@.len(),
        decreases unassigned@.len() - u,
    {
        let q = unassigned[u];
        proof {
            assert(unassigned@[u as int] < pr0.len());
            assert(proposers@[q as int].id == ps@[q as int].id);
        }
        match proposers[q].get_preference() {
            Err(e) => {
                proof {
                    lemma_exhausted(ps@, rs@, pr0, rr0, unassigned@, q as int);
                }
                return Err(e);
            },
            Ok(j) => {
                let ghost before = responders@;
                proof {
                    assert(proposers@[q as int].preferences@[proposers@[q as int].next as int] < rs@.len());
                    assert(target(pr0, q as int) == j);
                    assert(!held(pr0, rr0, q as int));
                    assert(!before[j as int].proposals@.contains(q)) by {
                        if before[j as int].proposals@.contains(q) {
                            if rr0[j as int].accepted != Some(q) {
                                let v = choose|v: int| 0 <= v < u && unassigned@[v] == q && target(pr0, q as int) == j;
                                assert(unassigned@[v] == unassigned@[u as int]);
                            }
                        }
                    }
                }
                responders[j].add_proposal(q);
                proof {
                    lemma_proposal_added(pr0, rr0, unassigned@, before, responders@, u as int, j as int);
                }
            },
        }
        u += 1;
    }
    proof {
        lemma_proposed(ps@, rs@, pr0, rr0, unassigned@, responders@);
    }
    Ok(())
}

/// Bookkeeping for one proposal added during the propose phase.
proof fn lemma_proposal_added(
    pr0: Seq<Proposer>,
    rr0: Seq<Responder>,
    unassigned: Seq<usize>,
    before: Seq<Responder>,
    after: Seq<Responder>,
    u: int,
    j: int,
)
    requires
        0 <= u < unassigned.len(),
        0 <= j < rr0.len(),
        before.len() == rr0.len(),
        target(pr0, unassigned[u] as int) == j,
        forall|j2: int, x: usize|
            0 <= j2 < rr0.len() ==> (#[trigger] before[j2].proposals@.contains(x) <==> (rr0[j2].accepted == Some(x)
                || (exists|v: int| 0 <= v < u && unassigned[v] == x && target(pr0, x as int) == j2))),
        forall|j2: int| 0 <= j2 < rr0.len() ==> #[trigger] before[j2].proposals@.no_duplicates(),
        !before[j].proposals@.contains(unassigned[u]),
        after.len() == before.len(),
        forall|j2: int| 0 <= j2 < rr0.len() && j2 != j ==> (#[trigger] after[j2]) == before[j2],
        after[j].proposals@ == before[j].proposals@.push(unassigned[u]),
    ensures
        forall|j2: int, x: usize|
            0 <= j2 < rr0.len() ==> (#[trigger] after[j2].proposals@.contains(x) <==> (rr0[j2].accepted == Some(x)
                || (exists|v: int| 0 <= v < u + 1 && unassigned[v] == x && target(pr0, x as int) == j2))),
        forall|j2: int| 0 <= j2 < rr0.len() ==> #[trigger] after[j2].proposals@.no_duplicates(),
{
    let q = unassigned[u];
    assert forall|j2: int, x: usize| 0 <= j2 < rr0.len() implies (#[trigger] after[j2].proposals@.contains(x) <==> (
    rr0[j2].accepted == Some(x) || (exists|v: int| 0 <= v < u + 1 && unassigned[v] == x && target(pr0, x as int) == j2))) by {
        if j2 != j {
            assert(after[j2] == before[j2]);
            if exists|v: int| 0 <= v < u + 1 && unassigned[v] == x && target(pr0, x as int) == j2 {
                let v = choose|v: int| 0 <= v < u + 1 && unassigned[v] == x && target(pr0, x as int) == j2;
                assert(v != u);
                assert(exists|v: int| 0 <= v < u && unassigned[v] == x && target(pr0, x as int) == j2);
            }
            if before[j2].proposals@.contains(x) && rr0[j2].accepted != Some(x) {
                let v = choose|v: int| 0 <= v < u && unassigned[v] == x && target(pr0, x as int) == j2;
                assert(exists|v: int| 0 <= v < u + 1 && unassigned[v] == x && target(pr0, x as int) == j2);
            }
        } else {
            if x == q {
                assert(unassigned[u] == x);
            } else {
                if exists|v: int| 0 <= v < u + 1 && unassigned[v] == x && target(pr0, x as int) == j2 {
                    let v = choose|v: int| 0 <= v < u + 1 && unassigned[v] == x && target(pr0, x as int) == j2;
                    assert(exists|v: int| 0 <= v < u && unassigned[v] == x && target(pr0, x as int) == j2);
                }
                if before[j2].proposals@.contains(x) && rr0[j2].accepted != Some(x) {
                    let v = choose|v: int| 0 <= v < u && unassigned[v] == x && target(pr0, x as int) == j2;
                    assert(exists|v: int| 0 <= v < u + 1 && unassigned[v] == x && target(pr0, x as int) == j2);
                }
            }
        }
    }
    assert forall|j2: int| 0 <= j2 < rr0.len() implies #[trigger] after[j2].proposals@.no_duplicates() by {
        if j2 != j {
            assert(after[j2] == before[j2]);
        } else {
            let s2 = after[j2].proposals@;
            let s1 = before[j2].proposals@;
            assert forall|a: int, b: int| 0 <= a < s2.len() && 0 <= b < s2.len() && a != b implies s2[a] != s2[b] by {
                if a < s2.len() - 1 && b < s2.len() - 1 {
                    assert(s1.no_duplicates());
                    assert(s2[a] == s1[a] && s2[b] == s1[b]);
                } else if a == s2.len() - 1 {
                    assert(s2[b] == s1[b]);
                    assert(s1.contains(s2[b]));
                } else {
                    assert(s2[a] == s1[a]);
                    assert(s1.contains(s2[a]));
                }
            }
        }
    }
}

/// Records one rejection for each proposer in `rejected`.
fn apply_rejections(proposers: &mut Vec<Proposer>, rejected: &Vec<usize>, all: &mut Vec<usize>)
    requires
        rejected@.no_duplicates(),
        forall|x: usize| #[trigger] rejected@.contains(x) ==> x < old(proposers)@.len() && old(proposers)@[x as int].next
            < old(proposers)@[x as int].preferences@.len() && !old(all)@.contains(x),
        old(all)@.no_duplicates(),
        forall|u: int| 0 <= u < old(all)@.len() ==> (#[trigger] old(all)@[u]) < old(proposers)@.len(),
    ensures
        steps_from(old(proposers)@, final(proposers)@, rejected@, rejected@.len() as int),
        forall|x: usize| #[trigger] final(all)@.contains(x) <==> (old(all)@.contains(x) || listed(
            rejected@,
            rejected@.len() as int,
            x as int,
        )),
        final(all)@.no_duplicates(),
        forall|u: int| 0 <= u < final(all)@.len() ==> (#[trigger] final(all)@[u]) < old(proposers)@.len(),
        remaining(final(proposers)@) + final(all)@.len() == remaining(old(proposers)@) + old(all)@.len(),
{
    let ghost p0 = proposers@;
    let ghost a0 = all@;
    let ghost rj = rejected@;
    proof {
        assert(p0.len() == proposers.len());
    }
    let mut t: usize = 0;
    while t < rejected.len()
        invariant
            rj == rejected@,
            rj.no_duplicates(),
            t <= rj.len(),
            p0.len() <= usize::MAX,
            forall|x: usize| #[trigger] rj.contains(x) ==> x < p0.len() && p0[x as int].next < p0[x as int].preferences@.len()
                && !a0.contains(x),
            a0.no_duplicates(),
            forall|u: int| 0 <= u < a0.len() ==> (#[trigger] a0[u]) < p0.len(),
            steps_from(p0, proposers@, rj, t as int),
            forall|x: usize| #[trigger] all@.contains(x) <==> (a0.contains(x) || listed(rj, t as int, x as int)),
            all@.no_duplicates(),
            forall|u: int| 0 <= u < all@.len() ==> (#[trigger] all@[u]) < p0.len(),
            remaining(proposers@) + all@.len() == remaining(p0) + a0.len(),
        decreases rj.len() - t,
    {
        let q = rejected[t];
        let ghost before = proposers@;
        let ghost nu_t = all@;
        proof {
            assert(rj.contains(q));
            assert(!listed(rj, t as int, q as int)) by {
                if listed(rj, t as int, q as int) {
                    let s = choose|s: int| 0 <= s < t && rj[s] == q;
                    assert(rj[s] == rj[t as int]);
                }
            }
            assert(proposers@[q as int].id == p0[q as int].id);
            assert(!all@.contains(q));
        }
        proposers[q].add_rejection();
        all.push(q);
        proof {
            lemma_remaining_step(before, q as int, proposers@[q as int]);
            assert(proposers@ == before.update(q as int, proposers@[q as int]));
            lemma_rejection_step(p0, before, proposers@, rj, t as int, q as int);
            assert forall|x: usize| #[trigger] all@.contains(x) <==> (a0.contains(x) || listed(rj, t + 1, x as int)) by {
                assert(all@ == nu_t.push(q));
                if x == q {
                    assert(rj[t as int] == x);
                } else {
                    if listed(rj, t + 1, x as int) {
                        let s = choose|s: int| 0 <= s < t + 1 && rj[s] == x;
                        assert(listed(rj, t as int, x as int));
                    }
                    if listed(rj, t as int, x as int) {
                        let s = choose|s: int| 0 <= s < t && rj[s] == x;
                        assert(listed(rj, t + 1, x as int));
                    }
                }
            }
            assert forall|a: int, b: int| 0 <= a < all@.len() && 0 <= b < all@.len() && a != b implies all@[a] != all@[b] by {
                if a < nu_t.len() && b < nu_t.len() {
                    assert(nu_t.no_duplicates());
                } else if a == nu_t.len() {
                    assert(nu_t.contains(all@[b]));
                } else {
                    assert(nu_t.contains(all@[a]));
                }
            }
        }
        t += 1;
    }
}

/// Every responder keeps its best acceptable proposal and rejects the rest;
/// returns the rejected proposers.
fn reject_round(
    proposers: &mut Vec<Proposer>,
    responders: &mut Vec<Responder>,
    ps: Ghost<Seq<ProposerInput>>,
    rs: Ghost<Seq<ResponderInput>>,
    rr0: Ghost<Seq<Responder>>,
    un0: Ghost<Seq<usize>>,
) -> (rejected: Vec<usize>)
    requires
        proposer_ids(ps@).no_duplicates(),
        responder_ids(rs@).no_duplicates(),
        lists_valid(ps@, rs@),
        between_rounds(ps@, rs@, old(proposers)@, rr0@, un0@),
        old(responders)@.len() == rr0@.len(),
        forall|j: int|
            0 <= j < rr0@.len() ==> same_ranking(rr0@[j], #[trigger] old(responders)@[j]) && old(responders)@[j].accepted
                == rr0@[j].accepted,
        all_proposed(old(proposers)@, old(responders)@),
    ensures
        between_rounds(ps@, rs@, final(proposers)@, final(responders)@, rejected@),
        remaining(final(proposers)@) + rejected@.len() == remaining(old(proposers)@),
{
    let ghost pr0 = proposers@;
    let ghost rr1 = responders@;
    let mut rejected_all: Vec<usize> = Vec::new();
    proof {
        assert(pr0.len() == proposers.len());
    }
    let mut j: usize = 0;
    while j < responders.len()
        invariant
            proposer_ids(ps@).no_duplicates(),
            responder_ids(rs@).no_duplicates(),
            lists_valid(ps@, rs@),
            between_rounds(ps@, rs@, pr0, rr0@, un0@),
            rr1.len() == rr0@.len(),
            forall|j2: int|
                0 <= j2 < rr1.len() ==> same_ranking(rr0@[j2], #[trigger] rr1[j2]) && rr1[j2].accepted == rr0@[j2].accepted,
            all_proposed(pr0, rr1),
            j <= rr1.len(),
            pr0.len() <= usize::MAX,
            rejecting(ps@, rs@, pr0, rr1, proposers@, responders@, rejected_all@, j as int),
        decreases rr1.len() - j,
    {
        let ghost nu0 = rejected_all@;
        let ghost prj = proposers@;
        let ghost rrj = responders@;
        proof {
            assert(responders@[j as int] == rr1[j as int]);
            let ji = j as int;
            assert forall|i2: int| 0 <= i2 < responders@[ji].proposals@.len() implies #[trigger] responders@[ji].proposals@[i2]
                < responders@[ji].ranks@.len() by {
                let x = responders@[j as int].proposals@[i2];
                assert(rr1[j as int].proposals@.contains(x));
                assert(same_ranking(rr0@[j as int], rr1[j as int]));
                assert(rr0@[j as int].id == rs@[j as int].id);
            }
        }
        let rejected = responders[j].reject();
        proof {
            assert(decided(rr1[j as int], responders@[j as int]));
            lemma_steps_start(ps@, rs@, pr0, rr1, prj, rrj, nu0, j as int);
            assert forall|x: usize| #[trigger] rejected@.contains(x) implies x < prj.len() && prj[x as int].next
                < prj[x as int].preferences@.len() && !nu0.contains(x) && target(pr0, x as int) == j by {
                assert(rr1[j as int].proposals@.contains(x));
                assert(prj[x as int].id == pr0[x as int].id);
                if nu0.contains(x) {
                    assert(rrj[j as int] == rr1[j as int]);
                }
            }
        }
        apply_rejections(proposers, &rejected, &mut rejected_all);
        proof {
            lemma_steps_compose(pr0, prj, proposers@, nu0, rejected@, rejected_all@);
            lemma_reject_phase_step(ps@, rs@, pr0, rr1, prj, rrj, nu0, proposers@, responders@, rejected_all@, rejected@, j as int);
        }
        j += 1;
    }
    proof {
        lemma_round_end(ps@, rs@, pr0, rr0@, un0@, rr1, proposers@, responders@, rejected_all@);
    }
    rejected_all
}

/// Sends each proposer to the responder it courts.
fn collect_matching(
    proposers: &Vec<Proposer>,
    responders: &Vec<Responder>,
    ps: Ghost<Seq<ProposerInput>>,
    rs: Ghost<Seq<ResponderInput>>,
) -> (m: HashMap<ProposerId, ResponderId>)
    requires
        proposer_ids(ps@).no_duplicates(),
        proposers_linked(proposers@, ps@, rs@),
        responders_linked(responders@, ps@, rs@),
        forall|q: int| 0 <= q < proposers@.len() ==> (#[trigger] proposers@[q]).next < proposers@[q].preferences@.len(),
    ensures
        maps_to_targets(ps@, rs@, proposers@, m@),
        m@.dom() == proposer_ids(ps@).to_set(),
{
    broadcast use vstd::std_specs::hash::group_hash_axioms;

    let np = proposers.len();
    let mut m: HashMap<ProposerId, ResponderId> = HashMap::new();
    let mut q: usize = 0;
    while q < np
        invariant
            np == ps@.len(),
            proposer_ids(ps@).no_duplicates(),
            proposers_linked(proposers@, ps@, rs@),
            responders_linked(responders@, ps@, rs@),
            forall|q: int| 0 <= q < proposers@.len() ==> (#[trigger] proposers@[q]).next < proposers@[q].preferences@.len(),
            q <= np,
            forall|q2: int|
                0 <= q2 < q ==> #[trigger] m@.contains_key(ps@[q2].id) && m@[ps@[q2].id] == rs@[target(proposers@, q2)].id,
            forall|x: u32| #[trigger] m@.contains_key(x) ==> exists|q2: int| 0 <= q2 < q && ps@[q2].id == x,
        decreases np - q,
    {
        proof {
            assert(proposers@[q as int].id == ps@[q as int].id);
            assert(proposers@[q as int].preferences@[proposers@[q as int].next as int] < rs@.len());
            assert(responders@[target(proposers@, q as int)].id == rs@[target(proposers@, q as int)].id);
        }
        let j = proposers[q].preferences[proposers[q].next];
        let ghost m0 = m@;
        m.insert(proposers[q].id, responders[j].id);
        proof {
            assert forall|q2: int| 0 <= q2 < q + 1 implies #[trigger] m@.contains_key(ps@[q2].id) && m@[ps@[q2].id]
                == rs@[target(proposers@, q2)].id by {
                if q2 < q {
                    if ps@[q2].id == ps@[q as int].id {
                        lemma_ids_distinct_p(ps@, q2, q as int);
                    }
                    assert(m0.contains_key(ps@[q2].id));
                }
            }
            assert forall|x: u32| #[trigger] m@.contains_key(x) implies exists|q2: int| 0 <= q2 < q + 1 && ps@[q2].id == x by {
                if x != ps@[q as int].id {
                    assert(m0.contains_key(x));
                    let q2 = choose|q2: int| 0 <= q2 < q && ps@[q2].id == x;
                    assert(0 <= q2 < q + 1 && ps@[q2].id == x);
                }
            }
        }
        q += 1;
    }
    proof {
        assert(m@.dom() =~= proposer_ids(ps@).to_set()) by {
            assert forall|x: u32| m@.dom().contains(x) implies proposer_ids(ps@).to_set().contains(x) by {
                let q2 = choose|q2: int| 0 <= q2 < np && ps@[q2].id == x;
                assert(proposer_ids(ps@)[q2] == x);
            }
            assert forall|x: u32| proposer_ids(ps@).to_set().contains(x) implies m@.dom().contains(x) by {
                let q2 = choose|q2: int| 0 <= q2 < proposer_ids(ps@).len() && proposer_ids(ps@)[q2] == x;
                assert(m@.contains_key(ps@[q2].id));
            }
        }
    }
    m
}

/// Checks the lists and builds both arenas, or fails as the inputs call for:
/// `InvalidPreferenceList` for an invalid list, else `NoStableMatching` for
/// the first proposer with an empty list.
fn prepare(
    proposers_input: &[ProposerInput],
    responders_input: &[ResponderInput],
) -> (r: Result<(Vec<Proposer>, Vec<Responder>), MatchingError>)
    requires
        proposer_ids(proposers_input@).no_duplicates(),
        responder_ids(responders_input@).no_duplicates(),
    ensures
        (r == Err::<(Vec<Proposer>, Vec<Responder>), MatchingError>(MatchingError::InvalidPreferenceList)) <==> !lists_valid(
            proposers_input@,
            responders_input@,
        ),
        lists_valid(proposers_input@, responders_input@) ==> forall|i: int|
            #![trigger proposers_input@[i]]
            0 <= i < proposers_input@.len() && proposers_input@[i].preferences@.len() == 0 && (forall|l: int|
                0 <= l < i ==> proposers_input@[l].preferences@.len() > 0) ==> r == Err::<
                (Vec<Proposer>, Vec<Responder>),
                MatchingError,
            >(MatchingError::NoStableMatching(proposers_input@[i].id)),
        r matches Err(MatchingError::NoStableMatching(id)) ==> {
            &&& lists_valid(proposers_input@, responders_input@)
            &&& !is_complete_market(proposers_input@, responders_input@)
            &&& proposer_ids(proposers_input@).contains(id)
        },
        r matches Ok((pr, rr)) ==> {
            &&& lists_valid(proposers_input@, responders_input@)
            &&& forall|l: int| 0 <= l < proposers_input@.len() ==> (#[trigger] proposers_input@[l].preferences@.len()) > 0
            &&& proposers_linked(pr@, proposers_input@, responders_input@)
            &&& forall|q: int| 0 <= q < pr@.len() ==> (#[trigger] pr@[q]).next == 0
            &&& responders_linked(rr@, proposers_input@, responders_input@)
            &&& forall|j: int| 0 <= j < rr@.len() ==> #[trigger] rr@[j].accepted is None && rr@[j].proposals@.len() == 0
        },
{
    let ghost ps = proposers_input@;
    let ghost rs = responders_input@;
    let np = proposers_input.len();
    proof {
        assert(ps.map_values(|a: ProposerInput| a.agent_id()) =~= proposer_ids(ps));
        assert(rs.map_values(|a: ResponderInput| a.agent_id()) =~= responder_ids(rs));
    }
    let proposer_index = index_by_id(proposers_input);
    let responder_index = index_by_id(responders_input);
    let proposers = match proposer_arena(proposers_input, responders_input, &responder_index) {
        None => {
            return Err(MatchingError::InvalidPreferenceList);
        },
        Some(pr) => pr,
    };
    let responders = match responder_arena(proposers_input, responders_input, &proposer_index) {
        None => {
            return Err(MatchingError::InvalidPreferenceList);
        },
        Some(rr) => rr,
    };
    // A proposer with nobody to propose to fails the run at once.
    let mut i: usize = 0;
    while i < np
        invariant
            np == ps.len(),
            ps == proposers_input@,
            rs == responders_input@,
            lists_valid(ps, rs),
            i <= np,
            forall|l: int| 0 <= l < i ==> (#[trigger] ps[l].preferences@.len()) > 0,
        decreases np - i,
    {
        if proposers_input[i].preferences.len() == 0 {
            proof {
                if is_complete_market(ps, rs) {
                    assert(responder_ids(rs)[0] == rs[0].id);
                    assert(ps[i as int].preferences@.contains(responder_ids(rs)[0]));
                }
                assert(proposer_ids(ps)[i as int] == ps[i as int].id);
                assert forall|i2: int|
                    #![trigger proposers_input@[i2]]
                    0 <= i2 < proposers_input@.len() && proposers_input@[i2].preferences@.len() == 0 && (forall|l: int|
                        0 <= l < i2 ==> proposers_input@[l].preferences@.len() > 0) implies i2 == i by {
                    if i2 < i {
                        assert(ps[i2].preferences@.len() > 0);
                    } else if i2 > i {
                        assert(ps[i as int].preferences@.len() > 0);
                    }
                }
            }
            return Err(MatchingError::NoStableMatching(proposers_input[i].id));
        }
        i += 1;
    }
    Ok((proposers, responders))
}

/// Runs deferred acceptance with the proposers proposing.
///
/// Lists are checked first: a list that names an unknown agent or names one
/// twice gives `InvalidPreferenceList`. A proposer with an empty list, or
/// one that every responder on its list has rejected, gives
/// `NoStableMatching` with its id. Otherwise every proposer is matched to a
/// distinct responder and no pair blocks the result; in a complete market the
/// result is the stable matching that is best for every proposer.
pub fn stable_matching(
    proposers_input: &[ProposerInput],
    responders_input: &[ResponderInput],
) -> (r: Result<HashMap<ProposerId, ResponderId>, MatchingError>)
    requires
        proposer_ids(proposers_input@).no_duplicates(),
        responder_ids(responders_input@).no_duplicates(),
    ensures
        (r == Err::<HashMap<ProposerId, ResponderId>, MatchingError>(MatchingError::InvalidPreferenceList)) <==> !lists_valid(
            proposers_input@,
            responders_input@,
        ),
        lists_valid(proposers_input@, responders_input@) ==> forall|i: int|
            #![trigger proposers_input@[i]]
            0 <= i < proposers_input@.len() && proposers_input@[i].preferences@.len() == 0 && (forall|l: int|
                0 <= l < i ==> proposers_input@[l].preferences@.len() > 0) ==> r == Err::<
                HashMap<ProposerId, ResponderId>,
                MatchingError,
            >(MatchingError::NoStableMatching(proposers_input@[i].id)),
        r matches Err(MatchingError::NoStableMatching(id)) ==> {
            &&& lists_valid(proposers_input@, responders_input@)
            &&& !is_complete_market(proposers_input@, responders_input@)
            &&& proposer_ids(proposers_input@).contains(id)
        },
        is_complete_market(proposers_input@, responders_input@) ==> r is Ok,
        r matches Ok(m) ==> {
            &&& lists_valid(proposers_input@, responders_input@)
            &&& m@.dom() == proposer_ids(proposers_input@).to_set()
            &&& matches_every_proposer(proposers_input@, responders_input@, m@)
            &&& has_no_blocking_pair(proposers_input@, responders_input@, m@)
            &&& proposers_input@.len() == responders_input@.len() ==> is_stable_matching(
                proposers_input@,
                responders_input@,
                m@,
            )
            &&& is_complete_market(proposers_input@, responders_input@) ==> is_proposer_optimal(
                proposers_input@,
                responders_input@,
                m@,
            )
        },
{
    let ghost ps = proposers_input@;
    let ghost rs = responders_input@;
    let np = proposers_input.len();
    let (mut proposers, mut responders) = match prepare(proposers_input, responders_input) {
        Err(e) => {
            return Err(e);
        },
        Ok(arenas) => arenas,
    };
    let mut unassigned: Vec<usize> = Vec::new();
    let mut i: usize = 0;
    while i < np
        invariant
            i <= np,
            unassigned@.len() == i,
            forall|u: int| 0 <= u < i ==> (#[trigger] unassigned@[u]) == u,
        decreases np - i,
    {
        unassigned.push(i);
        i += 1;
    }
    proof {
        lemma_first_round(ps, rs, proposers@, responders@, unassigned@);
    }
    loop
        invariant
            ps == proposers_input@,
            rs == responders_input@,
            proposer_ids(ps).no_duplicates(),
            responder_ids(rs).no_duplicates(),
            lists_valid(ps, rs),
            forall|l: int| 0 <= l < ps.len() ==> (#[trigger] ps[l].preferences@.len()) > 0,
            between_rounds(ps, rs, proposers@, responders@, unassigned@),
        decreases remaining(proposers@),
    {
        let ghost pr0 = proposers@;
        let ghost rr0 = responders@;
        let proposed = propose_round(&proposers, &mut responders, &unassigned, Ghost(ps), Ghost(rs));
        if let Err(e) = proposed {
            proof {
                let q = choose|q: int| 0 <= q < ps.len() && e == MatchingError::NoStableMatching((#[trigger] ps[q]).id)
                    && !is_complete_market(ps, rs);
                assert(proposer_ids(ps)[q] == ps[q].id);
            }
            return Err(e);
        }
        let rejected = reject_round(&mut proposers, &mut responders, Ghost(ps), Ghost(rs), Ghost(rr0), Ghost(unassigned@));
        if rejected.len() == 0 {
            proof {
                assert forall|q: int| 0 <= q < proposers@.len() implies (#[trigger] proposers@[q]).next
                    < proposers@[q].preferences@.len() by {
                    assert(!rejected@.contains(q as usize));
                    assert(held(proposers@, responders@, q));
                }
            }
            let m = collect_matching(&proposers, &responders, Ghost(ps), Ghost(rs));
            proof {
                lemma_final(ps, rs, proposers@, responders@, rejected@, m@);
            }
            return Ok(m);
        }
        proof {
            assert forall|q: int| 0 <= q < proposers@.len() implies (#[trigger] proposers@[q]).next <= proposers@[q].preferences@.len() by {
                assert(proposers@[q].id == ps[q].id);
            }
            lemma_remaining_nonneg(proposers@);
        }
        unassigned = rejected;
    }
}

/// Runs deferred acceptance in rounds that keep no responder state: in each
/// round every proposer proposes to the best responder that has not rejected
/// it so far, every responder accepts the best acceptable proposal of that
/// round alone, and the others are rejected. The run ends with the first
/// round in which every proposer is accepted. Its contract is that of
/// `stable_matching`.
pub fn stable_matching_recomputed(
    proposers_input: &[ProposerInput],
    responders_input: &[ResponderInput],
) -> (r: Result<HashMap<ProposerId, ResponderId>, MatchingError>)
    requires
        proposer_ids(proposers_input@).no_duplicates(),
        responder_ids(responders_input@).no_duplicates(),
    ensures
        (r == Err::<HashMap<ProposerId, ResponderId>, MatchingError>(MatchingError::InvalidPreferenceList)) <==> !lists_valid(
            proposers_input@,
            responders_input@,
        ),
        lists_valid(proposers_input@, responders_input@) ==> forall|i: int|
            #![trigger proposers_input@[i]]
            0 <= i < proposers_input@.len() && proposers_input@[i].preferences@.len() == 0 && (forall|l: int|
                0 <= l < i ==> proposers_input@[l].preferences@.len() > 0) ==> r == Err::<
                HashMap<ProposerId, ResponderId>,
                MatchingError,
            >(MatchingError::NoStableMatching(proposers_input@[i].id)),
        r matches Err(MatchingError::NoStableMatching(id)) ==> {
            &&& lists_valid(proposers_input@, responders_input@)
            &&& !is_complete_market(proposers_input@, responders_input@)
            &&& proposer_ids(proposers_input@).contains(id)
        },
        is_complete_market(proposers_input@, responders_input@) ==> r is Ok,
        r matches Ok(m) ==> {
            &&& lists_valid(proposers_input@, responders_input@)
            &&& m@.dom() == proposer_ids(proposers_input@).to_set()
            &&& matches_every_proposer(proposers_input@, responders_input@, m@)
            &&& has_no_blocking_pair(proposers_input@, responders_input@, m@)
            &&& proposers_input@.len() == responders_input@.len() ==> is_stable_matching(
                proposers_input@,
                responders_input@,
                m@,
            )
            &&& is_complete_market(proposers_input@, responders_input@) ==> is_proposer_optimal(
                proposers_input@,
                responders_input@,
                m@,
            )
        },
{
    let ghost ps = proposers_input@;
    let ghost rs = responders_input@;
    let np = proposers_input.len();
    let nr = responders_input.len();
    let (mut proposers, responders) = match prepare(proposers_input, responders_input) {
        Err(e) => {
            return Err(e);
        },
        Ok(arenas) => arenas,
    };
    proof {
        assert(recomputed_state(ps, rs, proposers@, responders@));
    }
    loop
        invariant
            ps == proposers_input@,
            rs == responders_input@,
            np == ps.len(),
            nr == rs.len(),
            proposer_ids(ps).no_duplicates(),
            responder_ids(rs).no_duplicates(),
            lists_valid(ps, rs),
            forall|l: int| 0 <= l < ps.len() ==> (#[trigger] ps[l].preferences@.len()) > 0,
            recomputed_state(ps, rs, proposers@, responders@),
        decreases remaining(proposers@),
    {
        let ghost pr0 = proposers@;
        // Propose: every proposer courts its best remaining responder.
        let mut proposals: Vec<Vec<usize>> = Vec::new();
        let mut j: usize = 0;
        while j < nr
            invariant
                j <= nr,
                proposals@.len() == j,
                forall|j2: int| 0 <= j2 < j ==> (#[trigger] proposals@[j2])@.len() == 0,
            decreases nr - j,
        {
            proposals.push(Vec::new());
            j += 1;
        }
        let mut q: usize = 0;
        while q < np
            invariant
                ps == proposers_input@,
                np == ps.len(),
                nr == rs.len(),
                rs == responders_input@,
                lists_valid(ps, rs),
                forall|l: int| 0 <= l < ps.len() ==> (#[trigger] ps[l].preferences@.len()) > 0,
                responder_ids(rs).no_duplicates(),
                recomputed_state(ps, rs, pr0, responders@),
                proposers@ == pr0,
                q <= np,
                proposals@.len() == nr,
                forall|j2: int, x: usize|
                    0 <= j2 < nr ==> (#[trigger] proposals@[j2]@.contains(x) <==> (x < q && target(pr0, x as int)
                        == j2)),
                forall|q2: int| 0 <= q2 < q ==> (#[trigger] pr0[q2]).next < pr0[q2].preferences@.len(),
            decreases np - q,
        {
            proof {
                assert((#[trigger] pr0[q as int]).id == ps[q as int].id);
            }
            match proposers[q].get_preference() {
                Err(e) => {
                    proof {
                        lemma_exhausted_witnessed(ps, rs, pr0, responders@, q as int);
                        assert(proposer_ids(ps)[q as int] == ps[q as int].id);
                    }
                    return Err(e);
                },
                Ok(j) => {
                    let ghost before = proposals@;
                    proof {
                        assert(pr0[q as int].preferences@[pr0[q as int].next as int] < rs.len());
                        assert(target(pr0, q as int) == j);
                    }
                    proposals[j].push(q);
                    proof {
                        assert forall|j2: int, x: usize| 0 <= j2 < nr implies (#[trigger] proposals@[j2]@.contains(x) <==> (x
                            < q + 1 && target(pr0, x as int) == j2)) by {
                            if j2 != j {
                                assert(proposals@[j2] == before[j2]);
                            } else {
                                assert(proposals@[j2]@ == before[j2]@.push(q));
                            }
                        }
                    }
                },
            }
            q += 1;
        }
        // Respond: every responder keeps the best acceptable proposal of this round.
        let mut answers: Vec<Option<usize>> = Vec::new();
        let mut j: usize = 0;
        while j < nr
            invariant
                ps == proposers_input@,
                np == ps.len(),
                nr == rs.len(),
                recomputed_state(ps, rs, pr0, responders@),
                proposers@ == pr0,
                proposals@.len() == nr,
                forall|j2: int, x: usize|
                    0 <= j2 < nr ==> (#[trigger] proposals@[j2]@.contains(x) <==> (x < np && target(pr0, x as int)
                        == j2)),
                j <= nr,
                answers@.len() == j,
                forall|j2: int| 0 <= j2 < j ==> responds(responders@[j2], proposals@[j2]@, #[trigger] answers@[j2]),
            decreases nr - j,
        {
            proof {
                assert((#[trigger] responders@[j as int]).id == rs[j as int].id);
                assert forall|i: int| 0 <= i < proposals@[j as int]@.len() implies (#[trigger] proposals@[j as int]@[i])
                    < responders@[j as int].ranks@.len() by {
                    assert(proposals@[j as int]@.contains(proposals@[j as int]@[i]));
                }
            }
            let answer = responders[j].get_response(&proposals[j]);
            answers.push(answer);
            j += 1;
        }
        // Reject: whoever was not accepted records a rejection.
        let mut rejected: Vec<usize> = Vec::new();
        let mut q: usize = 0;
        while q < np
            invariant
                ps == proposers_input@,
                np == ps.len(),
                nr == rs.len(),
                recomputed_state(ps, rs, pr0, responders@),
                proposers@ == pr0,
                forall|q2: int| 0 <= q2 < np ==> (#[trigger] pr0[q2]).next < pr0[q2].preferences@.len(),
                answers@.len() == nr,
                q <= np,
                rejected@.no_duplicates(),
                forall|u: int| 0 <= u < rejected@.len() ==> (#[trigger] rejected@[u]) < q,
                forall|x: usize|
                    #[trigger] rejected@.contains(x) <==> (x < q && answers@[target(pr0, x as int)] != Some(x)),
            decreases np - q,
        {
            proof {
                assert((#[trigger] pr0[q as int]).id == ps[q as int].id);
                assert(pr0[q as int].preferences@[pr0[q as int].next as int] < rs.len());
            }
            let j = proposers[q].preferences[proposers[q].next];
            if answers[j] != Some(q) {
                let ghost before = rejected@;
                proof {
                    assert(!before.contains(q));
                }
                rejected.push(q);
                proof {
                    assert forall|a: int, b: int| 0 <= a < rejected@.len() && 0 <= b < rejected@.len() && a != b implies rejected@[a]
                        != rejected@[b] by {
                        if a < before.len() && b < before.len() {
                            assert(before.no_duplicates());
                        } else if a == before.len() {
                            assert(before[b] < q);
                        } else {
                            assert(before[a] < q);
                        }
                    }
                }
            }
            q += 1;
        }
        if rejected.len() == 0 {
            proof {
                assert forall|q2: int| 0 <= q2 < proposers@.len() implies #[trigger] answers@[target(proposers@, q2)]
                    == Some(q2 as usize) by {
                    if answers@[target(proposers@, q2)] != Some(q2 as usize) {
                        assert(rejected@.contains(q2 as usize));
                    }
                }
            }
            let m = collect_matching(&proposers, &responders, Ghost(ps), Ghost(rs));
            proof {
                lemma_recomputed_final(ps, rs, proposers@, responders@, answers@, m@);
            }
            return Ok(m);
        }
        let mut all: Vec<usize> = Vec::new();
        proof {
            assert forall|x: usize| #[trigger] rejected@.contains(x) implies x < proposers@.len() && proposers@[x as int].next
                < proposers@[x as int].preferences@.len() && !all@.contains(x) by {}
            assert(pr0.len() == proposers.len());
        }
        apply_rejections(&mut proposers, &rejected, &mut all);
        proof {
            assert forall|x: usize| #[trigger] rejected@.contains(x) <==> (x < pr0.len() && answers@[target(pr0, x as int)]
                != Some(x)) by {}
            lemma_recomputed_round(ps, rs, pr0, responders@, proposals@, answers@, rejected@, proposers@);
            assert(all@.contains(rejected@[0])) by {
                assert(listed(rejected@, rejected@.len() as int, rejected@[0] as int));
            }
            assert forall|q2: int| 0 <= q2 < proposers@.len() implies (#[trigger] proposers@[q2]).next
                <= proposers@[q2].preferences@.len() by {
                assert((#[trigger] proposers@[q2]).id == ps[q2].id);
            }
            lemma_remaining_nonneg(proposers@);
        }
    }
}

/// Some entry before position `t` of `s` is `q`.
spec fn listed(s: Seq<usize>, t: int, q: int) -> bool {
    exists|k: int| 0 <= k < t && s[k] == q as usize
}

/// `after` is `before` with one more rejection for each proposer listed in
/// the first `t` entries of `s`.
spec fn steps_from(before: Seq<Proposer>, after: Seq<Proposer>, s: Seq<usize>, t: int) -> bool {
    &&& after.len() == before.len()
    &&& forall|q: int|
        0 <= q < before.len() ==> {
            &&& (#[trigger] after[q]).id == before[q].id
            &&& after[q].preferences == before[q].preferences
            &&& after[q].next == before[q].next + (if listed(s, t, q) {
                1int
            } else {
                0int
            })
        }
}

proof fn lemma_rejection_step(prj: Seq<Proposer>, before: Seq<Proposer>, after: Seq<Proposer>, s: Seq<usize>, t: int, q: int)
    requires
        steps_from(prj, before, s, t),
        0 <= t < s.len(),
        s[t] == q as usize,
        0 <= q < before.len(),
        !listed(s, t, q),
        after == before.update(q, after[q]),
        after[q].id == before[q].id,
        after[q].preferences == before[q].preferences,
        after[q].next == before[q].next + 1,
        before.len() <= usize::MAX,
    ensures
        steps_from(prj, after, s, t + 1),
{
    assert forall|q2: int| 0 <= q2 < prj.len() implies {
        &&& (#[trigger] after[q2]).id == prj[q2].id
        &&& after[q2].preferences == prj[q2].preferences
        &&& after[q2].next == prj[q2].next + (if listed(s, t + 1, q2) {
            1int
        } else {
            0int
        })
    } by {
        assert(before[q2].id == prj[q2].id);
        if q2 == q {
            assert(listed(s, t + 1, q2));
        } else {
            if listed(s, t + 1, q2) {
                let k = choose|k: int| 0 <= k < t + 1 && s[k] == q2 as usize;
                assert(k != t);
                assert(listed(s, t, q2));
            }
            if listed(s, t, q2) {
                let k = choose|k: int| 0 <= k < t && s[k] == q2 as usize;
                assert(listed(s, t + 1, q2));
            }
        }
    }
}

proof fn lemma_steps_start(
    ps: Seq<ProposerInput>,
    rs: Seq<ResponderInput>,
    pr0: Seq<Proposer>,
    rr1: Seq<Responder>,
    prj: Seq<Proposer>,
    rrj: Seq<Responder>,
    nu0: Seq<usize>,
    j: int,
)
    requires
        rejecting(ps, rs, pr0, rr1, prj, rrj, nu0, j),
        pr0.len() <= usize::MAX,
    ensures
        steps_from(prj, prj, nu0, 0),
        steps_from(pr0, prj, nu0, nu0.len() as int),
{
    assert forall|q: int| 0 <= q < prj.len() implies !#[trigger] listed(nu0, 0, q) by {}
    assert forall|q: int| 0 <= q < pr0.len() implies {
        &&& (#[trigger] prj[q]).id == pr0[q].id
        &&& prj[q].preferences == pr0[q].preferences
        &&& prj[q].next == pr0[q].next + (if listed(nu0, nu0.len() as int, q) {
            1int
        } else {
            0int
        })
    } by {
        assert(prj[q].id == pr0[q].id);
        if nu0.contains(q as usize) {
            let k = choose|k: int| 0 <= k < nu0.len() && nu0[k] == q as usize;
            assert(listed(nu0, nu0.len() as int, q));
        }
        if listed(nu0, nu0.len() as int, q) {
            let k = choose|k: int| 0 <= k < nu0.len() && nu0[k] == q as usize;
            assert(nu0.contains(q as usize));
        }
    }
}

/// Handling responder `j` of the reject phase keeps the phase's bookkeeping.
proof fn lemma_reject_phase_step(
    ps: Seq<ProposerInput>,
    rs: Seq<ResponderInput>,
    pr0: Seq<Proposer>,
    rr1: Seq<Responder>,
    prj: Seq<Proposer>,
    rrj: Seq<Responder>,
    nu0: Seq<usize>,
    pr: Seq<Proposer>,
    rr: Seq<Responder>,
    nu: Seq<usize>,
    rj: Seq<usize>,
    j: int,
)
    requires
        rejecting(ps, rs, pr0, rr1, prj, rrj, nu0, j),
        all_proposed(pr0, rr1),
        0 <= j < rr1.len(),
        pr0.len() <= usize::MAX,
        rrj[j] == rr1[j],
        rr == rrj.update(j, rr[j]),
        decided(rr1[j], rr[j]),
        forall|x: usize| #[trigger] rj.contains(x) <==> rr1[j].proposals@.contains(x) && rr[j].accepted != Some(x),
        forall|x: usize| #[trigger] rj.contains(x) ==> x < pr0.len() && target(pr0, x as int) == j && !nu0.contains(x),
        forall|x: usize| #[trigger] nu.contains(x) <==> (nu0.contains(x) || listed(rj, rj.len() as int, x as int)),
        nu.no_duplicates(),
        forall|u: int| 0 <= u < nu.len() ==> (#[trigger] nu[u]) < pr0.len(),
        steps_from(prj, pr, rj, rj.len() as int),
        forall|q: int| 0 <= q < pr0.len() ==> (#[trigger] pr0[q]).next < pr0[q].preferences@.len(),
        remaining(pr) + nu.len() == remaining(prj) + nu0.len(),
    ensures
        rejecting(ps, rs, pr0, rr1, pr, rr, nu, j + 1),
{
    let np = pr0.len() as int;
    assert forall|q: int| 0 <= q < np implies {
        &&& (#[trigger] pr[q]).id == pr0[q].id
        &&& pr[q].preferences == pr0[q].preferences
        &&& pr[q].next == pr0[q].next + (if nu.contains(q as usize) {
            1int
        } else {
            0int
        })
        &&& (nu.contains(q as usize) <==> (target(pr0, q) < j + 1 && rr[target(pr0, q)].accepted != Some(
            q as usize,
        )))
    } by {
        assert(pr[q].id == prj[q].id);
        assert(prj[q].id == pr0[q].id);
        if listed(rj, rj.len() as int, q) {
            let k = choose|k: int| 0 <= k < rj.len() && rj[k] == q as usize;
            assert(rj.contains(q as usize));
        }
        if rj.contains(q as usize) {
            let k = choose|k: int| 0 <= k < rj.len() && rj[k] == q as usize;
            assert(listed(rj, rj.len() as int, q));
        }
        assert(pr0[q].id == ps[q].id);
        assert(pr0[q].preferences@[pr0[q].next as int] < rs.len());
        if target(pr0, q) == j {
            assert(rr1[j].proposals@.contains(q as usize));
        }
        if target(pr0, q) < j {
            assert(rr[target(pr0, q)] == rrj[target(pr0, q)]);
        }
    }
    assert(proposers_linked(pr, ps, rs)) by {
        assert forall|q: int| 0 <= q < pr.len() implies {
            &&& (#[trigger] pr[q]).id == ps[q].id
            &&& pr[q].preferences@.len() == ps[q].preferences@.len()
            &&& pr[q].next <= pr[q].preferences@.len()
        } by {
            assert(pr[q].id == pr0[q].id);
            assert(pr0[q].next < pr0[q].preferences@.len());
            assert(prj[q].id == ps[q].id);
        }
        assert forall|q: int, k: int| 0 <= q < pr.len() && 0 <= k < pr[q].preferences@.len() implies {
            &&& (#[trigger] pr[q].preferences@[k]) < rs.len()
            &&& rs[pr[q].preferences@[k] as int].id == ps[q].preferences@[k]
        } by {
            assert(pr[q].id == prj[q].id);
            assert(prj[q].id == ps[q].id);
            assert(prj[q].preferences@[k] == pr[q].preferences@[k]);
        }
    }
    assert forall|j2: int| 0 <= j2 < j + 1 implies decided(rr1[j2], #[trigger] rr[j2]) by {
        if j2 < j {
            assert(rr[j2] == rrj[j2]);
        }
    }
    assert forall|j2: int| j + 1 <= j2 < rr.len() implies (#[trigger] rr[j2]) == rr1[j2] by {
        assert(rr[j2] == rrj[j2]);
    }
}

proof fn lemma_steps_compose(
    pr0: Seq<Proposer>,
    prj: Seq<Proposer>,
    pr: Seq<Proposer>,
    nu0: Seq<usize>,
    rj: Seq<usize>,
    nu: Seq<usize>,
)
    requires
        steps_from(pr0, prj, nu0, nu0.len() as int),
        steps_from(prj, pr, rj, rj.len() as int),
    ensures
        forall|q: int| 0 <= q < pr0.len() ==> (#[trigger] pr[q]).id == pr0[q].id && pr[q].preferences == pr0[q].preferences,
{
    assert forall|q: int| 0 <= q < pr0.len() implies (#[trigger] pr[q]).id == pr0[q].id && pr[q].preferences == pr0[q].preferences by {
        assert(prj[q].id == pr0[q].id);
        assert(pr[q].id == prj[q].id);
    }
}

/// The state before the first round.
proof fn lemma_first_round(
    ps: Seq<ProposerInput>,
    rs: Seq<ResponderInput>,
    pr: Seq<Proposer>,
    rr: Seq<Responder>,
    un: Seq<usize>,
)
    requires
        proposers_linked(pr, ps, rs),
        forall|q: int| 0 <= q < pr.len() ==> (#[trigger] pr[q]).next == 0,
        responders_linked(rr, ps, rs),
        forall|j: int| 0 <= j < rr.len() ==> #[trigger] rr[j].accepted is None && rr[j].proposals@.len() == 0,
        forall|l: int| 0 <= l < ps.len() ==> (#[trigger] ps[l].preferences@.len()) > 0,
        un.len() == pr.len(),
        pr.len() <= usize::MAX,
        forall|u: int| 0 <= u < un.len() ==> (#[trigger] un[u]) == u,
    ensures
        between_rounds(ps, rs, pr, rr, un),
{
    let np = pr.len() as int;
    assert forall|q: int| 0 <= q < np implies (un.contains(q as usize) <==> !#[trigger] held(pr, rr, q)) by {
        assert(un[q] == q);
        assert(pr[q].id == ps[q].id);
        assert(ps[q].preferences@.len() > 0);
        assert(pr[q].preferences@[pr[q].next as int] < rs.len());
        assert(rr[pr[q].preferences@[pr[q].next as int] as int].accepted is None);
    }
    assert forall|a: int, b: int| 0 <= a < un.len() && 0 <= b < un.len() && a != b implies un[a] != un[b] by {
        assert(un[a] == a);
        assert(un[b] == b);
    }
    assert forall|u: int| 0 <= u < un.len() implies (#[trigger] un[u]) < pr.len() by {
        assert(un[u] == u);
    }
    assert forall|j: int| 0 <= j < rr.len() implies match #[trigger] rr[j].accepted {
        Some(a) => {
            &&& a < pr.len()
            &&& pr[a as int].next < pr[a as int].preferences@.len()
            &&& target(pr, a as int) == j
            &&& rr[j].ranks@[a as int] < rr[j].limit
            &&& rr[j].proposals@ == seq![a]
        },
        None => rr[j].proposals@.len() == 0,
    } by {
        assert(rr[j].accepted is None && rr[j].proposals@.len() == 0);
    }
    assert(rejections_justified(pr, rr));
    assert(rejections_unavoidable(pr, ps, rs));
}

/// Whoever rejected a proposer is courted by someone it ranks higher, unless
/// the proposer was unacceptable to it.
spec fn rejections_witnessed(pr: Seq<Proposer>, rr: Seq<Responder>) -> bool {
    forall|q: int, k: int|
        0 <= q < pr.len() && 0 <= k < pr[q].next ==> {
            let j = #[trigger] pr[q].preferences@[k] as int;
            ||| rr[j].ranks@[q] >= rr[j].limit
            ||| exists|w: int|
                0 <= w < pr.len() && pr[w].next < pr[w].preferences@.len() && target(pr, w) == j && rr[j].ranks@[w]
                    < rr[j].ranks@[q]
        }
}

/// The state between two rounds that recompute every proposal.
spec fn recomputed_state(ps: Seq<ProposerInput>, rs: Seq<ResponderInput>, pr: Seq<Proposer>, rr: Seq<Responder>) -> bool {
    &&& proposers_linked(pr, ps, rs)
    &&& responders_linked(rr, ps, rs)
    &&& rejections_witnessed(pr, rr)
    &&& rejections_unavoidable(pr, ps, rs)
}

/// `answer` is what responder `r` makes of `proposals`: the best acceptable
/// one, if any.
spec fn responds(r: Responder, proposals: Seq<usize>, answer: Option<usize>) -> bool {
    match answer {
        Some(b) => {
            &&& proposals.contains(b)
            &&& r.ranks@[b as int] < r.limit
            &&& forall|x: usize| #[trigger] proposals.contains(x) ==> r.ranks@[b as int] <= r.ranks@[x as int]
        },
        None => forall|x: usize| #[trigger] proposals.contains(x) ==> r.ranks@[x as int] >= r.limit,
    }
}

/// Some proposer other than `q` courts responder `j`.
spec fn courted_by_other(pr: Seq<Proposer>, j: int, q: int) -> bool {
    exists|w: int| 0 <= w < pr.len() && pr[w].next < pr[w].preferences@.len() && #[trigger] target(pr, w) == j && w != q
}

/// A proposer that every responder on its list has rejected shows the
/// market is not complete.
proof fn lemma_exhausted_witnessed(
    ps: Seq<ProposerInput>,
    rs: Seq<ResponderInput>,
    pr: Seq<Proposer>,
    rr: Seq<Responder>,
    q: int,
)
    requires
        recomputed_state(ps, rs, pr, rr),
        responder_ids(rs).no_duplicates(),
        0 <= q < pr.len(),
        pr[q].next == pr[q].preferences@.len(),
    ensures
        !is_complete_market(ps, rs),
{
    if is_complete_market(ps, rs) {
        let n = rs.len() as int;
        assert forall|j: int| 0 <= j < n implies #[trigger] courted_by_other(pr, j, q) by {
            assert(responder_ids(rs)[j] == rs[j].id);
            assert(ps[q].preferences@.contains(responder_ids(rs)[j]));
            let k = choose|k: int| 0 <= k < ps[q].preferences@.len() && ps[q].preferences@[k] == rs[j].id;
            assert((#[trigger] pr[q]).id == ps[q].id);
            let pos = pr[q].preferences@[k] as int;
            assert(pos < rs.len() && rs[pos].id == ps[q].preferences@[k]);
            lemma_ids_distinct_r(rs, pos, j);
            lemma_complete_acceptable(ps, rs, j, q);
            assert((#[trigger] rr[j]).id == rs[j].id);
            assert(rr[j].ranks@[q] as int == rank_entry(rs[j].preferences@, ps[q].id));
        }
        let s = Seq::new(
            n as nat,
            |j: int|
                choose|w: int|
                    0 <= w < pr.len() && pr[w].next < pr[w].preferences@.len() && #[trigger] target(pr, w) == j && w != q,
        );
        assert forall|k: int| 0 <= k < n implies 0 <= (#[trigger] s[k]) < n && s[k] != q && target(pr, s[k]) == k by {
            assert(courted_by_other(pr, k, q));
        }
        assert forall|a: int, b: int| 0 <= a < s.len() && 0 <= b < s.len() && a != b implies s[a] != s[b] by {
            assert(target(pr, s[a]) == a);
            assert(target(pr, s[b]) == b);
        }
        lemma_pigeonhole(s, n, q);
    }
}

/// One round that recomputes every proposal keeps the state good.
proof fn lemma_recomputed_round(
    ps: Seq<ProposerInput>,
    rs: Seq<ResponderInput>,
    pr0: Seq<Proposer>,
    rr: Seq<Responder>,
    proposals: Seq<Vec<usize>>,
    answers: Seq<Option<usize>>,
    rejected: Seq<usize>,
    pr: Seq<Proposer>,
)
    requires
        proposer_ids(ps).no_duplicates(),
        responder_ids(rs).no_duplicates(),
        lists_valid(ps, rs),
        recomputed_state(ps, rs, pr0, rr),
        pr0.len() <= usize::MAX,
        forall|q: int| 0 <= q < pr0.len() ==> (#[trigger] pr0[q]).next < pr0[q].preferences@.len(),
        proposals.len() == rr.len(),
        answers.len() == rr.len(),
        forall|j: int, x: usize|
            0 <= j < rr.len() ==> (#[trigger] proposals[j]@.contains(x) <==> (x < pr0.len() && target(pr0, x as int)
                == j)),
        forall|j: int| 0 <= j < rr.len() ==> responds(rr[j], proposals[j]@, #[trigger] answers[j]),
        forall|x: usize|
            #[trigger] rejected.contains(x) <==> (x < pr0.len() && answers[target(pr0, x as int)] != Some(x)),
        steps_from(pr0, pr, rejected, rejected.len() as int),
    ensures
        recomputed_state(ps, rs, pr, rr),
{
    let np = pr0.len() as int;
    assert forall|q: int| 0 <= q < np implies #[trigger] listed(rejected, rejected.len() as int, q) == rejected.contains(
        q as usize,
    ) by {
        if rejected.contains(q as usize) {
            let k = choose|k: int| 0 <= k < rejected.len() && rejected[k] == q as usize;
        }
    }
    assert forall|q: int| 0 <= q < np implies 0 <= #[trigger] target(pr0, q) < rr.len() by {
        assert((#[trigger] pr0[q]).id == ps[q].id);
        assert(pr0[q].preferences@[pr0[q].next as int] < rs.len());
    }
    // an accepted proposer keeps courting the responder that accepted it
    assert forall|j: int| 0 <= j < rr.len() && (#[trigger] answers[j]) is Some implies {
        let b = answers[j]->0 as int;
        &&& 0 <= b < np
        &&& pr[b].next == pr0[b].next
        &&& pr[b].preferences == pr0[b].preferences
        &&& target(pr0, b) == j
    } by {
        let b = answers[j]->0;
        assert(responds(rr[j], proposals[j]@, answers[j]));
        assert(proposals[j]@.contains(b));
        assert(!rejected.contains(b));
        assert(listed(rejected, rejected.len() as int, b as int) == rejected.contains(b));
        assert((#[trigger] pr[b as int]).id == pr0[b as int].id);
    }
    assert(proposers_linked(pr, ps, rs)) by {
        assert forall|q: int| 0 <= q < pr.len() implies {
            &&& (#[trigger] pr[q]).id == ps[q].id
            &&& pr[q].preferences@.len() == ps[q].preferences@.len()
            &&& pr[q].next <= pr[q].preferences@.len()
        } by {
            assert((#[trigger] pr[q]).id == pr0[q].id);
            assert((#[trigger] pr0[q]).id == ps[q].id);
        }
        assert forall|q: int, k: int| 0 <= q < pr.len() && 0 <= k < pr[q].preferences@.len() implies {
            &&& (#[trigger] pr[q].preferences@[k]) < rs.len()
            &&& rs[pr[q].preferences@[k] as int].id == ps[q].preferences@[k]
        } by {
            assert((#[trigger] pr[q]).id == pr0[q].id);
            assert((#[trigger] pr0[q]).id == ps[q].id);
            assert(pr0[q].preferences@[k] == pr[q].preferences@[k]);
        }
    }
    assert(rejections_witnessed(pr, rr)) by {
        assert forall|q: int, k: int| 0 <= q < pr.len() && 0 <= k < pr[q].next implies {
            let j = #[trigger] pr[q].preferences@[k] as int;
            ||| rr[j].ranks@[q] >= rr[j].limit
            ||| exists|w: int|
                0 <= w < pr.len() && pr[w].next < pr[w].preferences@.len() && target(pr, w) == j && rr[j].ranks@[w]
                    < rr[j].ranks@[q]
        } by {
            assert((#[trigger] pr[q]).id == pr0[q].id);
            assert((#[trigger] pr0[q]).id == ps[q].id);
            let j = pr[q].preferences@[k] as int;
            assert(pr[q].preferences@[k] < rs.len());
            assert((#[trigger] rr[j]).id == rs[j].id);
            if rr[j].ranks@[q] < rr[j].limit {
                if k < pr0[q].next {
                    assert(pr0[q].preferences@[k] as int == j);
                } else {
                    assert(rejected.contains(q as usize));
                    assert(target(pr0, q) == j);
                }
                let w0 = if k < pr0[q].next {
                    choose|w: int|
                        0 <= w < pr0.len() && pr0[w].next < pr0[w].preferences@.len() && target(pr0, w) == j
                            && rr[j].ranks@[w] < rr[j].ranks@[q]
                } else {
                    q
                };
                assert(proposals[j]@.contains(w0 as usize));
                assert(w0 == q || rr[j].ranks@[w0] < rr[j].ranks@[q]);
                assert(responds(rr[j], proposals[j]@, answers[j]));
                let b = answers[j]->0 as int;
                assert(answers[j] is Some);
                assert(rr[j].ranks@[b] <= rr[j].ranks@[w0]);
                if k == pr0[q].next && rr[j].ranks@[b] == rr[j].ranks@[q] {
                    lemma_ranks_distinct(ps, rs, j, b, q);
                }
                assert(target(pr, b) == j);
                assert(pr[b].next < pr[b].preferences@.len());
            }
        }
    }
    assert forall|other: Map<u32, u32>, q: int, k: int|
        #![trigger other[ps[q].id], ps[q].preferences@[k]]
        is_complete_market(ps, rs) && is_stable_matching(ps, rs, other) && 0 <= q < pr.len() && 0 <= k < pr[q].next
            implies other[ps[q].id] != ps[q].preferences@[k] by {
        assert((#[trigger] pr[q]).id == pr0[q].id);
        assert((#[trigger] pr0[q]).id == ps[q].id);
        if k < pr0[q].next {
            lemma_unavoidable_at(pr0, ps, rs, other, q, k);
        } else {
            let j = target(pr0, q);
            assert(rejected.contains(q as usize));
            assert(proposals[j]@.contains(q as usize));
            assert(responds(rr[j], proposals[j]@, answers[j]));
            lemma_complete_acceptable(ps, rs, j, q);
            assert((#[trigger] rr[j]).id == rs[j].id);
            assert(rr[j].ranks@[q] as int == rank_entry(rs[j].preferences@, ps[q].id));
            let b = answers[j]->0;
            assert(answers[j] == Some(b));
            assert(proposals[j]@.contains(b));
            assert(target(pr0, b as int) == j);
            assert(b as int != q);
            assert(rr[j].ranks@[b as int] as int == rank_entry(rs[j].preferences@, ps[b as int].id));
            if rr[j].ranks@[b as int] == rr[j].ranks@[q] {
                lemma_ranks_distinct(ps, rs, j, b as int, q);
            }
            assert(prefers_more_spec(rs[j].preferences@, ps[q].id, ps[b as int].id));
            let bi = b as int;
            let kb = pr0[bi].next as int;
            assert((#[trigger] pr0[bi]).id == ps[bi].id);
            assert(pr0[bi].preferences@[kb] < rs.len());
            assert(ps[bi].preferences@[kb] == rs[j].id);
            assert forall|k2: int| 0 <= k2 < kb implies other[ps[bi].id] != #[trigger] ps[bi].preferences@[k2] by {
                lemma_unavoidable_at(pr0, ps, rs, other, bi, k2);
            }
            assert(pr0[q].preferences@[k] < rs.len());
            assert(ps[q].preferences@[k] == rs[j].id);
            if other[ps[q].id] == ps[q].preferences@[k] {
                lemma_displaced(ps, rs, other, q, bi, j, kb);
            }
        }
    }
    assert(rejections_unavoidable(pr, ps, rs));
    assert(responders_linked(rr, ps, rs));
}

/// When every proposer is accepted by the responder it courts, sending each
/// proposer there gives a stable matching that is best for the proposers.
proof fn lemma_recomputed_final(
    ps: Seq<ProposerInput>,
    rs: Seq<ResponderInput>,
    pr: Seq<Proposer>,
    rr: Seq<Responder>,
    answers: Seq<Option<usize>>,
    m: Map<u32, u32>,
)
    requires
        proposer_ids(ps).no_duplicates(),
        responder_ids(rs).no_duplicates(),
        lists_valid(ps, rs),
        recomputed_state(ps, rs, pr, rr),
        ps.len() <= usize::MAX,
        forall|q: int| 0 <= q < pr.len() ==> (#[trigger] pr[q]).next < pr[q].preferences@.len(),
        answers.len() == rr.len(),
        forall|q: int| 0 <= q < pr.len() ==> #[trigger] answers[target(pr, q)] == Some(q as usize),
        maps_to_targets(ps, rs, pr, m),
    ensures
        matches_every_proposer(ps, rs, m),
        has_no_blocking_pair(ps, rs, m),
        ps.len() == rs.len() ==> matches_every_responder(ps, rs, m),
        is_complete_market(ps, rs) ==> is_proposer_optimal(ps, rs, m),
{
    let np = ps.len() as int;
    let nr = rs.len() as int;
    assert forall|q: int| 0 <= q < np implies 0 <= #[trigger] target(pr, q) < nr && m[ps[q].id]
        == ps[q].preferences@[pr[q].next as int] by {
        assert((#[trigger] pr[q]).id == ps[q].id);
        assert(pr[q].preferences@[pr[q].next as int] < rs.len());
        assert(m.contains_key(ps[q].id));
    }
    assert forall|a: int, b: int| 0 <= a < np && 0 <= b < np && a != b implies target(pr, a) != target(pr, b) by {
        assert(answers[target(pr, a)] == Some(a as usize));
        assert(answers[target(pr, b)] == Some(b as usize));
    }
    assert forall|a: int, b: int| 0 <= a < np && 0 <= b < np && a != b implies #[trigger] m[ps[a].id]
        != #[trigger] m[ps[b].id] by {
        assert(m.contains_key(ps[a].id));
        assert(m.contains_key(ps[b].id));
        assert(target(pr, a) != target(pr, b));
        assert(0 <= target(pr, a) < nr && 0 <= target(pr, b) < nr);
        if m[ps[a].id] == m[ps[b].id] {
            lemma_ids_distinct_r(rs, target(pr, a), target(pr, b));
        }
    }
    assert forall|q: int| 0 <= q < np implies #[trigger] responder_ids(rs).contains(m[ps[q].id]) by {
        assert(m.contains_key(ps[q].id));
        assert(0 <= target(pr, q) < nr);
        assert(responder_ids(rs)[target(pr, q)] == rs[target(pr, q)].id);
    }
    assert forall|i: int, j: int| 0 <= i < np && 0 <= j < nr implies !#[trigger] is_blocking(ps, rs, m, i, j) by {
        assert(m.contains_key(ps[i].id));
        let li = ps[i].preferences@;
        let ki = pr[i].next as int;
        assert((#[trigger] pr[i]).id == ps[i].id);
        assert(is_valid_list(li, responder_ids(rs)));
        assert(0 <= target(pr, i) < nr);
        assert(rs[target(pr, i)].id == li[ki]);
        lemma_rank_of_entry(li, ki);
        if is_blocking(ps, rs, m, i, j) {
            let k = rank_of(li, rs[j].id)->0;
            lemma_rank_of_some(li, rs[j].id);
            assert(k < ki);
            let pos = pr[i].preferences@[k] as int;
            assert(pos < rs.len() && rs[pos].id == li[k]);
            lemma_ids_distinct_r(rs, pos, j);
            assert(rejections_witnessed(pr, rr));
            let lj = rs[j].preferences@;
            assert((#[trigger] rr[j]).id == rs[j].id);
            assert(rr[j].ranks@[i] as int == rank_entry(lj, ps[i].id));
            if rr[j].ranks@[i] >= rr[j].limit {
                assert(rank_of(lj, ps[i].id) is None);
            } else {
                let w = choose|w: int|
                    0 <= w < pr.len() && pr[w].next < pr[w].preferences@.len() && target(pr, w) == j && rr[j].ranks@[w]
                        < rr[j].ranks@[i];
                assert(m[ps[w].id] == rs[j].id) by {
                    assert(m[ps[w].id] == ps[w].preferences@[pr[w].next as int]);
                    assert((#[trigger] pr[w]).id == ps[w].id);
                    assert(pr[w].preferences@[pr[w].next as int] < rs.len());
                }
                assert(m.contains_key(ps[w].id));
                assert forall|l: int| 0 <= l < np && l != w implies !#[trigger] matched_to(ps, m, l, rs[j].id) by {
                    assert(m[ps[l].id] != m[ps[w].id]);
                }
                lemma_partner_is(ps, m, rs[j].id, w);
                assert(rr[j].ranks@[w] as int == rank_entry(lj, ps[w].id));
            }
        }
    }
    if np == nr {
        assert forall|j: int| 0 <= j < nr implies #[trigger] has_partner(ps, m, rs[j].id) by {
            if exists|q: int| 0 <= q < np && target(pr, q) == j {
                let q = choose|q: int| 0 <= q < np && target(pr, q) == j;
                assert((#[trigger] pr[q]).id == ps[q].id);
                assert(pr[q].preferences@[pr[q].next as int] < rs.len());
                assert(m.contains_key(ps[q].id));
                assert(matched_to(ps, m, q, rs[j].id));
            } else {
                let s = Seq::new(np as nat, |q: int| target(pr, q));
                assert forall|k: int| 0 <= k < np implies 0 <= (#[trigger] s[k]) < np && s[k] != j by {
                    assert(0 <= target(pr, k) < nr);
                }
                assert forall|a: int, b: int| 0 <= a < s.len() && 0 <= b < s.len() && a != b implies s[a] != s[b] by {
                    assert(target(pr, a) != target(pr, b));
                }
                lemma_pigeonhole(s, np, j);
            }
        }
    }
    if is_complete_market(ps, rs) {
        assert forall|other: Map<u32, u32>, i: int|
            #![trigger is_stable_matching(ps, rs, other), ps[i]]
            is_stable_matching(ps, rs, other) && 0 <= i < ps.len() implies !prefers_more_spec(
                ps[i].preferences@,
                m[ps[i].id],
                other[ps[i].id],
            ) by {
            let li = ps[i].preferences@;
            let ki = pr[i].next as int;
            assert((#[trigger] pr[i]).id == ps[i].id);
            assert(is_valid_list(li, responder_ids(rs)));
            lemma_rank_of_entry(li, ki);
            assert(0 <= target(pr, i) < nr);
            let x = other[ps[i].id];
            if let Some(k) = rank_of(li, x) {
                lemma_rank_of_some(li, x);
                if k < ki {
                    lemma_unavoidable_at(pr, ps, rs, other, i, k);
                }
            }
        }
    }
}

} // verus!
