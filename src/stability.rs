//! What makes a matching complete and stable, and the checks that decide it.
//!
//! A matching maps proposer ids to responder ids. A proposer and a responder
//! that are not matched to each other form a blocking pair when each would
//! rather have the other than its current partner (or than no partner).

use vstd::prelude::*;
use std::collections::HashMap;
use crate::input::{MatchingInput, ProposerInput, ResponderInput};
use crate::preference::{
    is_valid_list, lemma_rank_of_absent, lemma_rank_of_contains, lemma_rank_of_some, prefers_more_spec, prefers_over,
    rank_of, ranks_all,
};

verus! {

pub open spec fn proposer_ids(ps: Seq<ProposerInput>) -> Seq<u32> {
    ps.map_values(|p: ProposerInput| p.id)
}

pub open spec fn responder_ids(rs: Seq<ResponderInput>) -> Seq<u32> {
    rs.map_values(|r: ResponderInput| r.id)
}

/// The proposer at index `i` is matched to the responder id `rid`.
pub open spec fn matched_to(ps: Seq<ProposerInput>, m: Map<u32, u32>, i: int, rid: u32) -> bool {
    m.contains_key(ps[i].id) && m[ps[i].id] == rid
}

/// The current partner of the proposer at index `i`.
pub open spec fn current_of(ps: Seq<ProposerInput>, m: Map<u32, u32>, i: int) -> Option<u32> {
    if m.contains_key(ps[i].id) {
        Some(m[ps[i].id])
    } else {
        None
    }
}

/// `i` is the first proposer, in input order, matched to `rid`.
pub open spec fn is_first_partner(ps: Seq<ProposerInput>, m: Map<u32, u32>, rid: u32, i: int) -> bool {
    &&& 0 <= i < ps.len()
    &&& matched_to(ps, m, i, rid)
    &&& forall|l: int| 0 <= l < i ==> !matched_to(ps, m, l, rid)
}

/// The partner of the responder id `rid`: the first proposer matched to it.
pub open spec fn partner_of(ps: Seq<ProposerInput>, m: Map<u32, u32>, rid: u32) -> Option<u32> {
    if exists|i: int| is_first_partner(ps, m, rid, i) {
        Some(ps[choose|i: int| is_first_partner(ps, m, rid, i)].id)
    } else {
        None
    }
}

/// Proposer `i` and responder `j` are not matched together, and each would
/// rather have the other than its current partner.
pub open spec fn is_blocking(
    ps: Seq<ProposerInput>,
    rs: Seq<ResponderInput>,
    m: Map<u32, u32>,
    i: int,
    j: int,
) -> bool {
    &&& current_of(ps, m, i) != Some(rs[j].id)
    &&& prefers_over(ps[i].preferences@, current_of(ps, m, i), rs[j].id)
    &&& prefers_over(rs[j].preferences@, partner_of(ps, m, rs[j].id), ps[i].id)
}

/// The blocking pairs of proposer `i` with the first `n` responders, in order.
pub open spec fn blocking_row(
    ps: Seq<ProposerInput>,
    rs: Seq<ResponderInput>,
    m: Map<u32, u32>,
    i: int,
    n: int,
) -> Seq<(u32, u32)>
    decreases n,
{
    if n <= 0 {
        Seq::empty()
    } else {
        let prev = blocking_row(ps, rs, m, i, n - 1);
        if is_blocking(ps, rs, m, i, n - 1) {
            prev.push((ps[i].id, rs[n - 1].id))
        } else {
            prev
        }
    }
}

/// The blocking pairs of the first `n` proposers, proposer by proposer.
pub open spec fn blocking_upto(
    ps: Seq<ProposerInput>,
    rs: Seq<ResponderInput>,
    m: Map<u32, u32>,
    n: int,
) -> Seq<(u32, u32)>
    decreases n,
{
    if n <= 0 {
        Seq::empty()
    } else {
        blocking_upto(ps, rs, m, n - 1) + blocking_row(ps, rs, m, n - 1, rs.len() as int)
    }
}

/// Every blocking pair as (proposer id, responder id), proposers in input
/// order and, for each, responders in input order.
pub open spec fn blocking_pairs(ps: Seq<ProposerInput>, rs: Seq<ResponderInput>, m: Map<u32, u32>) -> Seq<(u32, u32)> {
    blocking_upto(ps, rs, m, ps.len() as int)
}

/// No proposer-responder pair blocks `m`.
pub open spec fn has_no_blocking_pair(ps: Seq<ProposerInput>, rs: Seq<ResponderInput>, m: Map<u32, u32>) -> bool {
    forall|i: int, j: int|
        0 <= i < ps.len() && 0 <= j < rs.len() ==> !#[trigger] is_blocking(ps, rs, m, i, j)
}

/// Every proposer is matched to a responder, and no two to the same one.
pub open spec fn matches_every_proposer(ps: Seq<ProposerInput>, rs: Seq<ResponderInput>, m: Map<u32, u32>) -> bool {
    &&& forall|i: int| 0 <= i < ps.len() ==> #[trigger] m.contains_key(ps[i].id)
    &&& forall|i: int| 0 <= i < ps.len() ==> #[trigger] responder_ids(rs).contains(m[ps[i].id])
    &&& forall|i1: int, i2: int|
        0 <= i1 < ps.len() && 0 <= i2 < ps.len() && i1 != i2 ==> #[trigger] m[ps[i1].id]
            != #[trigger] m[ps[i2].id]
}

/// Some proposer is matched to the responder id `rid`.
pub open spec fn has_partner(ps: Seq<ProposerInput>, m: Map<u32, u32>, rid: u32) -> bool {
    exists|i: int| 0 <= i < ps.len() && #[trigger] matched_to(ps, m, i, rid)
}

/// Every responder is matched to some proposer.
pub open spec fn matches_every_responder(ps: Seq<ProposerInput>, rs: Seq<ResponderInput>, m: Map<u32, u32>) -> bool {
    forall|j: int| 0 <= j < rs.len() ==> #[trigger] has_partner(ps, m, rs[j].id)
}

/// `m` pairs the two populations one to one.
pub open spec fn is_complete_matching(ps: Seq<ProposerInput>, rs: Seq<ResponderInput>, m: Map<u32, u32>) -> bool {
    matches_every_proposer(ps, rs, m) && matches_every_responder(ps, rs, m)
}

/// `m` pairs the two populations one to one and no pair blocks it.
pub open spec fn is_stable_matching(ps: Seq<ProposerInput>, rs: Seq<ResponderInput>, m: Map<u32, u32>) -> bool {
    is_complete_matching(ps, rs, m) && has_no_blocking_pair(ps, rs, m)
}

/// Every preference list names only agents of the other population, each once.
pub open spec fn lists_valid(ps: Seq<ProposerInput>, rs: Seq<ResponderInput>) -> bool {
    &&& forall|i: int| 0 <= i < ps.len() ==> is_valid_list(#[trigger] ps[i].preferences@, responder_ids(rs))
    &&& forall|j: int| 0 <= j < rs.len() ==> is_valid_list(#[trigger] rs[j].preferences@, proposer_ids(ps))
}

/// Equal-sized populations in which every agent ranks everyone on the other side.
pub open spec fn is_complete_market(ps: Seq<ProposerInput>, rs: Seq<ResponderInput>) -> bool {
    &&& ps.len() == rs.len()
    &&& lists_valid(ps, rs)
    &&& forall|i: int| 0 <= i < ps.len() ==> ranks_all(#[trigger] ps[i].preferences@, responder_ids(rs))
    &&& forall|j: int| 0 <= j < rs.len() ==> ranks_all(#[trigger] rs[j].preferences@, proposer_ids(ps))
}

/// Every proposer gets, in `m`, a partner at least as good as in any other
/// stable matching.
pub open spec fn is_proposer_optimal(ps: Seq<ProposerInput>, rs: Seq<ResponderInput>, m: Map<u32, u32>) -> bool {
    forall|other: Map<u32, u32>, i: int|
        #![trigger is_stable_matching(ps, rs, other), ps[i]]
        is_stable_matching(ps, rs, other) && 0 <= i < ps.len() ==> !prefers_more_spec(
            ps[i].preferences@,
            m[ps[i].id],
            other[ps[i].id],
        )
}

/// Whether `list` ranks `x` at all.
fn is_ranked(list: &Vec<u32>, x: u32) -> (r: bool)
    ensures
        r == (rank_of(list@, x) is Some),
{
    let mut k: usize = 0;
    while k < list.len()
        invariant
            k <= list@.len(),
            forall|l: int| 0 <= l < k ==> list@[l] != x,
        decreases list@.len() - k,
    {
        if list[k] == x {
            proof {
                lemma_rank_of_contains(list@, x);
            }
            return true;
        }
        k += 1;
    }
    proof {
        lemma_rank_of_absent(list@, x);
    }
    false
}

/// Whether the owner of `agent` would rather have `alternative` than `current`.
fn prefers_over_current<A: MatchingInput>(agent: &A, current: Option<u32>, alternative: u32) -> (r: bool)
    ensures
        r == prefers_over(agent.ranking(), current, alternative),
{
    match current {
        Some(c) => agent.prefers_more(c, alternative),
        None => is_ranked(agent.preferences(), alternative),
    }
}

/// The current partner of a proposer id.
fn current_partner(matching: &HashMap<u32, u32>, id: u32) -> (r: Option<u32>)
    ensures
        r == (if matching@.contains_key(id) {
            Some(matching@[id])
        } else {
            None::<u32>
        }),
{
    broadcast use vstd::std_specs::hash::group_hash_axioms;

    match matching.get(&id) {
        Some(r) => Some(*r),
        None => None,
    }
}

/// The partner of the responder id `rid`: the first proposer matched to it.
fn responder_partner(proposers: &[ProposerInput], matching: &HashMap<u32, u32>, rid: u32) -> (r: Option<u32>)
    ensures
        r == partner_of(proposers@, matching@, rid),
{
    let ghost ps = proposers@;
    let mut i: usize = 0;
    while i < proposers.len()
        invariant
            ps == proposers@,
            i <= ps.len(),
            forall|l: int| 0 <= l < i ==> !#[trigger] matched_to(ps, matching@, l, rid),
        decreases ps.len() - i,
    {
        let c = current_partner(matching, proposers[i].id);
        if c == Some(rid) {
            proof {
                assert(is_first_partner(ps, matching@, rid, i as int));
                let f = choose|f: int| is_first_partner(ps, matching@, rid, f);
                if f < i {
                    assert(!matched_to(ps, matching@, f, rid));
                } else if f > i {
                    assert(matched_to(ps, matching@, i as int, rid));
                }
            }
            return Some(proposers[i].id);
        }
        i += 1;
    }
    proof {
        if exists|f: int| is_first_partner(ps, matching@, rid, f) {
            let f = choose|f: int| is_first_partner(ps, matching@, rid, f);
            assert(!matched_to(ps, matching@, f, rid));
        }
    }
    None
}

/// Lists every blocking pair as (proposer id, responder id), proposers in
/// input order and, for each, responders in input order. Agents absent from
/// the matching count as unmatched; nothing about the matching is assumed.
pub fn find_blocking_pairs(
    proposers: &[ProposerInput],
    responders: &[ResponderInput],
    matching: &HashMap<u32, u32>,
) -> (r: Vec<(u32, u32)>)
    ensures
        r@ == blocking_pairs(proposers@, responders@, matching@),
{
    let ghost ps = proposers@;
    let ghost rs = responders@;
    let mut partners: Vec<Option<u32>> = Vec::new();
    let mut j: usize = 0;
    while j < responders.len()
        invariant
            ps == proposers@,
            rs == responders@,
            j <= rs.len(),
            partners@.len() == j,
            forall|l: int| 0 <= l < j ==> #[trigger] partners@[l] == partner_of(ps, matching@, rs[l].id),
        decreases rs.len() - j,
    {
        partners.push(responder_partner(proposers, matching, responders[j].id));
        j += 1;
    }
    let mut out: Vec<(u32, u32)> = Vec::new();
    let mut i: usize = 0;
    while i < proposers.len()
        invariant
            ps == proposers@,
            rs == responders@,
            i <= ps.len(),
            partners@.len() == rs.len(),
            forall|l: int| 0 <= l < rs.len() ==> #[trigger] partners@[l] == partner_of(ps, matching@, rs[l].id),
            out@ == blocking_upto(ps, rs, matching@, i as int),
        decreases ps.len() - i,
    {
        let current = current_partner(matching, proposers[i].id);
        let mut j: usize = 0;
        while j < responders.len()
            invariant
                ps == proposers@,
                rs == responders@,
                i < ps.len(),
                j <= rs.len(),
                partners@.len() == rs.len(),
                forall|l: int| 0 <= l < rs.len() ==> #[trigger] partners@[l] == partner_of(ps, matching@, rs[l].id),
                current == current_of(ps, matching@, i as int),
                out@ == blocking_upto(ps, rs, matching@, i as int) + blocking_row(ps, rs, matching@, i as int, j as int),
            decreases rs.len() - j,
        {
            let rid = responders[j].id;
            let pid = proposers[i].id;
            let blocking = current != Some(rid) && prefers_over_current(&proposers[i], current, rid)
                && prefers_over_current(&responders[j], partners[j], pid);
            proof {
                assert(partners@[j as int] == partner_of(ps, matching@, rs[j as int].id));
                assert(blocking == is_blocking(ps, rs, matching@, i as int, j as int));
            }
            if blocking {
                out.push((pid, rid));
            }
            proof {
                assert(out@ =~= blocking_upto(ps, rs, matching@, i as int) + blocking_row(
                    ps,
                    rs,
                    matching@,
                    i as int,
                    j + 1,
                ));
            }
            j += 1;
        }
        proof {
            assert(blocking_upto(ps, rs, matching@, i + 1) == blocking_upto(ps, rs, matching@, i as int) + blocking_row(
                ps,
                rs,
                matching@,
                i as int,
                rs.len() as int,
            ));
        }
        i += 1;
    }
    out
}

/// Whether some proposer is matched to the responder id `rid`.
fn is_taken(proposers: &[ProposerInput], matching: &HashMap<u32, u32>, rid: u32) -> (r: bool)
    ensures
        r == has_partner(proposers@, matching@, rid),
{
    let mut i: usize = 0;
    while i < proposers.len()
        invariant
            i <= proposers@.len(),
            forall|l: int| 0 <= l < i ==> !#[trigger] matched_to(proposers@, matching@, l, rid),
        decreases proposers@.len() - i,
    {
        if current_partner(matching, proposers[i].id) == Some(rid) {
            proof {
                assert(matched_to(proposers@, matching@, i as int, rid));
            }
            return true;
        }
        i += 1;
    }
    false
}

/// Whether `x` is the id of one of the responders.
fn is_responder(responders: &[ResponderInput], x: u32) -> (r: bool)
    ensures
        r == responder_ids(responders@).contains(x),
{
    let mut j: usize = 0;
    while j < responders.len()
        invariant
            j <= responders@.len(),
            forall|l: int| 0 <= l < j ==> responders@[l].id != x,
        decreases responders@.len() - j,
    {
        if responders[j].id == x {
            proof {
                assert(responder_ids(responders@)[j as int] == x);
            }
            return true;
        }
        j += 1;
    }
    proof {
        if responder_ids(responders@).contains(x) {
            let l = choose|l: int| 0 <= l < responder_ids(responders@).len() && responder_ids(responders@)[l] == x;
            assert(responders@[l].id == x);
        }
    }
    false
}

/// Decides whether `matching` pairs the two populations one to one with no
/// blocking pair.
pub fn validate_matching(
    proposers: &[ProposerInput],
    responders: &[ResponderInput],
    matching: &HashMap<u32, u32>,
) -> (r: bool)
    ensures
        r == is_stable_matching(proposers@, responders@, matching@),
{
    let ghost ps = proposers@;
    let ghost rs = responders@;
    let ghost m = matching@;
    let mut i: usize = 0;
    while i < proposers.len()
        invariant
            ps == proposers@,
            rs == responders@,
            m == matching@,
            i <= ps.len(),
            forall|l: int| 0 <= l < i ==> #[trigger] m.contains_key(ps[l].id),
            forall|l: int| 0 <= l < i ==> #[trigger] responder_ids(rs).contains(m[ps[l].id]),
            forall|a: int, b: int| 0 <= a < i && 0 <= b < i && a != b ==> #[trigger] m[ps[a].id] != #[trigger] m[ps[b].id],
        decreases ps.len() - i,
    {
        let mine = match current_partner(matching, proposers[i].id) {
            None => {
                return false;
            },
            Some(x) => x,
        };
        if !is_responder(responders, mine) {
            return false;
        }
        let mut l: usize = 0;
        while l < i
            invariant
                ps == proposers@,
                m == matching@,
                i < ps.len(),
                l <= i,
                m.contains_key(ps[i as int].id),
                mine == m[ps[i as int].id],
                forall|a: int| 0 <= a < l ==> #[trigger] m[ps[a].id] != mine,
                forall|a: int| 0 <= a < i ==> #[trigger] m.contains_key(ps[a].id),
            decreases i - l,
        {
            if current_partner(matching, proposers[l].id) == Some(mine) {
                proof {
                    assert(m[ps[l as int].id] == m[ps[i as int].id]);
                }
                return false;
            }
            l += 1;
        }
        proof {
            assert forall|a: int, b: int| 0 <= a < i + 1 && 0 <= b < i + 1 && a != b implies #[trigger] m[ps[a].id]
                != #[trigger] m[ps[b].id] by {
                if a == i {
                    assert(m[ps[b].id] != mine);
                } else if b == i {
                    assert(m[ps[a].id] != mine);
                }
            }
        }
        i += 1;
    }
    proof {
        assert(matches_every_proposer(ps, rs, m));
    }
    let mut j: usize = 0;
    while j < responders.len()
        invariant
            ps == proposers@,
            rs == responders@,
            m == matching@,
            j <= rs.len(),
            forall|l: int| 0 <= l < j ==> #[trigger] has_partner(ps, m, rs[l].id),
        decreases rs.len() - j,
    {
        if !is_taken(proposers, matching, responders[j].id) {
            return false;
        }
        j += 1;
    }
    let pairs = find_blocking_pairs(proposers, responders, matching);
    proof {
        lemma_no_blocking_iff_empty(ps, rs, m);
    }
    pairs.len() == 0
}

/// The blocking pairs of the first `n` proposers are none exactly when none
/// of those proposers is in a blocking pair.
proof fn lemma_upto_empty(ps: Seq<ProposerInput>, rs: Seq<ResponderInput>, m: Map<u32, u32>, n: int)
    requires
        0 <= n <= ps.len(),
    ensures
        blocking_upto(ps, rs, m, n).len() == 0 <==> forall|i: int, j: int|
            0 <= i < n && 0 <= j < rs.len() ==> !#[trigger] is_blocking(ps, rs, m, i, j),
    decreases n,
{
    if n > 0 {
        lemma_upto_empty(ps, rs, m, n - 1);
        lemma_row_empty(ps, rs, m, n - 1, rs.len() as int);
    }
}

proof fn lemma_row_empty(ps: Seq<ProposerInput>, rs: Seq<ResponderInput>, m: Map<u32, u32>, i: int, n: int)
    requires
        0 <= n <= rs.len(),
    ensures
        blocking_row(ps, rs, m, i, n).len() == 0 <==> forall|j: int| 0 <= j < n ==> !#[trigger] is_blocking(ps, rs, m, i, j),
    decreases n,
{
    if n > 0 {
        lemma_row_empty(ps, rs, m, i, n - 1);
    }
}

/// `blocking_pairs` is empty exactly when no pair blocks the matching.
pub proof fn lemma_no_blocking_iff_empty(ps: Seq<ProposerInput>, rs: Seq<ResponderInput>, m: Map<u32, u32>)
    ensures
        blocking_pairs(ps, rs, m).len() == 0 <==> has_no_blocking_pair(ps, rs, m),
{
    lemma_upto_empty(ps, rs, m, ps.len() as int);
}

/// A matching with no blocking pair, as every matching that `stable_matching`
/// returns is, makes `find_blocking_pairs` report nothing.
pub proof fn lemma_stable_result_reports_nothing(ps: Seq<ProposerInput>, rs: Seq<ResponderInput>, m: Map<u32, u32>)
    requires
        has_no_blocking_pair(ps, rs, m),
    ensures
        blocking_pairs(ps, rs, m) == Seq::<(u32, u32)>::empty(),
{
    lemma_no_blocking_iff_empty(ps, rs, m);
    assert(blocking_pairs(ps, rs, m) =~= Seq::<(u32, u32)>::empty());
}

/// Verification depends on its inputs alone: two runs on the same proposers,
/// responders and matching report the same pairs and the same verdict.
pub proof fn lemma_verification_is_repeatable(
    ps: Seq<ProposerInput>,
    rs: Seq<ResponderInput>,
    m: Map<u32, u32>,
    first_pairs: Seq<(u32, u32)>,
    second_pairs: Seq<(u32, u32)>,
    first_verdict: bool,
    second_verdict: bool,
)
    requires
        first_pairs == blocking_pairs(ps, rs, m),
        second_pairs == blocking_pairs(ps, rs, m),
        first_verdict == is_stable_matching(ps, rs, m),
        second_verdict == is_stable_matching(ps, rs, m),
    ensures
        first_pairs == second_pairs,
        first_verdict == second_verdict,
{
}

/// The partner of a responder that exactly one proposer is matched to.
pub proof fn lemma_partner_is(ps: Seq<ProposerInput>, m: Map<u32, u32>, rid: u32, a: int)
    requires
        0 <= a < ps.len(),
        matched_to(ps, m, a, rid),
        forall|i: int| 0 <= i < ps.len() && i != a ==> !#[trigger] matched_to(ps, m, i, rid),
    ensures
        partner_of(ps, m, rid) == Some(ps[a].id),
{
    assert(is_first_partner(ps, m, rid, a));
    let c = choose|c: int| is_first_partner(ps, m, rid, c);
    assert(is_first_partner(ps, m, rid, c));
    assert(c == a);
}

/// The responders of a market, cast as proposers.
pub open spec fn as_proposers(rs: Seq<ResponderInput>) -> Seq<ProposerInput> {
    rs.map_values(|r: ResponderInput| ProposerInput { id: r.id, preferences: r.preferences })
}

/// The proposers of a market, cast as responders.
pub open spec fn as_responders(ps: Seq<ProposerInput>) -> Seq<ResponderInput> {
    ps.map_values(|p: ProposerInput| ResponderInput { id: p.id, preferences: p.preferences })
}

/// A matching read from the responders' side: each responder id with a
/// partner maps to that partner's id.
pub open spec fn flipped(ps: Seq<ProposerInput>, rs: Seq<ResponderInput>, m: Map<u32, u32>) -> Map<u32, u32> {
    Map::new(
        |r: u32| responder_ids(rs).contains(r) && partner_of(ps, m, r) is Some,
        |r: u32| partner_of(ps, m, r)->0,
    )
}

/// Every responder gets, in `m`, a partner at least as good as in any other
/// stable matching.
pub open spec fn is_responder_optimal(ps: Seq<ProposerInput>, rs: Seq<ResponderInput>, m: Map<u32, u32>) -> bool {
    forall|other: Map<u32, u32>, j: int|
        #![trigger is_stable_matching(ps, rs, other), rs[j]]
        is_stable_matching(ps, rs, other) && 0 <= j < rs.len() ==> !prefers_more_spec(
            rs[j].preferences@,
            partner_of(ps, m, rs[j].id)->0,
            partner_of(ps, other, rs[j].id)->0,
        )
}

/// In a complete one-to-one matching, the partner of responder `j` is the
/// proposer matched to it, and a proposer's partner is found among the
/// responders.
proof fn lemma_partners(ps: Seq<ProposerInput>, rs: Seq<ResponderInput>, m: Map<u32, u32>, j: int) -> (i: int)
    requires
        responder_ids(rs).no_duplicates(),
        is_complete_matching(ps, rs, m),
        0 <= j < rs.len(),
    ensures
        0 <= i < ps.len(),
        matched_to(ps, m, i, rs[j].id),
        partner_of(ps, m, rs[j].id) == Some(ps[i].id),
{
    assert(has_partner(ps, m, rs[j].id));
    let i = choose|i: int| 0 <= i < ps.len() && #[trigger] matched_to(ps, m, i, rs[j].id);
    assert forall|l: int| 0 <= l < ps.len() && l != i implies !#[trigger] matched_to(ps, m, l, rs[j].id) by {
        assert(m.contains_key(ps[l].id));
        assert(m[ps[l].id] != m[ps[i].id]);
    }
    lemma_partner_is(ps, m, rs[j].id, i);
    i
}

/// The responder index a proposer is matched to.
proof fn lemma_match_of(ps: Seq<ProposerInput>, rs: Seq<ResponderInput>, m: Map<u32, u32>, i: int) -> (j: int)
    requires
        is_complete_matching(ps, rs, m),
        0 <= i < ps.len(),
    ensures
        0 <= j < rs.len(),
        matched_to(ps, m, i, rs[j].id),
{
    assert(m.contains_key(ps[i].id));
    assert(responder_ids(rs).contains(m[ps[i].id]));
    let j = choose|j: int| 0 <= j < responder_ids(rs).len() && responder_ids(rs)[j] == m[ps[i].id];
    assert(rs[j].id == responder_ids(rs)[j]);
    j
}

/// Reading a stable one-to-one matching from the responders' side gives a
/// stable one-to-one matching of the market with the roles swapped.
pub proof fn lemma_flip_stable(ps: Seq<ProposerInput>, rs: Seq<ResponderInput>, m: Map<u32, u32>)
    requires
        proposer_ids(ps).no_duplicates(),
        responder_ids(rs).no_duplicates(),
        is_stable_matching(ps, rs, m),
    ensures
        is_stable_matching(as_proposers(rs), as_responders(ps), flipped(ps, rs, m)),
        forall|j: int| 0 <= j < rs.len() ==> #[trigger] partner_of(ps, m, rs[j].id) is Some,
{
    let f = flipped(ps, rs, m);
    let pp = as_proposers(rs);
    let rr = as_responders(ps);
    assert forall|j: int| 0 <= j < rs.len() implies #[trigger] partner_of(ps, m, rs[j].id) is Some by {
        lemma_partners(ps, rs, m, j);
    }
    assert forall|j: int| 0 <= j < pp.len() implies #[trigger] f.contains_key(pp[j].id) by {
        let i = lemma_partners(ps, rs, m, j);
        assert(responder_ids(rs)[j] == rs[j].id);
    }
    assert forall|j: int| 0 <= j < pp.len() implies #[trigger] responder_ids(rr).contains(f[pp[j].id]) by {
        let i = lemma_partners(ps, rs, m, j);
        assert(responder_ids(rs)[j] == rs[j].id);
        assert(responder_ids(rr)[i] == ps[i].id);
    }
    assert forall|a: int, b: int| 0 <= a < pp.len() && 0 <= b < pp.len() && a != b implies #[trigger] f[pp[a].id]
        != #[trigger] f[pp[b].id] by {
        let ia = lemma_partners(ps, rs, m, a);
        let ib = lemma_partners(ps, rs, m, b);
        assert(responder_ids(rs)[a] == rs[a].id);
        assert(responder_ids(rs)[b] == rs[b].id);
        if ia == ib {
            assert(rs[a].id == rs[b].id);
        } else {
            assert(proposer_ids(ps)[ia] == ps[ia].id);
            assert(proposer_ids(ps)[ib] == ps[ib].id);
        }
    }
    assert(matches_every_proposer(pp, rr, f));
    assert forall|i: int| 0 <= i < rr.len() implies #[trigger] has_partner(pp, f, rr[i].id) by {
        let j = lemma_match_of(ps, rs, m, i);
        let i2 = lemma_partners(ps, rs, m, j);
        if i2 != i {
            assert(m[ps[i].id] == m[ps[i2].id]);
        }
        assert(responder_ids(rs)[j] == rs[j].id);
        assert(matched_to(pp, f, j, rr[i].id));
    }
    assert forall|j: int, i: int| 0 <= j < pp.len() && 0 <= i < rr.len() implies !#[trigger] is_blocking(pp, rr, f, j, i) by {
        let a = lemma_partners(ps, rs, m, j);
        let b = lemma_match_of(ps, rs, m, i);
        let a2 = lemma_partners(ps, rs, m, b);
        if a2 != i {
            assert(m[ps[i].id] == m[ps[a2].id]);
        }
        assert(responder_ids(rs)[j] == rs[j].id);
        assert(responder_ids(rs)[b] == rs[b].id);
        assert(current_of(pp, f, j) == Some(ps[a].id));
        assert forall|l: int| 0 <= l < pp.len() && l != b implies !#[trigger] matched_to(pp, f, l, ps[i].id) by {
            let al = lemma_partners(ps, rs, m, l);
            assert(responder_ids(rs)[l] == rs[l].id);
            if al == i {
                assert(m[ps[i].id] == rs[l].id);
                if rs[l].id == rs[b].id {
                    assert(responder_ids(rs)[l] == responder_ids(rs)[b]);
                }
            } else {
                assert(proposer_ids(ps)[al] == ps[al].id);
                assert(proposer_ids(ps)[i] == ps[i].id);
            }
        }
        lemma_partner_is(pp, f, ps[i].id, b);
        if a == i {
            assert(rs[j].id == rs[b].id) by {
                assert(m[ps[i].id] == rs[j].id);
            }
            assert(responder_ids(rs)[j] == responder_ids(rs)[b]);
        }
        if j == b {
            assert(a == a2);
        }
        if is_blocking(pp, rr, f, j, i) {
            assert(is_blocking(ps, rs, m, i, j));
        }
    }
}

/// Running the engine with the roles swapped — responders proposing — yields,
/// read back from the proposers' side, a stable matching of the given
/// market in which every responder does at least as well as in any other:
/// the guarantee for proposers passes to responders when the roles swap.
pub proof fn lemma_swapped_roles(ps: Seq<ProposerInput>, rs: Seq<ResponderInput>, m: Map<u32, u32>)
    requires
        proposer_ids(ps).no_duplicates(),
        responder_ids(rs).no_duplicates(),
        is_stable_matching(as_proposers(rs), as_responders(ps), m),
        is_proposer_optimal(as_proposers(rs), as_responders(ps), m),
    ensures
        is_stable_matching(ps, rs, flipped(as_proposers(rs), as_responders(ps), m)),
        is_responder_optimal(ps, rs, flipped(as_proposers(rs), as_responders(ps), m)),
{
    let pp = as_proposers(rs);
    let rr = as_responders(ps);
    assert(proposer_ids(pp) =~= responder_ids(rs));
    assert(responder_ids(rr) =~= proposer_ids(ps));
    assert(as_proposers(rr) =~= ps);
    assert(as_responders(pp) =~= rs);
    lemma_flip_stable(pp, rr, m);
    let back = flipped(pp, rr, m);
    assert forall|other: Map<u32, u32>, j: int|
        #![trigger is_stable_matching(ps, rs, other), rs[j]]
        is_stable_matching(ps, rs, other) && 0 <= j < rs.len() implies !prefers_more_spec(
            rs[j].preferences@,
            partner_of(ps, back, rs[j].id)->0,
            partner_of(ps, other, rs[j].id)->0,
        ) by {
        lemma_flip_stable(ps, rs, other);
        let there = flipped(ps, rs, other);
        assert(is_stable_matching(pp, rr, there));
        assert(pp[j].id == rs[j].id);
        assert(!prefers_more_spec(pp[j].preferences@, m[pp[j].id], there[pp[j].id]));
        assert(responder_ids(rs)[j] == rs[j].id);
        assert(there.contains_key(rs[j].id));
        let i = lemma_partners(ps, rs, back, j);
        let j2 = lemma_partners(pp, rr, m, i);
        assert(responder_ids(rs)[j2] == rs[j2].id);
        assert(j2 == j);
    }
}

/// In a complete market the stable matching that is best for every proposer
/// is unique: two such matchings give every proposer the same partner.
pub proof fn lemma_proposer_optimal_unique(
    ps: Seq<ProposerInput>,
    rs: Seq<ResponderInput>,
    first: Map<u32, u32>,
    second: Map<u32, u32>,
)
    requires
        is_complete_market(ps, rs),
        is_stable_matching(ps, rs, first),
        is_proposer_optimal(ps, rs, first),
        is_stable_matching(ps, rs, second),
        is_proposer_optimal(ps, rs, second),
    ensures
        forall|i: int| 0 <= i < ps.len() ==> first[(#[trigger] ps[i]).id] == second[ps[i].id],
{
    assert forall|i: int| 0 <= i < ps.len() implies first[(#[trigger] ps[i]).id] == second[ps[i].id] by {
        let list = ps[i].preferences@;
        let x = first[ps[i].id];
        let y = second[ps[i].id];
        assert(!prefers_more_spec(list, x, y));
        assert(!prefers_more_spec(list, y, x));
        assert(responder_ids(rs).contains(x));
        assert(responder_ids(rs).contains(y));
        let jx = choose|j: int| 0 <= j < responder_ids(rs).len() && responder_ids(rs)[j] == x;
        let jy = choose|j: int| 0 <= j < responder_ids(rs).len() && responder_ids(rs)[j] == y;
        assert(list.contains(responder_ids(rs)[jx]));
        assert(list.contains(responder_ids(rs)[jy]));
        lemma_rank_of_contains(list, x);
        lemma_rank_of_contains(list, y);
        lemma_rank_of_some(list, x);
        lemma_rank_of_some(list, y);
    }
}

} // verus!
