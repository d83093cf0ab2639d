//! The stake that local graphs, and global graphs of earlier rounds, put behind
//! the order of two transactions.

use std::collections::{BTreeMap, BTreeSet};
use vstd::prelude::*;
use crate::batch::{batch_views, Batch, BatchView, PublicKey, Stake};
use crate::committee::{stake_of, Committee};
use crate::components::{proper_edges, restrict_edges};
use crate::control::{canonical_missing_edge, canonical_pair};
use crate::evidence::{collect_stakes, graph_stakes};
use crate::ordered::{lemma_push_contains, list_pairs, set_of_pairs};
use crate::votes::{count_of, lemma_tally_positive, set_views, stake_sum, tally, tally_pairs};

verus! {

/// The edges between `nodes` that each graph votes for.
pub open spec fn edge_votes(graphs: Seq<BatchView>, nodes: Set<u64>) -> Seq<Set<(u64, u64)>> {
    graphs.map_values(|graph: BatchView| proper_edges(nodes, graph.edges.to_set()))
}

/// The stake of the graphs with the edge `e`.
pub open spec fn edge_weight(
    members: Seq<(PublicKey, Stake)>,
    graphs: Seq<BatchView>,
    nodes: Set<u64>,
    e: (u64, u64),
) -> nat {
    tally(graph_stakes(members, graphs), edge_votes(graphs, nodes), e)
}

/// The edges between nodes of the same state key that have at least the stake
/// `threshold` behind them, and more than the opposite edge.
pub open spec fn weighted_edges(
    members: Seq<(PublicKey, Stake)>,
    graphs: Seq<BatchView>,
    nodes: Set<u64>,
    keys: Map<u64, u8>,
    threshold: nat,
) -> Set<(u64, u64)> {
    Set::new(
        |e: (u64, u64)|
            {
                &&& nodes.contains(e.0)
                &&& nodes.contains(e.1)
                &&& e.0 != e.1
                &&& same_key(keys, e.0, e.1)
                &&& edge_weight(members, graphs, nodes, e) >= threshold
                &&& edge_weight(members, graphs, nodes, e) > edge_weight(
                    members,
                    graphs,
                    nodes,
                    (e.1, e.0),
                )
            },
    )
}

/// `a` and `b` write the same state.
pub open spec fn same_key(keys: Map<u64, u8>, a: u64, b: u64) -> bool {
    keys.contains_key(a) && keys.contains_key(b) && keys[a] == keys[b]
}

/// The pairs whose order a graph claims, be it as an edge or as a missing edge.
pub open spec fn claims(graph: BatchView) -> Set<(u64, u64)> {
    graph.edges.to_set().union(graph.missing_edges.to_set())
}

/// The pairs that a graph of `author` claims.
pub open spec fn claimed_by(graphs: Seq<BatchView>, author: PublicKey) -> Set<(u64, u64)> {
    Set::new(
        |p: (u64, u64)|
            exists|i: int|
                0 <= i < graphs.len() && (#[trigger] graphs[i]).author == author && claims(
                    graphs[i],
                ).contains(p),
    )
}

/// The contents of the claims of earlier rounds.
pub open spec fn earlier_views(earlier: Seq<(PublicKey, BTreeSet<(u64, u64)>)>) -> Seq<
    (PublicKey, Set<(u64, u64)>),
> {
    earlier.map_values(|entry: (PublicKey, BTreeSet<(u64, u64)>)| (entry.0, entry.1@))
}

/// The voters on a claim: the authors of the graphs, then those of earlier rounds.
pub open spec fn claim_stakes(
    members: Seq<(PublicKey, Stake)>,
    graphs: Seq<BatchView>,
    earlier: Seq<(PublicKey, Set<(u64, u64)>)>,
) -> Seq<Stake> {
    graph_stakes(members, graphs) + earlier.map_values(
        |entry: (PublicKey, Set<(u64, u64)>)| stake_of(members, entry.0),
    )
}

/// What each of them claims. An earlier claim that a graph of the same author repeats
/// is not counted again.
pub open spec fn claim_votes(
    graphs: Seq<BatchView>,
    earlier: Seq<(PublicKey, Set<(u64, u64)>)>,
    nodes: Set<u64>,
) -> Seq<Set<(u64, u64)>> {
    graphs.map_values(|graph: BatchView| proper_edges(nodes, claims(graph))) + earlier.map_values(
        |entry: (PublicKey, Set<(u64, u64)>)|
            proper_edges(nodes, entry.1).difference(claimed_by(graphs, entry.0)),
    )
}

/// The stake behind the claim that `p.0` comes before `p.1`.
pub open spec fn claim_weight(
    members: Seq<(PublicKey, Stake)>,
    graphs: Seq<BatchView>,
    earlier: Seq<(PublicKey, Set<(u64, u64)>)>,
    nodes: Set<u64>,
    p: (u64, u64),
) -> nat {
    tally(claim_stakes(members, graphs, earlier), claim_votes(graphs, earlier, nodes), p)
}

/// The missing pairs of a graph with exactly one end in `nodes`, the smaller end first.
pub open spec fn external_pairs(graph: BatchView, nodes: Set<u64>) -> Set<(u64, u64)> {
    Set::new(
        |p: (u64, u64)|
            {
                &&& p.0 != p.1
                &&& nodes.contains(p.0) != nodes.contains(p.1)
                &&& exists|i: int|
                    0 <= i < graph.missing_edges.len() && p == canonical_pair(
                        (#[trigger] graph.missing_edges[i]).0,
                        graph.missing_edges[i].1,
                    )
            },
    )
}

/// The missing pairs with exactly one end in `nodes` that each graph votes for.
pub open spec fn external_votes(graphs: Seq<BatchView>, nodes: Set<u64>) -> Seq<Set<(u64, u64)>> {
    graphs.map_values(|graph: BatchView| external_pairs(graph, nodes))
}

/// The missing pairs with exactly one end in `nodes` that have at least the stake
/// `threshold` behind them.
pub open spec fn forwarded_pairs(
    members: Seq<(PublicKey, Stake)>,
    graphs: Seq<BatchView>,
    nodes: Set<u64>,
    threshold: nat,
) -> Set<(u64, u64)> {
    Set::new(
        |p: (u64, u64)|
            tally(graph_stakes(members, graphs), external_votes(graphs, nodes), p) >= threshold,
    )
}

/// The count of a pair, `0` where nothing is counted.
pub(crate) fn pair_count(counts: &BTreeMap<(u64, u64), u64>, pair: (u64, u64)) -> (count: u64)
    ensures
        count == count_of(counts@, pair),
{
    match counts.get(&pair) {
        Some(count) => *count,
        None => 0,
    }
}

/// All members of the sets.
fn union_of_pairs(sets: &Vec<BTreeSet<(u64, u64)>>) -> (all: BTreeSet<(u64, u64)>)
    ensures
        forall|p: (u64, u64)| #[trigger]
            all@.contains(p) <==> exists|i: int|
                0 <= i < sets@.len() && (#[trigger] set_views(sets@)[i]).contains(p),
{
    let mut all: BTreeSet<(u64, u64)> = BTreeSet::new();
    let ghost views = set_views(sets@);
    for i in 0..sets.len()
        invariant
            views == set_views(sets@),
            forall|p: (u64, u64)| #[trigger]
                all@.contains(p) <==> exists|k: int| 0 <= k < i && (#[trigger] views[k]).contains(p),
    {
        let ghost before = all@;
        let listed = list_pairs(&sets[i]);
        for j in 0..listed.len()
            invariant
                forall|p: (u64, u64)| #[trigger]
                    all@.contains(p) <==> before.contains(p) || listed@.take(j as int).contains(p),
        {
            let ghost seen = listed@.take(j as int);
            proof {
                lemma_push_contains(seen, listed@[j as int]);
                assert(listed@.take(j + 1) =~= seen.push(listed@[j as int]));
            }
            all.insert(listed[j]);
        }
        assert(listed@.take(listed@.len() as int) =~= listed@);
        assert forall|p: (u64, u64)| #[trigger] all@.contains(p) <==> exists|k: int|
            0 <= k < i + 1 && (#[trigger] views[k]).contains(p) by {
            assert(listed@.contains(p) <==> listed@.to_set().contains(p));
            assert(views[i as int] == sets@[i as int]@);
            assert(before.contains(p) <==> exists|k: int|
                0 <= k < i && (#[trigger] views[k]).contains(p));
        }
    }
    all
}

/// The edges between `nodes` that each graph votes for.
fn collect_edge_votes(graphs: &Vec<Batch>, nodes: &BTreeSet<u64>) -> (votes: Vec<
    BTreeSet<(u64, u64)>,
>)
    ensures
        set_views(votes@) == edge_votes(batch_views(graphs@), nodes@),
{
    let mut votes: Vec<BTreeSet<(u64, u64)>> = Vec::new();
    let ghost all = edge_votes(batch_views(graphs@), nodes@);
    for i in 0..graphs.len()
        invariant
            all == edge_votes(batch_views(graphs@), nodes@),
            set_views(votes@) == all.take(i as int),
    {
        let ghost before = votes@;
        let vote = restrict_edges(nodes, &set_of_pairs(&graphs[i].edges));
        votes.push(vote);
        assert(set_views(votes@) =~= set_views(before).push(vote@));
        assert(all.take(i + 1) =~= all.take(i as int).push(all[i as int]));
    }
    assert(all.take(all.len() as int) =~= all);
    votes
}

/// The stake of the graphs with each edge between `nodes`.
pub(crate) fn collect_edge_weights(
    committee: &Committee,
    graphs: &Vec<Batch>,
    nodes: &BTreeSet<u64>,
) -> (weights: (BTreeSet<(u64, u64)>, BTreeMap<(u64, u64), u64>))
    requires
        stake_sum(graph_stakes(committee@, batch_views(graphs@))) <= Stake::MAX,
    ensures
        forall|e: (u64, u64)| #[trigger]
            count_of(weights.1@, e) == edge_weight(
                committee@,
                batch_views(graphs@),
                nodes@,
                e,
            ),
        forall|e: (u64, u64)|
            #![trigger weights.0@.contains(e)]
            edge_weight(committee@, batch_views(graphs@), nodes@, e) > 0 ==> weights.0@.contains(e),
        forall|e: (u64, u64)| #[trigger]
            weights.0@.contains(e) ==> nodes@.contains(e.0) && nodes@.contains(e.1) && e.0 != e.1,
{
    let stakes = collect_stakes(committee, graphs);
    let votes = collect_edge_votes(graphs, nodes);
    let ghost views = batch_views(graphs@);
    let counts = tally_pairs(&stakes, &votes);
    let candidates = union_of_pairs(&votes);
    proof {
        assert forall|e: (u64, u64)|
            #![trigger candidates@.contains(e)]
            edge_weight(committee@, views, nodes@, e) > 0 implies candidates@.contains(e) by {
            lemma_tally_positive(stakes@, set_views(votes@), e);
        }
        assert forall|e: (u64, u64)| #[trigger] candidates@.contains(e) implies nodes@.contains(e.0)
            && nodes@.contains(e.1) && e.0 != e.1 by {
            let i = choose|i: int|
                0 <= i < votes@.len() && (#[trigger] set_views(votes@)[i]).contains(e);
            assert(edge_votes(views, nodes@)[i].contains(e));
        }
    }
    (candidates, counts)
}

/// The edges of the same state key that have enough stake, and more than the opposite edge.
pub(crate) fn build_weighted_edges(
    candidates: &BTreeSet<(u64, u64)>,
    state_key: &BTreeMap<u64, u8>,
    weights: &BTreeMap<(u64, u64), u64>,
    threshold: u64,
) -> (edges: BTreeSet<(u64, u64)>)
    ensures
        forall|e: (u64, u64)| #[trigger]
            edges@.contains(e) <==> candidates@.contains(e) && same_key(state_key@, e.0, e.1)
                && count_of(weights@, e) >= threshold && count_of(weights@, e) > count_of(
                weights@,
                (e.1, e.0),
            ),
{
    let listed = list_pairs(candidates);
    let mut edges: BTreeSet<(u64, u64)> = BTreeSet::new();
    for i in 0..listed.len()
        invariant
            forall|e: (u64, u64)| #[trigger]
                edges@.contains(e) <==> listed@.take(i as int).contains(e) && same_key(
                    state_key@,
                    e.0,
                    e.1,
                ) && count_of(weights@, e) >= threshold && count_of(weights@, e) > count_of(
                    weights@,
                    (e.1, e.0),
                ),
    {
        let (from, to) = listed[i];
        let ghost seen = listed@.take(i as int);
        proof {
            lemma_push_contains(seen, (from, to));
            assert(listed@.take(i + 1) =~= seen.push((from, to)));
        }
        let forward = pair_count(weights, (from, to));
        let backward = pair_count(weights, (to, from));
        if writes_same_key(state_key, from, to) && forward >= threshold && forward > backward {
            edges.insert((from, to));
        }
    }
    proof {
        assert(listed@.take(listed@.len() as int) =~= listed@);
        assert forall|e: (u64, u64)| #[trigger] edges@.contains(e) <==> candidates@.contains(e)
            && same_key(state_key@, e.0, e.1) && count_of(weights@, e) >= threshold && count_of(
            weights@,
            e,
        ) > count_of(weights@, (e.1, e.0)) by {
            assert(listed@.contains(e) <==> listed@.to_set().contains(e));
        }
    }
    edges
}

/// Whether `a` and `b` write the same state.
pub(crate) fn writes_same_key(state_key: &BTreeMap<u64, u8>, a: u64, b: u64) -> (same: bool)
    ensures
        same == same_key(state_key@, a, b),
{
    match state_key.get(&a) {
        Some(left) => match state_key.get(&b) {
            Some(right) => *left == *right,
            None => false,
        },
        None => false,
    }
}

/// The pairs whose order a graph claims.
fn collect_claims(graph: &Batch) -> (pairs: BTreeSet<(u64, u64)>)
    ensures
        pairs@ == claims(graph@),
{
    let mut pairs = set_of_pairs(&graph.edges);
    let ghost edges = graph.edges@.to_set();
    for i in 0..graph.missing_edges.len()
        invariant
            edges == graph.edges@.to_set(),
            pairs@ == edges.union(graph.missing_edges@.take(i as int).to_set()),
    {
        let ghost seen = graph.missing_edges@.take(i as int);
        proof {
            assert(graph.missing_edges@.take(i + 1) =~= seen.push(graph.missing_edges@[i as int]));
            seen.lemma_push_to_set_commute(graph.missing_edges@[i as int]);
        }
        pairs.insert(graph.missing_edges[i]);
        assert(pairs@ =~= edges.union(seen.to_set().insert(graph.missing_edges@[i as int])));
    }
    assert(graph.missing_edges@.take(graph.missing_edges@.len() as int) =~= graph.missing_edges@);
    pairs
}

/// Removes from `pairs` what a graph of `author` claims.
fn drop_claimed(pairs: &mut BTreeSet<(u64, u64)>, graphs: &Vec<Batch>, author: &PublicKey)
    ensures
        final(pairs)@ == old(pairs)@.difference(claimed_by(batch_views(graphs@), *author)),
{
    let ghost before = pairs@;
    let ghost views = batch_views(graphs@);
    for i in 0..graphs.len()
        invariant
            views == batch_views(graphs@),
            forall|p: (u64, u64)| #[trigger]
                pairs@.contains(p) <==> before.contains(p) && !claimed_by(
                    views.take(i as int),
                    *author,
                ).contains(p),
    {
        let ghost at = pairs@;
        let ghost mut dropped = Set::<(u64, u64)>::empty();
        if graphs[i].author == *author {
            let listed = list_pairs(&collect_claims(&graphs[i]));
            proof {
                dropped = listed@.to_set();
            }
            for j in 0..listed.len()
                invariant
                    pairs@ == at.difference(listed@.take(j as int).to_set()),
            {
                let ghost seen = listed@.take(j as int);
                proof {
                    assert(listed@.take(j + 1) =~= seen.push(listed@[j as int]));
                    seen.lemma_push_to_set_commute(listed@[j as int]);
                }
                pairs.remove(&listed[j]);
                assert(pairs@ =~= at.difference(seen.to_set().insert(listed@[j as int])));
            }
            assert(listed@.take(listed@.len() as int) =~= listed@);
        }
        assert(pairs@ =~= at.difference(dropped));
        assert forall|p: (u64, u64)| #[trigger] pairs@.contains(p) <==> before.contains(p)
            && !claimed_by(views.take(i + 1), *author).contains(p) by {
            let fewer = views.take(i as int);
            let more = views.take(i + 1);
            assert(more[i as int] == graphs@[i as int]@);
            assert(claimed_by(more, *author).contains(p) <==> claimed_by(fewer, *author).contains(p)
                || dropped.contains(p)) by {
                if claimed_by(fewer, *author).contains(p) {
                    let k = choose|k: int|
                        0 <= k < fewer.len() && (#[trigger] fewer[k]).author == *author && claims(
                            fewer[k],
                        ).contains(p);
                    assert(more[k] == fewer[k]);
                }
                if claimed_by(more, *author).contains(p) {
                    let k = choose|k: int|
                        0 <= k < more.len() && (#[trigger] more[k]).author == *author && claims(
                            more[k],
                        ).contains(p);
                    if k < i {
                        assert(more[k] == fewer[k]);
                    }
                }
            }
            assert(at.contains(p) <==> before.contains(p) && !claimed_by(fewer, *author).contains(
                p,
            ));
        }
    }
    assert(views.take(views.len() as int) =~= views);
    assert(pairs@ =~= before.difference(claimed_by(views, *author)));
}

/// The stake behind each claim on the order of two of the `nodes`.
pub(crate) fn collect_claim_weights(
    committee: &Committee,
    graphs: &Vec<Batch>,
    earlier: &Vec<(PublicKey, BTreeSet<(u64, u64)>)>,
    nodes: &BTreeSet<u64>,
) -> (weights: BTreeMap<(u64, u64), u64>)
    requires
        stake_sum(
            claim_stakes(committee@, batch_views(graphs@), earlier_views(earlier@)),
        ) <= u64::MAX,
    ensures
        forall|p: (u64, u64)| #[trigger]
            count_of(weights@, p) == claim_weight(
                committee@,
                batch_views(graphs@),
                earlier_views(earlier@),
                nodes@,
                p,
            ),
{
    let ghost views = batch_views(graphs@);
    let ghost past = earlier_views(earlier@);
    let ghost all_stakes = claim_stakes(committee@, views, past);
    let ghost all_votes = claim_votes(views, past, nodes@);
    let mut stakes = collect_stakes(committee, graphs);
    let mut votes: Vec<BTreeSet<(u64, u64)>> = Vec::new();
    for i in 0..graphs.len()
        invariant
            views == batch_views(graphs@),
            all_votes == claim_votes(views, past, nodes@),
            set_views(votes@) == all_votes.take(i as int),
    {
        let ghost before = votes@;
        let vote = restrict_edges(nodes, &collect_claims(&graphs[i]));
        votes.push(vote);
        assert(set_views(votes@) =~= set_views(before).push(vote@));
        assert(all_votes[i as int] == proper_edges(nodes@, claims(views[i as int])));
        assert(all_votes.take(i + 1) =~= all_votes.take(i as int).push(all_votes[i as int]));
    }
    assert(stakes@ =~= all_stakes.take(views.len() as int));
    for i in 0..earlier.len()
        invariant
            views == batch_views(graphs@),
            past == earlier_views(earlier@),
            all_stakes == claim_stakes(committee@, views, past),
            all_votes == claim_votes(views, past, nodes@),
            stakes@ == all_stakes.take(views.len() + i),
            set_views(votes@) == all_votes.take(views.len() + i),
    {
        let ghost before = votes@;
        let ghost at = views.len() + i;
        let mut vote = restrict_edges(nodes, &earlier[i].1);
        drop_claimed(&mut vote, graphs, &earlier[i].0);
        let stake = committee.stake(&earlier[i].0);
        assert(past[i as int] == (earlier@[i as int].0, earlier@[i as int].1@));
        stakes.push(stake);
        let ghost vote_view = vote@;
        votes.push(vote);
        assert(set_views(votes@) =~= set_views(before).push(vote_view));
        assert(all_votes[at] == proper_edges(nodes@, past[i as int].1).difference(
            claimed_by(views, past[i as int].0),
        ));
        assert(all_stakes[at] == stake_of(committee@, past[i as int].0));
        assert(all_votes.take(at + 1) =~= all_votes.take(at).push(all_votes[at]));
        assert(all_stakes.take(at + 1) =~= all_stakes.take(at).push(all_stakes[at]));
    }
    assert(all_votes.take(all_votes.len() as int) =~= all_votes);
    assert(all_stakes.take(all_stakes.len() as int) =~= all_stakes);
    tally_pairs(&stakes, &votes)
}

/// The missing pairs of a graph with exactly one end in `nodes`.
fn collect_external_pairs(graph: &Batch, nodes: &BTreeSet<u64>) -> (pairs: BTreeSet<(u64, u64)>)
    ensures
        pairs@ == external_pairs(graph@, nodes@),
{
    let mut pairs: BTreeSet<(u64, u64)> = BTreeSet::new();
    let ghost all = graph.missing_edges@;
    for i in 0..graph.missing_edges.len()
        invariant
            all == graph.missing_edges@,
            forall|p: (u64, u64)| #[trigger]
                pairs@.contains(p) <==> p.0 != p.1 && nodes@.contains(p.0) != nodes@.contains(p.1)
                    && exists|j: int|
                    0 <= j < i && p == canonical_pair((#[trigger] all[j]).0, all[j].1),
    {
        let ghost before = pairs@;
        let (from, to) = graph.missing_edges[i];
        let pair = canonical_missing_edge(from, to);
        let left_in = nodes.contains(&pair.0);
        let right_in = nodes.contains(&pair.1);
        if pair.0 != pair.1 && left_in != right_in {
            pairs.insert(pair);
        }
        assert forall|p: (u64, u64)| #[trigger] pairs@.contains(p) <==> p.0 != p.1
            && nodes@.contains(p.0) != nodes@.contains(p.1) && exists|j: int|
            0 <= j < i + 1 && p == canonical_pair((#[trigger] all[j]).0, all[j].1) by {
            assert(all[i as int] == (from, to));
            assert(before.contains(p) <==> p.0 != p.1 && nodes@.contains(p.0) != nodes@.contains(
                p.1,
            ) && exists|j: int|
                0 <= j < i && p == canonical_pair((#[trigger] all[j]).0, all[j].1));
        }
    }
    assert(pairs@ =~= external_pairs(graph@, nodes@));
    pairs
}

/// The missing pairs with exactly one end in `nodes` that have enough stake behind them.
pub(crate) fn collect_forwarded_external_missing_edges(
    committee: &Committee,
    graphs: &Vec<Batch>,
    nodes: &BTreeSet<u64>,
    threshold: u64,
) -> (pairs: BTreeSet<(u64, u64)>)
    requires
        stake_sum(graph_stakes(committee@, batch_views(graphs@))) <= Stake::MAX,
        threshold > 0,
    ensures
        pairs@ == forwarded_pairs(
            committee@,
            batch_views(graphs@),
            nodes@,
            threshold as nat,
        ),
{
    let stakes = collect_stakes(committee, graphs);
    let mut votes: Vec<BTreeSet<(u64, u64)>> = Vec::new();
    let ghost views = batch_views(graphs@);
    let ghost all = external_votes(views, nodes@);
    for i in 0..graphs.len()
        invariant
            views == batch_views(graphs@),
            all == external_votes(views, nodes@),
            set_views(votes@) == all.take(i as int),
    {
        let ghost before = votes@;
        let vote = collect_external_pairs(&graphs[i], nodes);
        votes.push(vote);
        assert(set_views(votes@) =~= set_views(before).push(vote@));
        assert(all.take(i + 1) =~= all.take(i as int).push(all[i as int]));
    }
    assert(all.take(all.len() as int) =~= all);
    let counts = tally_pairs(&stakes, &votes);
    let candidates = list_pairs(&union_of_pairs(&votes));
    let mut pairs: BTreeSet<(u64, u64)> = BTreeSet::new();
    for i in 0..candidates.len()
        invariant
            forall|p: (u64, u64)| #[trigger]
                pairs@.contains(p) <==> candidates@.take(i as int).contains(p) && count_of(
                    counts@,
                    p,
                ) >= threshold,
    {
        let pair = candidates[i];
        let ghost seen = candidates@.take(i as int);
        proof {
            lemma_push_contains(seen, pair);
            assert(candidates@.take(i + 1) =~= seen.push(pair));
        }
        if pair_count(&counts, pair) >= threshold {
            pairs.insert(pair);
        }
    }
    proof {
        assert(candidates@.take(candidates@.len() as int) =~= candidates@);
        assert forall|p: (u64, u64)| pairs@.contains(p) <==> forwarded_pairs(
            committee@,
            views,
            nodes@,
            threshold as nat,
        ).contains(p) by {
            assert(count_of(counts@, p) == tally(stakes@, all, p));
            if count_of(counts@, p) >= threshold {
                lemma_tally_positive(stakes@, all, p);
                let i = choose|i: int| 0 <= i < all.len() && (#[trigger] all[i]).contains(p);
                assert(set_views(votes@)[i].contains(p));
                assert(candidates@.to_set().contains(p));
            }
        }
        assert(pairs@ =~= forwarded_pairs(committee@, views, nodes@, threshold as nat));
    }
    pairs
}

} // verus!
