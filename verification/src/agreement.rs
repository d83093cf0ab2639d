//! What a global graph does not depend on: the order in which the local graphs come.

use vstd::prelude::*;
use vstd::seq_lib::{group_to_multiset_ensures, to_multiset_contains};
use crate::batch::{bytes_lt, BatchView, PublicKey, Stake};
use crate::committee::stake_of;
use crate::components::proper_edges;
use crate::evidence::{
    all_transactions, first_key, graph_stakes, id_votes, is_canonical,
};
use crate::global_batch::{
    base_edges, candidate_edges, candidates, claim_weights, fixed_transactions, global_edges,
    global_missing, global_nodes, global_order, is_global_batch, lemma_global_batch_unique,
    lemma_global_order, pending_transactions, settled_edges, written_keys,
};
use crate::ordered::lemma_push_contains;
use crate::ordering::{
    are_neighbors, fixed_threshold, is_open_pair, is_promotable, is_promotion, open_pairs,
    pending_threshold, promoted, supported,
};
use crate::support::{
    claim_stakes, claim_votes, claim_weight, claimed_by, claims, edge_votes, edge_weight,
    external_pairs, external_votes, forwarded_pairs, same_key,
};
use crate::transaction::{standard_id, standard_id_and_key, tx_id, tx_ids};
use crate::votes::tally;

verus! {

/// A tally without one of the voters.
proof fn lemma_tally_remove<A>(stakes: Seq<Stake>, votes: Seq<Set<A>>, x: A, k: int)
    requires
        0 <= k < stakes.len(),
        stakes.len() == votes.len(),
    ensures
        tally(stakes, votes, x) == tally(stakes.remove(k), votes.remove(k), x) + (if votes[k].contains(
            x,
        ) {
            stakes[k] as nat
        } else {
            0
        }),
    decreases stakes.len(),
{
    if k == stakes.len() - 1 {
        assert(stakes.remove(k) =~= stakes.drop_last());
        assert(votes.remove(k) =~= votes.drop_last());
    } else {
        lemma_tally_remove(stakes.drop_last(), votes.drop_last(), x, k);
        assert(stakes.remove(k).drop_last() =~= stakes.drop_last().remove(k));
        assert(votes.remove(k).drop_last() =~= votes.drop_last().remove(k));
    }
}

/// The tally of two groups of voters.
proof fn lemma_tally_add<A>(
    stakes: Seq<Stake>,
    votes: Seq<Set<A>>,
    more_stakes: Seq<Stake>,
    more_votes: Seq<Set<A>>,
    x: A,
)
    requires
        stakes.len() == votes.len(),
        more_stakes.len() == more_votes.len(),
    ensures
        tally(stakes + more_stakes, votes + more_votes, x) == tally(stakes, votes, x) + tally(
            more_stakes,
            more_votes,
            x,
        ),
    decreases more_stakes.len(),
{
    if more_stakes.len() == 0 {
        assert(stakes + more_stakes =~= stakes);
        assert(votes + more_votes =~= votes);
    } else {
        lemma_tally_add(stakes, votes, more_stakes.drop_last(), more_votes.drop_last(), x);
        assert((stakes + more_stakes).drop_last() =~= stakes + more_stakes.drop_last());
        assert((votes + more_votes).drop_last() =~= votes + more_votes.drop_last());
    }
}

/// A tally of graphs does not depend on their order.
proof fn lemma_tally_reordered<A>(
    graphs: Seq<BatchView>,
    others: Seq<BatchView>,
    stake: spec_fn(BatchView) -> Stake,
    vote: spec_fn(BatchView) -> Set<A>,
    x: A,
)
    requires
        graphs.to_multiset() == others.to_multiset(),
    ensures
        tally(graphs.map_values(stake), graphs.map_values(vote), x) == tally(
            others.map_values(stake),
            others.map_values(vote),
            x,
        ),
    decreases graphs.len(),
{
    broadcast use group_to_multiset_ensures;

    graphs.to_multiset_ensures();
    others.to_multiset_ensures();
    assert(graphs.len() == others.len());
    if graphs.len() > 0 {
        let last = graphs.len() - 1;
        let graph = graphs[last];
        assert(graphs.contains(graph));
        assert(others.to_multiset().count(graph) > 0);
        let k = choose|k: int| 0 <= k < others.len() && others[k] == graph;
        assert(graphs.remove(last).to_multiset() == others.remove(k).to_multiset());
        lemma_tally_reordered(graphs.remove(last), others.remove(k), stake, vote, x);
        lemma_tally_remove(graphs.map_values(stake), graphs.map_values(vote), x, last);
        lemma_tally_remove(others.map_values(stake), others.map_values(vote), x, k);
        assert(graphs.map_values(stake).remove(last) =~= graphs.remove(last).map_values(stake));
        assert(graphs.map_values(vote).remove(last) =~= graphs.remove(last).map_values(vote));
        assert(others.map_values(stake).remove(k) =~= others.remove(k).map_values(stake));
        assert(others.map_values(vote).remove(k) =~= others.remove(k).map_values(vote));
    }
}

/// The same graphs in another order have the same members.
proof fn lemma_same_graphs(graphs: Seq<BatchView>, others: Seq<BatchView>)
    requires
        graphs.to_multiset() == others.to_multiset(),
    ensures
        forall|graph: BatchView| #[trigger] graphs.contains(graph) <==> others.contains(graph),
{
    assert forall|graph: BatchView| #[trigger] graphs.contains(graph) <==> others.contains(graph) by {
        to_multiset_contains(graphs, graph);
        to_multiset_contains(others, graph);
    }
}

/// A transaction of the graphs is one of a graph.
proof fn lemma_of_a_graph(graphs: Seq<BatchView>, tx: Seq<u8>)
    ensures
        all_transactions(graphs).contains(tx) <==> exists|graph: BatchView| #[trigger]
            graphs.contains(graph) && graph.transactions.contains(tx),
    decreases graphs.len(),
{
    let all = all_transactions(graphs);
    if graphs.len() > 0 {
        let fewer = graphs.drop_last();
        let before = all_transactions(fewer);
        let last = graphs.last();
        lemma_of_a_graph(fewer, tx);
        assert(graphs.contains(last));
        if all.contains(tx) {
            let i = choose|i: int| 0 <= i < all.len() && all[i] == tx;
            if i < before.len() {
                assert(before[i] == tx);
                let graph = choose|graph: BatchView| #[trigger]
                    fewer.contains(graph) && graph.transactions.contains(tx);
                let k = choose|k: int| 0 <= k < fewer.len() && fewer[k] == graph;
                assert(graphs[k] == graph);
                assert(graphs.contains(graph));
            } else {
                assert(last.transactions[i - before.len()] == tx);
            }
        }
        if exists|graph: BatchView| #[trigger]
            graphs.contains(graph) && graph.transactions.contains(tx) {
            let graph = choose|graph: BatchView| #[trigger]
                graphs.contains(graph) && graph.transactions.contains(tx);
            let k = choose|k: int| 0 <= k < graphs.len() && graphs[k] == graph;
            if k < fewer.len() {
                assert(fewer[k] == graph);
                assert(fewer.contains(graph));
                assert(before.contains(tx));
                let i = choose|i: int| 0 <= i < before.len() && before[i] == tx;
                assert(all[i] == tx);
            } else {
                let i = choose|i: int|
                    0 <= i < graph.transactions.len() && graph.transactions[i] == tx;
                assert(all[before.len() + i] == tx);
            }
        }
    }
}

/// The same graphs in another order have the same transactions.
proof fn lemma_same_transactions(graphs: Seq<BatchView>, others: Seq<BatchView>)
    requires
        graphs.to_multiset() == others.to_multiset(),
    ensures
        forall|tx: Seq<u8>| #[trigger]
            all_transactions(graphs).contains(tx) <==> all_transactions(others).contains(tx),
{
    lemma_same_graphs(graphs, others);
    assert forall|tx: Seq<u8>| #[trigger]
        all_transactions(graphs).contains(tx) <==> all_transactions(others).contains(tx) by {
        lemma_of_a_graph(graphs, tx);
        lemma_of_a_graph(others, tx);
        if all_transactions(graphs).contains(tx) {
            let graph = choose|graph: BatchView| #[trigger]
                graphs.contains(graph) && graph.transactions.contains(tx);
            assert(others.contains(graph));
        }
        if all_transactions(others).contains(tx) {
            let graph = choose|graph: BatchView| #[trigger]
                others.contains(graph) && graph.transactions.contains(tx);
            assert(graphs.contains(graph));
        }
    }
}

/// Which transaction stands for an identifier does not depend on the order of the transactions.
proof fn lemma_canonical_reordered(txs: Seq<Seq<u8>>, others: Seq<Seq<u8>>, id: u64, tx: Seq<u8>)
    requires
        forall|t: Seq<u8>| #[trigger] txs.contains(t) <==> others.contains(t),
        is_canonical(txs, id, tx),
    ensures
        is_canonical(others, id, tx),
{
    assert(txs.contains(tx));
    assert forall|i: int|
        0 <= i < others.len() && tx_id(#[trigger] others[i]) == Some(id) implies !bytes_lt(
        others[i],
        tx,
    ) by {
        assert(others.contains(others[i]));
        assert(txs.contains(others[i]));
        let k = choose|k: int| 0 <= k < txs.len() && txs[k] == others[i];
        assert(tx_id(txs[k]) == Some(id));
    }
}

/// The transactions that have enough stake behind them do not depend on the order of the graphs.
proof fn lemma_supported_reordered(
    members: Seq<(PublicKey, Stake)>,
    graphs: Seq<BatchView>,
    others: Seq<BatchView>,
    threshold: nat,
)
    requires
        graphs.to_multiset() == others.to_multiset(),
    ensures
        supported(members, graphs, threshold) == supported(members, others, threshold),
{
    let stake = |graph: BatchView| stake_of(members, graph.author);
    let vote = |graph: BatchView| tx_ids(graph.transactions);
    assert forall|id: u64|
        supported(members, graphs, threshold).contains(id) <==> supported(
            members,
            others,
            threshold,
        ).contains(id) by {
        lemma_tally_reordered(graphs, others, stake, vote, id);
        assert(graph_stakes(members, graphs) =~= graphs.map_values(stake));
        assert(graph_stakes(members, others) =~= others.map_values(stake));
        assert(id_votes(graphs) =~= graphs.map_values(vote));
        assert(id_votes(others) =~= others.map_values(vote));
    }
    assert(supported(members, graphs, threshold) =~= supported(members, others, threshold));
}

/// Nor does the stake behind an edge.
proof fn lemma_edge_weight_reordered(
    members: Seq<(PublicKey, Stake)>,
    graphs: Seq<BatchView>,
    others: Seq<BatchView>,
    nodes: Set<u64>,
    e: (u64, u64),
)
    requires
        graphs.to_multiset() == others.to_multiset(),
    ensures
        edge_weight(members, graphs, nodes, e) == edge_weight(members, others, nodes, e),
{
    let stake = |graph: BatchView| stake_of(members, graph.author);
    let vote = |graph: BatchView| proper_edges(nodes, graph.edges.to_set());
    lemma_tally_reordered(graphs, others, stake, vote, e);
    assert(graph_stakes(members, graphs) =~= graphs.map_values(stake));
    assert(graph_stakes(members, others) =~= others.map_values(stake));
    assert(edge_votes(graphs, nodes) =~= graphs.map_values(vote));
    assert(edge_votes(others, nodes) =~= others.map_values(vote));
}

/// Nor do the forwarded pairs.
proof fn lemma_forwarded_reordered(
    members: Seq<(PublicKey, Stake)>,
    graphs: Seq<BatchView>,
    others: Seq<BatchView>,
    nodes: Set<u64>,
    threshold: nat,
)
    requires
        graphs.to_multiset() == others.to_multiset(),
    ensures
        forwarded_pairs(members, graphs, nodes, threshold) == forwarded_pairs(
            members,
            others,
            nodes,
            threshold,
        ),
{
    let stake = |graph: BatchView| stake_of(members, graph.author);
    let vote = |graph: BatchView| external_pairs(graph, nodes);
    assert forall|p: (u64, u64)|
        forwarded_pairs(members, graphs, nodes, threshold).contains(p) <==> forwarded_pairs(
            members,
            others,
            nodes,
            threshold,
        ).contains(p) by {
        lemma_tally_reordered(graphs, others, stake, vote, p);
        assert(graph_stakes(members, graphs) =~= graphs.map_values(stake));
        assert(graph_stakes(members, others) =~= others.map_values(stake));
        assert(external_votes(graphs, nodes) =~= graphs.map_values(vote));
        assert(external_votes(others, nodes) =~= others.map_values(vote));
    }
    assert(forwarded_pairs(members, graphs, nodes, threshold) =~= forwarded_pairs(
        members,
        others,
        nodes,
        threshold,
    ));
}

/// Nor does what an author claims.
proof fn lemma_claimed_reordered(
    graphs: Seq<BatchView>,
    others: Seq<BatchView>,
    author: PublicKey,
    p: (u64, u64),
)
    requires
        forall|graph: BatchView| #[trigger] graphs.contains(graph) <==> others.contains(graph),
        claimed_by(graphs, author).contains(p),
    ensures
        claimed_by(others, author).contains(p),
{
    let i = choose|i: int|
        0 <= i < graphs.len() && (#[trigger] graphs[i]).author == author && claims(
            graphs[i],
        ).contains(p);
    assert(graphs.contains(graphs[i]));
    assert(others.contains(graphs[i]));
    let k = choose|k: int| 0 <= k < others.len() && others[k] == graphs[i];
    assert(others[k].author == author);
}

/// Nor does the stake behind a claim.
proof fn lemma_claim_weight_reordered(
    members: Seq<(PublicKey, Stake)>,
    graphs: Seq<BatchView>,
    others: Seq<BatchView>,
    earlier: Seq<(PublicKey, Set<(u64, u64)>)>,
    nodes: Set<u64>,
    p: (u64, u64),
)
    requires
        graphs.to_multiset() == others.to_multiset(),
    ensures
        claim_weight(members, graphs, earlier, nodes, p) == claim_weight(
            members,
            others,
            earlier,
            nodes,
            p,
        ),
{
    let stake = |graph: BatchView| stake_of(members, graph.author);
    let vote = |graph: BatchView| proper_edges(nodes, claims(graph));
    let past_stakes = earlier.map_values(
        |entry: (PublicKey, Set<(u64, u64)>)| stake_of(members, entry.0),
    );
    let past = earlier.map_values(
        |entry: (PublicKey, Set<(u64, u64)>)|
            proper_edges(nodes, entry.1).difference(claimed_by(graphs, entry.0)),
    );
    let past_others = earlier.map_values(
        |entry: (PublicKey, Set<(u64, u64)>)|
            proper_edges(nodes, entry.1).difference(claimed_by(others, entry.0)),
    );
    lemma_same_graphs(graphs, others);
    assert forall|i: int| 0 <= i < earlier.len() implies past[i] == past_others[i] by {
        let author = earlier[i].0;
        assert forall|q: (u64, u64)|
            claimed_by(graphs, author).contains(q) <==> claimed_by(others, author).contains(q) by {
            if claimed_by(graphs, author).contains(q) {
                lemma_claimed_reordered(graphs, others, author, q);
            }
            if claimed_by(others, author).contains(q) {
                lemma_claimed_reordered(others, graphs, author, q);
            }
        }
        assert(claimed_by(graphs, author) =~= claimed_by(others, author));
    }
    assert(past =~= past_others);
    lemma_tally_reordered(graphs, others, stake, vote, p);
    lemma_tally_add(graphs.map_values(stake), graphs.map_values(vote), past_stakes, past, p);
    lemma_tally_add(others.map_values(stake), others.map_values(vote), past_stakes, past, p);
    assert(claim_stakes(members, graphs, earlier) =~= graphs.map_values(stake) + past_stakes);
    assert(claim_stakes(members, others, earlier) =~= others.map_values(stake) + past_stakes);
    assert(claim_votes(graphs, earlier, nodes) =~= graphs.map_values(vote) + past);
    assert(claim_votes(others, earlier, nodes) =~= others.map_values(vote) + past);
}

/// The keys of `ids` are the same in both.
pub open spec fn keys_agree(ids: Set<u64>, keys: Map<u64, u8>, others: Map<u64, u8>) -> bool {
    forall|id: u64| #[trigger]
        ids.contains(id) ==> (keys.contains_key(id) <==> others.contains_key(id)) && (
        keys.contains_key(id) ==> keys[id] == others[id])
}

/// Promotion rests on the keys of what is ordered.
proof fn lemma_promoted_same(
    order: Seq<u64>,
    keys: Map<u64, u8>,
    others: Map<u64, u8>,
    weight: spec_fn((u64, u64)) -> nat,
    threshold: nat,
    edges: Set<(u64, u64)>,
    n: int,
)
    requires
        n <= order.len(),
        keys_agree(order.to_set(), keys, others),
    ensures
        promoted(order, keys, weight, threshold, edges, n) == promoted(
            order,
            others,
            weight,
            threshold,
            edges,
            n,
        ),
    decreases n,
{
    if n > 0 {
        lemma_promoted_same(order, keys, others, weight, threshold, edges, n - 1);
        let before = promoted(order, keys, weight, threshold, edges, n - 1);
        let links = edges.union(before);
        assert forall|j: int| 0 <= j < n implies #[trigger] is_promotable(
            order,
            keys,
            weight,
            threshold,
            links,
            j,
            n - 1,
        ) == is_promotable(order, others, weight, threshold, links, j, n - 1) by {
            assert(order.to_set().contains(order[j]));
            assert(order.to_set().contains(order[n - 1]));
        }
        assert forall|j: int| #[trigger]
            is_promotion(order, keys, weight, threshold, links, j, n - 1) == is_promotion(
                order,
                others,
                weight,
                threshold,
                links,
                j,
                n - 1,
            ) by {
            assert forall|l: int| 0 <= l < n implies #[trigger] is_promotable(
                order,
                others,
                weight,
                threshold,
                links,
                l,
                n - 1,
            ) == is_promotable(order, keys, weight, threshold, links, l, n - 1) by {}
        }
        assert forall|e: (u64, u64)|
            promoted(order, keys, weight, threshold, edges, n).contains(e) <==> promoted(
                order,
                others,
                weight,
                threshold,
                edges,
                n,
            ).contains(e) by {
            if exists|j: int| #[trigger]
                is_promotion(order, keys, weight, threshold, links, j, n - 1) && e == (
                    order[j],
                    order[n - 1],
                ) {
                let j = choose|j: int| #[trigger]
                    is_promotion(order, keys, weight, threshold, links, j, n - 1) && e == (
                        order[j],
                        order[n - 1],
                    );
                assert(is_promotion(order, others, weight, threshold, links, j, n - 1));
            }
            if exists|j: int| #[trigger]
                is_promotion(order, others, weight, threshold, links, j, n - 1) && e == (
                    order[j],
                    order[n - 1],
                ) {
                let j = choose|j: int| #[trigger]
                    is_promotion(order, others, weight, threshold, links, j, n - 1) && e == (
                        order[j],
                        order[n - 1],
                    );
                assert(is_promotion(order, keys, weight, threshold, links, j, n - 1));
            }
        }
        assert(promoted(order, keys, weight, threshold, edges, n) =~= promoted(
            order,
            others,
            weight,
            threshold,
            edges,
            n,
        ));
    }
}

/// So does what is left open.
proof fn lemma_open_pairs_same(
    order: Seq<u64>,
    keys: Map<u64, u8>,
    others: Map<u64, u8>,
    nodes: Set<u64>,
    base: Set<(u64, u64)>,
    edges: Set<(u64, u64)>,
)
    requires
        keys_agree(order.to_set(), keys, others),
    ensures
        open_pairs(order, keys, nodes, base, edges) == open_pairs(
            order,
            others,
            nodes,
            base,
            edges,
        ),
{
    assert forall|i: int| 0 <= i < order.len() implies order.to_set().contains(
        #[trigger] order[i],
    ) by {}
    assert forall|i: int, j: int|
        are_neighbors(order, keys, i, j) == #[trigger] are_neighbors(order, others, i, j) by {}
    assert forall|e: (u64, u64)|
        open_pairs(order, keys, nodes, base, edges).contains(e) <==> open_pairs(
            order,
            others,
            nodes,
            base,
            edges,
        ).contains(e) by {
        if open_pairs(order, keys, nodes, base, edges).contains(e) {
            let (i, j) = choose|i: int, j: int| #[trigger]
                is_open_pair(order, keys, nodes, base, edges, i, j) && e == (order[i], order[j]);
            assert(are_neighbors(order, others, i, j));
            assert(is_open_pair(order, others, nodes, base, edges, i, j));
        }
        if open_pairs(order, others, nodes, base, edges).contains(e) {
            let (i, j) = choose|i: int, j: int| #[trigger]
                is_open_pair(order, others, nodes, base, edges, i, j) && e == (order[i], order[j]);
            assert(are_neighbors(order, others, i, j));
            assert(is_open_pair(order, keys, nodes, base, edges, i, j));
        }
    }
    assert(open_pairs(order, keys, nodes, base, edges) =~= open_pairs(
        order,
        others,
        nodes,
        base,
        edges,
    ));
}

/// The graph before cycles are broken does not depend on the order of the local graphs.
proof fn lemma_base_reordered(
    members: Seq<(PublicKey, Stake)>,
    graphs: Seq<BatchView>,
    others: Seq<BatchView>,
)
    requires
        graphs.to_multiset() == others.to_multiset(),
        keys_agree(candidates(members, graphs), written_keys(graphs), written_keys(others)),
    ensures
        candidates(members, graphs) == candidates(members, others),
        global_nodes(members, graphs) == global_nodes(members, others),
        base_edges(members, graphs) == base_edges(members, others),
        settled_edges(members, graphs) == settled_edges(members, others),
        global_order(members, graphs) == global_order(members, others),
{
    lemma_supported_reordered(members, graphs, others, pending_threshold(members.len()));
    lemma_supported_reordered(members, graphs, others, fixed_threshold(members.len()));
    assert(fixed_transactions(members, graphs) == fixed_transactions(members, others));
    assert(pending_transactions(members, graphs) == pending_transactions(members, others));
    let nodes = candidates(members, graphs);
    assert forall|e: (u64, u64)|
        candidate_edges(members, graphs).contains(e) <==> candidate_edges(members, others).contains(
            e,
        ) by {
        lemma_edge_weight_reordered(members, graphs, others, nodes, e);
        lemma_edge_weight_reordered(members, graphs, others, nodes, (e.1, e.0));
        if nodes.contains(e.0) && nodes.contains(e.1) {
            assert(same_key(written_keys(graphs), e.0, e.1) == same_key(
                written_keys(others),
                e.0,
                e.1,
            ));
        }
    }
    assert(candidate_edges(members, graphs) =~= candidate_edges(members, others));
}

/// The global graph does not depend on the order in which the local graphs come, as long as that
/// order does not decide which state a candidate writes.
pub proof fn lemma_order_of_graphs_is_ignored(
    name: PublicKey,
    members: Seq<(PublicKey, Stake)>,
    sequence: u64,
    graphs: Seq<BatchView>,
    others: Seq<BatchView>,
    earlier: Seq<(PublicKey, Set<(u64, u64)>)>,
    a: BatchView,
    b: BatchView,
)
    requires
        graphs.to_multiset() == others.to_multiset(),
        keys_agree(candidates(members, graphs), written_keys(graphs), written_keys(others)),
        is_global_batch(name, members, sequence, graphs, earlier, a),
        is_global_batch(name, members, sequence, others, earlier, b),
    ensures
        a == b,
{
    let nodes = global_nodes(members, graphs);
    let order = global_order(members, graphs);
    let keys = written_keys(graphs);
    let other_keys = written_keys(others);
    let threshold = pending_threshold(members.len());
    lemma_base_reordered(members, graphs, others);
    lemma_global_order(members, graphs, earlier);
    assert(keys_agree(order.to_set(), keys, other_keys)) by {
        assert forall|id: u64| #[trigger] order.to_set().contains(id) implies candidates(
            members,
            graphs,
        ).contains(id) by {
            assert(nodes.contains(id));
        }
    }
    assert forall|p: (u64, u64)| #[trigger]
        claim_weight(members, graphs, earlier, nodes, p) == claim_weight(
            members,
            others,
            earlier,
            nodes,
            p,
        ) by {
        lemma_claim_weight_reordered(members, graphs, others, earlier, nodes, p);
    }
    let weight = claim_weights(members, graphs, earlier);
    assert(weight =~= claim_weights(members, others, earlier));
    let settled = settled_edges(members, graphs);
    lemma_promoted_same(order, keys, other_keys, weight, threshold, settled, order.len() as int);
    assert(global_edges(members, graphs, earlier) == global_edges(members, others, earlier));
    lemma_open_pairs_same(
        order,
        keys,
        other_keys,
        nodes,
        base_edges(members, graphs),
        global_edges(members, graphs, earlier),
    );
    lemma_forwarded_reordered(members, graphs, others, nodes, threshold);
    assert(global_missing(members, graphs, earlier) == global_missing(members, others, earlier));
    lemma_same_transactions(graphs, others);
    assert forall|i: int| 0 <= i < order.len() implies is_canonical(
        all_transactions(graphs),
        order[i],
        #[trigger] b.transactions[i],
    ) by {
        lemma_canonical_reordered(
            all_transactions(others),
            all_transactions(graphs),
            order[i],
            b.transactions[i],
        );
    }
    assert(is_global_batch(name, members, sequence, graphs, earlier, b));
    lemma_global_batch_unique(name, members, sequence, graphs, earlier, a, b);
}

/// No two standard transactions with the same identifier write different states.
pub open spec fn one_key_each(txs: Seq<Seq<u8>>) -> bool {
    forall|s: Seq<u8>, t: Seq<u8>|
        #![trigger txs.contains(s), txs.contains(t)]
        txs.contains(s) && txs.contains(t) && standard_id(s) is Some && standard_id(s)
            == standard_id(t) ==> standard_id_and_key(s) == standard_id_and_key(t)
}

/// A key that is found is that of a transaction, and none is passed over.
proof fn lemma_first_key(txs: Seq<Seq<u8>>, id: u64)
    ensures
        first_key(txs, id) matches Some(key) ==> exists|t: Seq<u8>| #[trigger]
            txs.contains(t) && standard_id_and_key(t) == Some((id, key)),
        first_key(txs, id) is None ==> forall|t: Seq<u8>| #[trigger]
            txs.contains(t) ==> (standard_id_and_key(t) matches Some((other, _)) ==> other != id),
    decreases txs.len(),
{
    if txs.len() > 0 {
        let fewer = txs.drop_last();
        lemma_first_key(fewer, id);
        assert(txs =~= fewer.push(txs.last()));
        lemma_push_contains(fewer, txs.last());
        assert(txs.contains(txs.last()));
        if let Some(key) = first_key(fewer, id) {
            let t = choose|t: Seq<u8>| #[trigger]
                fewer.contains(t) && standard_id_and_key(t) == Some((id, key));
            assert(txs.contains(t));
        }
    }
}

/// Where every identifier comes with one state, the order of the graphs does not decide which.
pub proof fn lemma_one_key_each(graphs: Seq<BatchView>, others: Seq<BatchView>)
    requires
        graphs.to_multiset() == others.to_multiset(),
        one_key_each(all_transactions(graphs)),
    ensures
        written_keys(graphs) == written_keys(others),
{
    let txs = all_transactions(graphs);
    let other_txs = all_transactions(others);
    lemma_same_transactions(graphs, others);
    assert forall|id: u64| first_key(txs, id) == first_key(other_txs, id) by {
        lemma_first_key(txs, id);
        lemma_first_key(other_txs, id);
        if let Some(key) = first_key(txs, id) {
            let s = choose|s: Seq<u8>| #[trigger]
                txs.contains(s) && standard_id_and_key(s) == Some((id, key));
            assert(other_txs.contains(s));
            if let Some(other) = first_key(other_txs, id) {
                let t = choose|t: Seq<u8>| #[trigger]
                    other_txs.contains(t) && standard_id_and_key(t) == Some((id, other));
                assert(txs.contains(t));
            }
        } else if let Some(other) = first_key(other_txs, id) {
            let t = choose|t: Seq<u8>| #[trigger]
                other_txs.contains(t) && standard_id_and_key(t) == Some((id, other));
            assert(txs.contains(t));
        }
    }
    assert(written_keys(graphs) =~= written_keys(others));
}

} // verus!
