//! From local graphs to a global one.
//!
//! The transactions that enough graphs support become the nodes, the orders that
//! enough stake stands behind become the edges. Cycles are turned into chains, implied
//! edges are dropped, and the transactions are listed in topological order. What remains
//! open between neighbors of the same state key is recorded as missing.

use std::collections::{BTreeMap, BTreeSet};
use vstd::prelude::*;
use crate::batch::{batch_views, copy_bytes, payloads, Batch, BatchView, PublicKey, Stake};
use crate::committee::{lemma_stake_bound, stake_of, stake_of_all, total_stake, Committee};
use crate::components::{
    component_meets, leads_to_fixed, lemma_linearized_acyclic, linearize_sccs, linearized,
    live_nodes, retain_sccs_with_path_to_fixed, retained_edges, retained_nodes, same_component,
};
use crate::evidence::{
    all_transactions, collect_id_votes, collect_stakes, collect_transactions, graph_stakes,
    id_votes, is_canonical, lemma_canonical_unique, state_keys,
};
use crate::graph::{
    acyclic, induced, lemma_reaches_closed, lemma_reaches_mono, lemma_reaches_self, reaches, within,
};
use crate::ordered::{
    ascending_pairs, lemma_ascending_pairs_unique, lemma_ids_finite, lemma_push_contains, list_ids,
    list_pairs,
};
use crate::ordering::{
    collect_frontier_promoted_in_batch_edges, collect_missing_edges, compute_fixed_threshold,
    compute_pending_threshold, fixed_threshold, is_open_pair, is_promotion, open_pairs,
    pending_threshold, promoted, supported, ORDER_FAIRNESS_GAMMA_DEN, ORDER_FAIRNESS_GAMMA_NUM,
};
use crate::reduction::{reduction, transitive_reduction};
use crate::scc::tarjan_scc;
use crate::support::{
    build_weighted_edges, claim_stakes, claim_weight, collect_claim_weights, collect_edge_weights,
    collect_forwarded_external_missing_edges, earlier_views, external_pairs, external_votes,
    forwarded_pairs, weighted_edges,
};
use crate::topology::{
    is_kahn_order, lemma_kahn_order_complete, lemma_kahn_order_exists, lemma_kahn_order_unique,
    lemma_kahn_prefix, lemma_topological_listing, topological_sort,
};
use crate::transaction::{lemma_tx_ids_finite, tx_id, tx_ids, Transaction};
use crate::votes::{count_of, lemma_tally_positive, set_views, stake_sum, tally, tally_ids};

verus! {

/// The transactions with enough support to be taken into account.
pub open spec fn candidates(members: Seq<(PublicKey, Stake)>, graphs: Seq<BatchView>) -> Set<u64> {
    supported(members, graphs, pending_threshold(members.len()))
}

/// The transactions that are fixed in this round.
pub open spec fn fixed_transactions(
    members: Seq<(PublicKey, Stake)>,
    graphs: Seq<BatchView>,
) -> Set<u64> {
    supported(members, graphs, fixed_threshold(members.len()))
}

/// The transactions that are taken into account without being fixed.
pub open spec fn pending_transactions(
    members: Seq<(PublicKey, Stake)>,
    graphs: Seq<BatchView>,
) -> Set<u64> {
    candidates(members, graphs).difference(fixed_transactions(members, graphs))
}

/// The state that each standard transaction writes.
pub open spec fn written_keys(graphs: Seq<BatchView>) -> Map<u64, u8> {
    state_keys(all_transactions(graphs))
}

/// The edges between the candidates.
pub open spec fn candidate_edges(
    members: Seq<(PublicKey, Stake)>,
    graphs: Seq<BatchView>,
) -> Set<(u64, u64)> {
    weighted_edges(
        members,
        graphs,
        candidates(members, graphs),
        written_keys(graphs),
        pending_threshold(members.len()),
    )
}

/// The transactions of the global graph.
pub open spec fn global_nodes(members: Seq<(PublicKey, Stake)>, graphs: Seq<BatchView>) -> Set<u64> {
    retained_nodes(
        candidates(members, graphs),
        candidate_edges(members, graphs),
        fixed_transactions(members, graphs),
        pending_transactions(members, graphs),
    )
}

/// The edges between them, before cycles are broken.
pub open spec fn base_edges(
    members: Seq<(PublicKey, Stake)>,
    graphs: Seq<BatchView>,
) -> Set<(u64, u64)> {
    retained_edges(
        candidates(members, graphs),
        candidate_edges(members, graphs),
        fixed_transactions(members, graphs),
        pending_transactions(members, graphs),
    )
}

/// The edges after cycles have been turned into chains and implied edges dropped.
pub open spec fn settled_edges(
    members: Seq<(PublicKey, Stake)>,
    graphs: Seq<BatchView>,
) -> Set<(u64, u64)> {
    reduction(linearized(global_nodes(members, graphs), base_edges(members, graphs)))
}

/// The order of the transactions of the global graph.
pub open spec fn global_order(members: Seq<(PublicKey, Stake)>, graphs: Seq<BatchView>) -> Seq<u64> {
    choose|order: Seq<u64>|
        is_kahn_order(global_nodes(members, graphs), settled_edges(members, graphs), order)
}

/// The stake behind each claim on an order, as a function of the pair.
pub open spec fn claim_weights(
    members: Seq<(PublicKey, Stake)>,
    graphs: Seq<BatchView>,
    earlier: Seq<(PublicKey, Set<(u64, u64)>)>,
) -> spec_fn((u64, u64)) -> nat {
    |p: (u64, u64)| claim_weight(members, graphs, earlier, global_nodes(members, graphs), p)
}

/// The edges of the global graph.
pub open spec fn global_edges(
    members: Seq<(PublicKey, Stake)>,
    graphs: Seq<BatchView>,
    earlier: Seq<(PublicKey, Set<(u64, u64)>)>,
) -> Set<(u64, u64)> {
    settled_edges(members, graphs).union(
        promoted(
            global_order(members, graphs),
            written_keys(graphs),
            claim_weights(members, graphs, earlier),
            pending_threshold(members.len()),
            settled_edges(members, graphs),
            global_order(members, graphs).len() as int,
        ),
    )
}

/// The missing pairs of the global graph.
pub open spec fn global_missing(
    members: Seq<(PublicKey, Stake)>,
    graphs: Seq<BatchView>,
    earlier: Seq<(PublicKey, Set<(u64, u64)>)>,
) -> Set<(u64, u64)> {
    open_pairs(
        global_order(members, graphs),
        written_keys(graphs),
        global_nodes(members, graphs),
        base_edges(members, graphs),
        global_edges(members, graphs, earlier),
    ).union(
        forwarded_pairs(
            members,
            graphs,
            global_nodes(members, graphs),
            pending_threshold(members.len()),
        ),
    )
}

/// `batch` is the global graph that `name` derives from the local `graphs`, given the
/// claims of `earlier` rounds.
pub open spec fn is_global_batch(
    name: PublicKey,
    members: Seq<(PublicKey, Stake)>,
    sequence: u64,
    graphs: Seq<BatchView>,
    earlier: Seq<(PublicKey, Set<(u64, u64)>)>,
    batch: BatchView,
) -> bool {
    let order = global_order(members, graphs);
    &&& batch.author == name
    &&& batch.sequence == sequence
    &&& batch.transactions.len() == order.len()
    &&& forall|i: int|
        0 <= i < order.len() ==> is_canonical(
            all_transactions(graphs),
            order[i],
            #[trigger] batch.transactions[i],
        )
    &&& ascending_pairs(batch.edges)
    &&& batch.edges.to_set() == global_edges(members, graphs, earlier)
    &&& ascending_pairs(batch.missing_edges)
    &&& batch.missing_edges.to_set() == global_missing(members, graphs, earlier)
}

/// No two entries are of the same author.
pub open spec fn distinct_authors(earlier: Seq<(PublicKey, Set<(u64, u64)>)>) -> bool {
    forall|i: int, j: int|
        0 <= i < j < earlier.len() ==> (#[trigger] earlier[i]).0 != (#[trigger] earlier[j]).0
}

/// The global graph is determined by what it is derived from.
pub proof fn lemma_global_batch_unique(
    name: PublicKey,
    members: Seq<(PublicKey, Stake)>,
    sequence: u64,
    graphs: Seq<BatchView>,
    earlier: Seq<(PublicKey, Set<(u64, u64)>)>,
    a: BatchView,
    b: BatchView,
)
    requires
        is_global_batch(name, members, sequence, graphs, earlier, a),
        is_global_batch(name, members, sequence, graphs, earlier, b),
    ensures
        a == b,
{
    let order = global_order(members, graphs);
    assert forall|i: int| 0 <= i < order.len() implies a.transactions[i] == b.transactions[i] by {
        lemma_canonical_unique(
            all_transactions(graphs),
            order[i],
            a.transactions[i],
            b.transactions[i],
        );
    }
    assert(a.transactions =~= b.transactions);
    lemma_ascending_pairs_unique(a.edges, b.edges);
    lemma_ascending_pairs_unique(a.missing_edges, b.missing_edges);
}

/// The base edges lead from node to different node.
pub(crate) proof fn lemma_base_edges(members: Seq<(PublicKey, Stake)>, graphs: Seq<BatchView>)
    ensures
        within(global_nodes(members, graphs), base_edges(members, graphs)),
        forall|a: u64| !base_edges(members, graphs).contains((a, a)),
        global_nodes(members, graphs).subset_of(candidates(members, graphs)),
{
}

/// The settled edges have no cycle.
pub(crate) proof fn lemma_settled_edges(members: Seq<(PublicKey, Stake)>, graphs: Seq<BatchView>)
    ensures
        acyclic(settled_edges(members, graphs)),
        within(global_nodes(members, graphs), settled_edges(members, graphs)),
        acyclic(linearized(global_nodes(members, graphs), base_edges(members, graphs))),
        within(
            global_nodes(members, graphs),
            linearized(global_nodes(members, graphs), base_edges(members, graphs)),
        ),
{
    lemma_base_edges(members, graphs);
    let nodes = global_nodes(members, graphs);
    let lin = linearized(nodes, base_edges(members, graphs));
    let settled = settled_edges(members, graphs);
    lemma_linearized_acyclic(nodes, base_edges(members, graphs));
    assert forall|a: u64, b: u64| #[trigger] settled.contains((a, b)) implies !reaches(
        settled,
        b,
        a,
    ) by {
        assert(lin.contains((a, b)));
        if reaches(settled, b, a) {
            lemma_reaches_mono(settled, lin, b, a);
        }
    }
}

/// Promoted edges lead from an earlier position to a later one.
proof fn lemma_promoted_forward(
    order: Seq<u64>,
    keys: Map<u64, u8>,
    weight: spec_fn((u64, u64)) -> nat,
    threshold: nat,
    edges: Set<(u64, u64)>,
    n: int,
    e: (u64, u64),
) -> (places: (int, int))
    requires
        n <= order.len(),
        promoted(order, keys, weight, threshold, edges, n).contains(e),
    ensures
        0 <= places.0 < places.1 < n,
        e == (order[places.0], order[places.1]),
    decreases n,
{
    if n <= 0 {
        (0, 0)
    } else {
        let before = promoted(order, keys, weight, threshold, edges, n - 1);
        if before.contains(e) {
            lemma_promoted_forward(order, keys, weight, threshold, edges, n - 1, e)
        } else {
            let j = choose|j: int| #[trigger]
                is_promotion(order, keys, weight, threshold, edges.union(before), j, n - 1) && e
                    == (order[j], order[n - 1]);
            (j, n - 1)
        }
    }
}

/// A supported transaction occurs in one of the graphs.
proof fn lemma_candidate_occurs(
    members: Seq<(PublicKey, Stake)>,
    graphs: Seq<BatchView>,
    id: u64,
)
    requires
        candidates(members, graphs).contains(id),
    ensures
        tx_ids(all_transactions(graphs)).contains(id),
{
    lemma_tally_positive(graph_stakes(members, graphs), id_votes(graphs), id);
    let i = choose|i: int|
        0 <= i < id_votes(graphs).len() && (#[trigger] id_votes(graphs)[i]).contains(id);
    assert(tx_ids(graphs[i].transactions).contains(id));
    lemma_occurs(graphs, i, id);
}

proof fn lemma_occurs(graphs: Seq<BatchView>, i: int, id: u64)
    requires
        0 <= i < graphs.len(),
        tx_ids(graphs[i].transactions).contains(id),
    ensures
        tx_ids(all_transactions(graphs)).contains(id),
    decreases graphs.len(),
{
    let all = all_transactions(graphs);
    let fewer = all_transactions(graphs.drop_last());
    if i < graphs.len() - 1 {
        lemma_occurs(graphs.drop_last(), i, id);
        let k = choose|k: int| 0 <= k < fewer.len() && tx_id(#[trigger] fewer[k]) == Some(id);
        assert(all[k] == fewer[k]);
    } else {
        let txs = graphs[i].transactions;
        let k = choose|k: int| 0 <= k < txs.len() && tx_id(#[trigger] txs[k]) == Some(id);
        assert(all[fewer.len() + k] == txs[k]);
    }
}

/// The transactions of the global graph are finitely many.
pub(crate) proof fn lemma_global_nodes_finite(members: Seq<(PublicKey, Stake)>, graphs: Seq<BatchView>)
    ensures
        global_nodes(members, graphs).finite(),
{
    lemma_base_edges(members, graphs);
    let all = tx_ids(all_transactions(graphs));
    lemma_tx_ids_finite(all_transactions(graphs));
    assert forall|id: u64| global_nodes(members, graphs).contains(id) implies all.contains(id) by {
        lemma_candidate_occurs(members, graphs, id);
    }
    vstd::set_lib::lemma_set_subset_finite(all, global_nodes(members, graphs));
}

/// The order of the global graph lists each of its transactions once, and every
/// edge of it leads forward.
pub(crate) proof fn lemma_global_order(
    members: Seq<(PublicKey, Stake)>,
    graphs: Seq<BatchView>,
    earlier: Seq<(PublicKey, Set<(u64, u64)>)>,
)
    ensures
        global_order(members, graphs).no_duplicates(),
        global_order(members, graphs).to_set() == global_nodes(members, graphs),
        forall|e: (u64, u64)| #[trigger]
            global_edges(members, graphs, earlier).contains(e) ==> leads_forward(
                global_order(members, graphs),
                e,
            ),
{
    let order = global_order(members, graphs);
    let nodes = global_nodes(members, graphs);
    let settled = settled_edges(members, graphs);
    lemma_settled_edges(members, graphs);
    lemma_global_nodes_finite(members, graphs);
    let witness = lemma_kahn_order_exists(nodes, settled);
    assert(is_kahn_order(nodes, settled, order));
    lemma_kahn_order_complete(nodes, settled, order);
    lemma_kahn_prefix(nodes, settled, order);
    assert forall|e: (u64, u64)| #[trigger]
        global_edges(members, graphs, earlier).contains(e) implies leads_forward(order, e) by {
        if settled.contains(e) {
            assert(order.to_set().contains(e.0));
            assert(order.to_set().contains(e.1));
            let i = choose|i: int| 0 <= i < order.len() && order[i] == e.0;
            let j = choose|j: int| 0 <= j < order.len() && order[j] == e.1;
            assert(settled.contains((order[i], order[j])));
            assert(is_forward_step(order, e, i, j));
        } else {
            let (i, j) = lemma_promoted_forward(
                order,
                written_keys(graphs),
                claim_weights(members, graphs, earlier),
                pending_threshold(members.len()),
                settled,
                order.len() as int,
                e,
            );
            assert(is_forward_step(order, e, i, j));
        }
    }
}

/// `e` leads from position `i` to the later position `j`.
pub open spec fn is_forward_step(order: Seq<u64>, e: (u64, u64), i: int, j: int) -> bool {
    0 <= i < j < order.len() && e == (order[i], order[j])
}

/// `e` leads from one position to a later one.
pub open spec fn leads_forward(order: Seq<u64>, e: (u64, u64)) -> bool {
    exists|i: int, j: int| #[trigger] is_forward_step(order, e, i, j)
}

/// The identifiers of the transactions of a batch, in their order.
pub open spec fn listed_ids(batch: BatchView) -> Seq<u64> {
    batch.transactions.map_values(|tx: Seq<u8>| tx_id(tx)->0)
}

/// The transactions of a global graph are those of the global order.
pub(crate) proof fn lemma_listed_ids(
    name: PublicKey,
    members: Seq<(PublicKey, Stake)>,
    sequence: u64,
    graphs: Seq<BatchView>,
    earlier: Seq<(PublicKey, Set<(u64, u64)>)>,
    batch: BatchView,
)
    requires
        is_global_batch(name, members, sequence, graphs, earlier, batch),
    ensures
        listed_ids(batch) == global_order(members, graphs),
        forall|i: int|
            0 <= i < batch.transactions.len() ==> tx_id(#[trigger] batch.transactions[i]) is Some,
{
    let order = global_order(members, graphs);
    assert forall|i: int| 0 <= i < order.len() implies listed_ids(batch)[i] == order[i] && tx_id(
        #[trigger] batch.transactions[i],
    ) is Some by {
        assert(is_canonical(all_transactions(graphs), order[i], batch.transactions[i]));
    }
    assert(listed_ids(batch) =~= order);
}

/// The transactions of a global graph are listed in an order that respects its edges:
/// each edge leads from a transaction to a later one, so there is no cycle.
pub proof fn lemma_transactions_respect_edges(
    name: PublicKey,
    members: Seq<(PublicKey, Stake)>,
    sequence: u64,
    graphs: Seq<BatchView>,
    earlier: Seq<(PublicKey, Set<(u64, u64)>)>,
    batch: BatchView,
)
    requires
        is_global_batch(name, members, sequence, graphs, earlier, batch),
    ensures
        forall|e: (u64, u64)| #[trigger]
            batch.edges.contains(e) ==> leads_forward(listed_ids(batch), e),
        acyclic(batch.edges.to_set()),
{
    let order = global_order(members, graphs);
    let edges = batch.edges.to_set();
    lemma_listed_ids(name, members, sequence, graphs, earlier, batch);
    lemma_global_order(members, graphs, earlier);
    assert forall|e: (u64, u64)| #[trigger] batch.edges.contains(e) implies leads_forward(order, e) by {
        assert(edges.contains(e));
        assert(global_edges(members, graphs, earlier).contains(e));
    }
    assert forall|a: u64, b: u64| #[trigger] edges.contains((a, b)) implies !reaches(edges, b, a) by {
        if reaches(edges, b, a) {
            assert(batch.edges.contains((a, b)));
            let (i, j) = choose|i: int, j: int| #[trigger] is_forward_step(order, (a, b), i, j);
            let from_b = Set::new(|x: u64| exists|k: int| j <= k < order.len() && order[k] == x);
            assert(order[j] == b);
            assert forall|x: u64, y: u64|
                from_b.contains(x) && #[trigger] edges.contains((x, y)) implies from_b.contains(y) by {
                assert(batch.edges.contains((x, y)));
                let (k, l) = choose|k: int, l: int| #[trigger] is_forward_step(order, (x, y), k, l);
                let m = choose|m: int| j <= m < order.len() && order[m] == x;
                assert(m == k);
                assert(order[l] == y);
            }
            lemma_reaches_closed(edges, from_b, b, a);
            let k = choose|k: int| j <= k < order.len() && order[k] == a;
            assert(order[i] == order[k]);
        }
    }
}

/// A global graph lists no transaction twice, and none with less support than the
/// pending threshold.
pub proof fn lemma_transactions_listed_once(
    name: PublicKey,
    members: Seq<(PublicKey, Stake)>,
    sequence: u64,
    graphs: Seq<BatchView>,
    earlier: Seq<(PublicKey, Set<(u64, u64)>)>,
    batch: BatchView,
)
    requires
        is_global_batch(name, members, sequence, graphs, earlier, batch),
    ensures
        listed_ids(batch).no_duplicates(),
        forall|id: u64| #[trigger]
            listed_ids(batch).contains(id) ==> candidates(members, graphs).contains(id),
{
    lemma_listed_ids(name, members, sequence, graphs, earlier, batch);
    lemma_global_order(members, graphs, earlier);
    lemma_base_edges(members, graphs);
    assert forall|id: u64| #[trigger] listed_ids(batch).contains(id) implies candidates(
        members,
        graphs,
    ).contains(id) by {
        assert(global_order(members, graphs).to_set().contains(id));
    }
}

/// A transaction with the support that fixes it is never left out.
pub proof fn lemma_fixed_transactions_listed(
    name: PublicKey,
    members: Seq<(PublicKey, Stake)>,
    sequence: u64,
    graphs: Seq<BatchView>,
    earlier: Seq<(PublicKey, Set<(u64, u64)>)>,
    batch: BatchView,
    id: u64,
)
    requires
        is_global_batch(name, members, sequence, graphs, earlier, batch),
        fixed_transactions(members, graphs).contains(id),
    ensures
        listed_ids(batch).contains(id),
{
    lemma_listed_ids(name, members, sequence, graphs, earlier, batch);
    lemma_global_order(members, graphs, earlier);
    let nodes = candidates(members, graphs);
    let edges = candidate_edges(members, graphs);
    let fixed = fixed_transactions(members, graphs);
    let pending = pending_transactions(members, graphs);
    assert(pending_threshold(members.len()) <= fixed_threshold(members.len())) by {
        let n = members.len();
        assert(n * ((ORDER_FAIRNESS_GAMMA_DEN - ORDER_FAIRNESS_GAMMA_NUM) as nat) == 0)
            by (nonlinear_arith)
            requires
                ORDER_FAIRNESS_GAMMA_DEN == ORDER_FAIRNESS_GAMMA_NUM,
        ;
    }
    assert(nodes.contains(id));
    lemma_reaches_self(induced(nodes, edges), id);
    assert(same_component(nodes, edges, id, id));
    assert(component_meets(nodes, edges, fixed, id));
    lemma_reaches_self(induced(live_nodes(nodes, edges, fixed, pending), edges), id);
    assert(leads_to_fixed(nodes, edges, fixed, pending, id));
    assert(global_nodes(members, graphs).contains(id));
    assert(global_order(members, graphs).to_set().contains(id));
}

/// What a global graph records as missing is open: at least one end is listed, and
/// where both are, no path of its edges connects them.
pub proof fn lemma_missing_pairs_are_open(
    name: PublicKey,
    members: Seq<(PublicKey, Stake)>,
    sequence: u64,
    graphs: Seq<BatchView>,
    earlier: Seq<(PublicKey, Set<(u64, u64)>)>,
    batch: BatchView,
    pair: (u64, u64),
)
    requires
        is_global_batch(name, members, sequence, graphs, earlier, batch),
        batch.missing_edges.contains(pair),
    ensures
        listed_ids(batch).contains(pair.0) || listed_ids(batch).contains(pair.1),
        listed_ids(batch).contains(pair.0) && listed_ids(batch).contains(pair.1) ==> !reaches(
            batch.edges.to_set(),
            pair.0,
            pair.1,
        ) && !reaches(batch.edges.to_set(), pair.1, pair.0),
{
    lemma_listed_ids(name, members, sequence, graphs, earlier, batch);
    lemma_global_order(members, graphs, earlier);
    let order = global_order(members, graphs);
    let nodes = global_nodes(members, graphs);
    assert(batch.missing_edges.to_set().contains(pair));
    assert(order.to_set().contains(pair.0) <==> order.contains(pair.0));
    assert(order.to_set().contains(pair.1) <==> order.contains(pair.1));
    let forwarded = forwarded_pairs(members, graphs, nodes, pending_threshold(members.len()));
    if forwarded.contains(pair) {
        lemma_tally_positive(graph_stakes(members, graphs), external_votes(graphs, nodes), pair);
        let i = choose|i: int|
            0 <= i < external_votes(graphs, nodes).len() && (
            #[trigger] external_votes(graphs, nodes)[i]).contains(pair);
        assert(external_pairs(graphs[i], nodes).contains(pair));
    } else {
        let (i, j) = choose|i: int, j: int| #[trigger]
            is_open_pair(
                order,
                written_keys(graphs),
                nodes,
                base_edges(members, graphs),
                global_edges(members, graphs, earlier),
                i,
                j,
            ) && pair == (order[i], order[j]);
        assert(order.contains(order[i]));
    }
}

/// The stakes of some authorities sum up to the stake that they have together.
proof fn lemma_stakes_of_names(members: Seq<(PublicKey, Stake)>, names: Seq<PublicKey>)
    ensures
        stake_sum(names.map_values(|name: PublicKey| stake_of(members, name))) == stake_of_all(
            members,
            names,
        ),
    decreases names.len(),
{
    let stakes = names.map_values(|name: PublicKey| stake_of(members, name));
    if names.len() > 0 {
        let fewer = names.drop_last();
        lemma_stakes_of_names(members, fewer);
        assert(stakes.drop_last() =~= fewer.map_values(
            |name: PublicKey| stake_of(members, name),
        ));
    }
}

proof fn lemma_stake_sum_append(s: Seq<Stake>, t: Seq<Stake>)
    ensures
        stake_sum(s + t) == stake_sum(s) + stake_sum(t),
    decreases t.len(),
{
    if t.len() == 0 {
        assert(s + t =~= s);
    } else {
        assert((s + t).drop_last() =~= s + t.drop_last());
        lemma_stake_sum_append(s, t.drop_last());
    }
}

/// Graphs of different authors have no more stake than the committee.
pub proof fn lemma_graph_stake_bound(members: Seq<(PublicKey, Stake)>, graphs: Seq<BatchView>)
    requires
        forall|i: int, j: int|
            0 <= i < j < graphs.len() ==> (#[trigger] graphs[i]).author != (
            #[trigger] graphs[j]).author,
    ensures
        stake_sum(graph_stakes(members, graphs)) <= total_stake(members),
{
    let names = graphs.map_values(|graph: BatchView| graph.author);
    lemma_stake_bound(members, names);
    lemma_stakes_of_names(members, names);
    assert(graph_stakes(members, graphs) =~= names.map_values(
        |name: PublicKey| stake_of(members, name),
    ));
}

/// The voters on claims have less stake than a `u64` can hold.
proof fn lemma_claim_stake_bound(
    members: Seq<(PublicKey, Stake)>,
    graphs: Seq<BatchView>,
    earlier: Seq<(PublicKey, Set<(u64, u64)>)>,
)
    requires
        distinct_authors(earlier),
        stake_sum(graph_stakes(members, graphs)) <= Stake::MAX,
        total_stake(members) <= Stake::MAX,
    ensures
        stake_sum(claim_stakes(members, graphs, earlier)) <= u64::MAX,
{
    let names = earlier.map_values(|entry: (PublicKey, Set<(u64, u64)>)| entry.0);
    let stakes = earlier.map_values(
        |entry: (PublicKey, Set<(u64, u64)>)| stake_of(members, entry.0),
    );
    lemma_stake_bound(members, names);
    lemma_stakes_of_names(members, names);
    assert(stakes =~= names.map_values(|name: PublicKey| stake_of(members, name)));
    lemma_stake_sum_append(graph_stakes(members, graphs), stakes);
}

/// The members of `ids` whose count is at least `threshold`.
fn select_supported(
    ids: &BTreeSet<u64>,
    counts: &BTreeMap<u64, u64>,
    threshold: u64,
) -> (selected: BTreeSet<u64>)
    ensures
        forall|x: u64| #[trigger]
            selected@.contains(x) <==> ids@.contains(x) && count_of(counts@, x) >= threshold,
{
    let listed = list_ids(ids);
    let mut selected: BTreeSet<u64> = BTreeSet::new();
    for i in 0..listed.len()
        invariant
            forall|x: u64| #[trigger]
                selected@.contains(x) <==> listed@.take(i as int).contains(x) && count_of(
                    counts@,
                    x,
                ) >= threshold,
    {
        let id = listed[i];
        let ghost seen = listed@.take(i as int);
        proof {
            lemma_push_contains(seen, id);
            assert(listed@.take(i + 1) =~= seen.push(id));
        }
        let count = match counts.get(&id) {
            Some(count) => *count,
            None => 0,
        };
        if count >= threshold {
            selected.insert(id);
        }
    }
    proof {
        assert(listed@.take(listed@.len() as int) =~= listed@);
        assert forall|x: u64| #[trigger] selected@.contains(x) <==> ids@.contains(x) && count_of(
            counts@,
            x,
        ) >= threshold by {
            assert(listed@.contains(x) <==> listed@.to_set().contains(x));
        }
    }
    selected
}

/// The members of `left` that are not in `right`.
fn subtract(left: &BTreeSet<u64>, right: &BTreeSet<u64>) -> (rest: BTreeSet<u64>)
    ensures
        rest@ == left@.difference(right@),
{
    let listed = list_ids(left);
    let mut rest: BTreeSet<u64> = BTreeSet::new();
    for i in 0..listed.len()
        invariant
            forall|x: u64| #[trigger]
                rest@.contains(x) <==> listed@.take(i as int).contains(x) && !right@.contains(x),
    {
        let ghost seen = listed@.take(i as int);
        proof {
            lemma_push_contains(seen, listed@[i as int]);
            assert(listed@.take(i + 1) =~= seen.push(listed@[i as int]));
        }
        if !right.contains(&listed[i]) {
            rest.insert(listed[i]);
        }
    }
    proof {
        assert(listed@.take(listed@.len() as int) =~= listed@);
        assert forall|x: u64| rest@.contains(x) <==> left@.difference(right@).contains(x) by {
            assert(listed@.contains(x) <==> listed@.to_set().contains(x));
        }
        assert(rest@ =~= left@.difference(right@));
    }
    rest
}

/// All members of the sets.
fn union_of_ids(sets: &Vec<BTreeSet<u64>>) -> (all: BTreeSet<u64>)
    ensures
        forall|x: u64| #[trigger]
            all@.contains(x) <==> exists|i: int|
                0 <= i < sets@.len() && (#[trigger] set_views(sets@)[i]).contains(x),
{
    let mut all: BTreeSet<u64> = BTreeSet::new();
    let ghost views = set_views(sets@);
    for i in 0..sets.len()
        invariant
            views == set_views(sets@),
            forall|x: u64| #[trigger]
                all@.contains(x) <==> exists|k: int| 0 <= k < i && (#[trigger] views[k]).contains(x),
    {
        let ghost before = all@;
        let listed = list_ids(&sets[i]);
        for j in 0..listed.len()
            invariant
                forall|x: u64| #[trigger]
                    all@.contains(x) <==> before.contains(x) || listed@.take(j as int).contains(x),
        {
            let ghost seen = listed@.take(j as int);
            proof {
                lemma_push_contains(seen, listed@[j as int]);
                assert(listed@.take(j + 1) =~= seen.push(listed@[j as int]));
            }
            all.insert(listed[j]);
        }
        assert(listed@.take(listed@.len() as int) =~= listed@);
        assert forall|x: u64| #[trigger] all@.contains(x) <==> exists|k: int|
            0 <= k < i + 1 && (#[trigger] views[k]).contains(x) by {
            assert(listed@.contains(x) <==> listed@.to_set().contains(x));
            assert(views[i as int] == sets@[i as int]@);
            assert(before.contains(x) <==> exists|k: int|
                0 <= k < i && (#[trigger] views[k]).contains(x));
        }
    }
    all
}

/// Adds the members of `more` to `pairs`.
fn extend_pairs(pairs: &mut BTreeSet<(u64, u64)>, more: &BTreeSet<(u64, u64)>)
    ensures
        final(pairs)@ == old(pairs)@.union(more@),
{
    let ghost before = pairs@;
    let listed = list_pairs(more);
    for i in 0..listed.len()
        invariant
            pairs@ == before.union(listed@.take(i as int).to_set()),
    {
        let ghost seen = listed@.take(i as int);
        proof {
            assert(listed@.take(i + 1) =~= seen.push(listed@[i as int]));
            seen.lemma_push_to_set_commute(listed@[i as int]);
        }
        pairs.insert(listed[i]);
        assert(pairs@ =~= before.union(seen.to_set().insert(listed@[i as int])));
    }
    assert(listed@.take(listed@.len() as int) =~= listed@);
}

/// The transactions that are taken into account, and those of them that are fixed.
fn select_candidates(committee: &Committee, graphs: &Vec<Batch>) -> (selected: (
    BTreeSet<u64>,
    BTreeSet<u64>,
))
    requires
        stake_sum(graph_stakes(committee@, batch_views(graphs@))) <= Stake::MAX,
    ensures
        selected.0@ == candidates(committee@, batch_views(graphs@)),
        selected.1@ == fixed_transactions(committee@, batch_views(graphs@)),
{
    let ghost views = batch_views(graphs@);
    let replicas = committee.size() as u64;
    let pending_threshold = compute_pending_threshold(replicas);
    let fixed_threshold = compute_fixed_threshold(replicas);
    let stakes = collect_stakes(committee, graphs);
    let votes = collect_id_votes(graphs);
    assert(votes@.len() == set_views(votes@).len());
    let support = tally_ids(&stakes, &votes);
    let voted = union_of_ids(&votes);
    let nodes = select_supported(&voted, &support, pending_threshold);
    let fixed = select_supported(&voted, &support, fixed_threshold);
    proof {
        assert forall|x: u64| count_of(support@, x) > 0 implies #[trigger] voted@.contains(x) by {
            lemma_tally_positive(stakes@, set_views(votes@), x);
        }
        assert forall|x: u64| nodes@.contains(x) <==> candidates(committee@, views).contains(x) by {
            assert(count_of(support@, x) == tally(stakes@, set_views(votes@), x));
            assert(count_of(support@, x) > 0 ==> voted@.contains(x));
        }
        assert(nodes@ =~= candidates(committee@, views));
        assert forall|x: u64|
            fixed@.contains(x) <==> fixed_transactions(committee@, views).contains(x) by {
            assert(count_of(support@, x) == tally(stakes@, set_views(votes@), x));
            assert(count_of(support@, x) > 0 ==> voted@.contains(x));
        }
        assert(fixed@ =~= fixed_transactions(committee@, views));
    }
    (nodes, fixed)
}

/// The nodes of the global graph, and the edges between them before cycles are broken.
fn select_graph(
    committee: &Committee,
    graphs: &Vec<Batch>,
    state_key: &BTreeMap<u64, u8>,
) -> (selected: (BTreeSet<u64>, BTreeSet<(u64, u64)>))
    requires
        stake_sum(graph_stakes(committee@, batch_views(graphs@))) <= Stake::MAX,
        state_key@ == written_keys(batch_views(graphs@)),
    ensures
        selected.0@ == global_nodes(committee@, batch_views(graphs@)),
        selected.1@ == base_edges(committee@, batch_views(graphs@)),
{
    let ghost views = batch_views(graphs@);
    let pending_threshold = compute_pending_threshold(committee.size() as u64);
    let (mut nodes, fixed) = select_candidates(committee, graphs);
    let pending = subtract(&nodes, &fixed);
    let (voted, weights) = collect_edge_weights(committee, graphs, &nodes);
    let mut edges = build_weighted_edges(&voted, state_key, &weights, pending_threshold);
    proof {
        let wanted = candidate_edges(committee@, views);
        assert forall|e: (u64, u64)| edges@.contains(e) <==> wanted.contains(e) by {
            assert(count_of(weights@, e) == crate::support::edge_weight(
                committee@,
                views,
                nodes@,
                e,
            ));
            assert(count_of(weights@, (e.1, e.0)) == crate::support::edge_weight(
                committee@,
                views,
                nodes@,
                (e.1, e.0),
            ));
            if count_of(weights@, e) > 0 {
                assert(voted@.contains(e));
            }
        }
        assert(edges@ =~= wanted);
    }
    retain_sccs_with_path_to_fixed(&mut nodes, &mut edges, &fixed, &pending);
    (nodes, edges)
}

/// The transactions that stand for the identifiers in `order`.
fn pick_transactions(
    order: &Vec<u64>,
    canonical: &BTreeMap<u64, Transaction>,
    Ghost(txs): Ghost<Seq<Seq<u8>>>,
) -> (picked: Vec<Transaction>)
    requires
        forall|i: int| 0 <= i < order@.len() ==> canonical@.contains_key(#[trigger] order@[i]),
        forall|id: u64|
            canonical@.contains_key(id) ==> is_canonical(txs, id, #[trigger] canonical@[id]@),
    ensures
        picked@.len() == order@.len(),
        forall|i: int|
            0 <= i < order@.len() ==> is_canonical(
                txs,
                order@[i],
                #[trigger] payloads(picked@)[i],
            ),
{
    let mut picked: Vec<Transaction> = Vec::new();
    for i in 0..order.len()
        invariant
            forall|i: int| 0 <= i < order@.len() ==> canonical@.contains_key(#[trigger] order@[i]),
            forall|id: u64|
                canonical@.contains_key(id) ==> is_canonical(txs, id, #[trigger] canonical@[id]@),
            picked@.len() == i,
            forall|k: int|
                0 <= k < i ==> is_canonical(txs, order@[k], #[trigger] payloads(picked@)[k]),
    {
        let ghost before = picked@;
        let id = order[i];
        assert(canonical@.contains_key(order@[i as int]));
        let tx = copy_bytes(canonical.get(&id).unwrap());
        assert(is_canonical(txs, id, canonical@[id]@));
        picked.push(tx);
        assert forall|k: int| 0 <= k < i + 1 implies is_canonical(
            txs,
            order@[k],
            #[trigger] payloads(picked@)[k],
        ) by {
            if k < i {
                assert(payloads(picked@)[k] == payloads(before)[k]);
            }
        }
    }
    picked
}

/// Derives the global graph of a round from a quorum of local graphs.
pub fn build_global_batch(
    name: PublicKey,
    committee: &Committee,
    sequence: u64,
    local_graphs: &Vec<Batch>,
    earlier: &Vec<(PublicKey, BTreeSet<(u64, u64)>)>,
) -> (batch: Batch)
    requires
        committee.wf(),
        stake_sum(graph_stakes(committee@, batch_views(local_graphs@))) <= Stake::MAX,
        distinct_authors(earlier_views(earlier@)),
    ensures
        is_global_batch(
            name,
            committee@,
            sequence,
            batch_views(local_graphs@),
            earlier_views(earlier@),
            batch@,
        ),
{
    let ghost members = committee@;
    let ghost views = batch_views(local_graphs@);
    let ghost past = earlier_views(earlier@);
    let pending_threshold = compute_pending_threshold(committee.size() as u64);
    let (state_key, canonical) = collect_transactions(local_graphs);
    let (nodes, mut edges) = select_graph(committee, local_graphs, &state_key);
    let ghost base = edges@;
    let forwarded = collect_forwarded_external_missing_edges(
        committee,
        local_graphs,
        &nodes,
        pending_threshold,
    );
    let sccs = tarjan_scc(&nodes, &edges);
    proof {
        lemma_settled_edges(members, views);
        lemma_base_edges(members, views);
        lemma_ids_finite(&nodes);
    }
    linearize_sccs(&mut edges, &sccs, Ghost(nodes@));
    let mut final_edges = transitive_reduction(&nodes, &edges);
    let ghost settled = final_edges@;
    assert(settled == settled_edges(members, views));
    let order = topological_sort(&nodes, &final_edges);
    proof {
        lemma_topological_listing(nodes@, settled, order@);
        lemma_kahn_order_unique(nodes@, settled, order@, global_order(members, views));
        lemma_claim_stake_bound(members, views, past);
    }
    let claims = collect_claim_weights(committee, local_graphs, earlier, &nodes);
    let ghost weight = claim_weights(members, views, past);
    let promoted_edges = collect_frontier_promoted_in_batch_edges(
        &order,
        &nodes,
        &final_edges,
        &state_key,
        &claims,
        pending_threshold,
        Ghost(weight),
    );
    extend_pairs(&mut final_edges, &promoted_edges);
    proof {
        assert(final_edges@ == global_edges(members, views, past));
        assert(within(nodes@, final_edges@)) by {
            assert forall|e: (u64, u64)| #[trigger] final_edges@.contains(e) implies nodes@.contains(
                e.0,
            ) && nodes@.contains(e.1) by {
                if promoted_edges@.contains(e) {
                    let (j, i) = lemma_promoted_forward(
                        order@,
                        state_key@,
                        weight,
                        pending_threshold as nat,
                        settled,
                        order@.len() as int,
                        e,
                    );
                    assert(order@.to_set().contains(order@[j]));
                    assert(order@.to_set().contains(order@[i]));
                }
            }
        }
    }
    let mut missing = collect_missing_edges(
        &order,
        &nodes,
        &final_edges,
        &sccs,
        &state_key,
        Ghost(base),
    );
    extend_pairs(&mut missing, &forwarded);
    proof {
        assert forall|i: int| 0 <= i < order@.len() implies canonical@.contains_key(
            #[trigger] order@[i],
        ) by {
            assert(order@.to_set().contains(order@[i]));
            lemma_candidate_occurs(members, views, order@[i]);
            assert(canonical@.dom().contains(order@[i]));
        }
    }
    let transactions = pick_transactions(
        &order,
        &canonical,
        Ghost(all_transactions(views)),
    );
    Batch {
        author: name,
        sequence,
        transactions,
        edges: list_pairs(&final_edges),
        missing_edges: list_pairs(&missing),
    }
}

} // verus!
