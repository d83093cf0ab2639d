//! What a global graph says, in terms of the local graphs that it is derived from: which
//! transactions it lists, which orders it fixes, and what it leaves open.

use vstd::prelude::*;
use crate::batch::{bytes_lt, BatchView, PublicKey, Stake};
use crate::committee::stake_of;
use crate::components::{
    component_meets, leads_to_fixed, lemma_components_become_chains, lemma_other_edges_stay,
    linearized, live_nodes, proper_edges, same_component,
};
use crate::control::canonical_pair;
use crate::evidence::{all_transactions, graph_stakes, id_votes, is_canonical};
use crate::global_batch::{
    base_edges, candidate_edges, candidates, claim_weights, fixed_transactions, global_edges,
    global_missing, global_nodes, global_order, is_global_batch, leads_forward, lemma_base_edges,
    lemma_global_nodes_finite, lemma_global_order, lemma_listed_ids, lemma_settled_edges,
    listed_ids, pending_transactions, settled_edges, written_keys,
};
use crate::graph::{
    induced, lemma_reaches_closed, lemma_reaches_edge, lemma_reaches_first, lemma_reaches_mono,
    lemma_reaches_self, lemma_reaches_trans, reaches,
};
use crate::ordering::{
    are_neighbors, is_open_pair, is_promotable, is_promotion, lemma_thresholds, open_pairs,
    pending_threshold, promoted,
};
use crate::reduction::{lemma_reduction_connects, lemma_reduction_is_minimal};
use crate::support::{
    claim_stakes, claim_votes, claim_weight, claimed_by, claims, edge_votes, edge_weight,
    external_pairs, external_votes, forwarded_pairs, same_key,
};
use crate::topology::{is_kahn_order, lemma_kahn_order_exists, lemma_smallest_comes_first};
use crate::transaction::{tx_id, tx_ids};
use crate::votes::{lemma_tally_adds_up, stake_sum, tally};

verus! {

/// The stake of the authors of the graphs that say something.
pub open spec fn stake_behind(
    members: Seq<(PublicKey, Stake)>,
    graphs: Seq<BatchView>,
    says: spec_fn(BatchView) -> bool,
) -> nat {
    stake_sum(graph_stakes(members, graphs.filter(says)))
}

/// The stake of the authors that list `id`.
pub open spec fn support(members: Seq<(PublicKey, Stake)>, graphs: Seq<BatchView>, id: u64) -> nat {
    stake_behind(members, graphs, |graph: BatchView| tx_ids(graph.transactions).contains(id))
}

/// The stake of the authors that put `e.0` before `e.1`.
pub open spec fn order_support(
    members: Seq<(PublicKey, Stake)>,
    graphs: Seq<BatchView>,
    e: (u64, u64),
) -> nat {
    stake_behind(members, graphs, |graph: BatchView| graph.edges.contains(e))
}

/// The stake of the authors that leave the order of `p.0` and `p.1` open.
pub open spec fn open_support(
    members: Seq<(PublicKey, Stake)>,
    graphs: Seq<BatchView>,
    p: (u64, u64),
) -> nat {
    stake_behind(
        members,
        graphs,
        |graph: BatchView|
            graph.missing_edges.contains(p) || graph.missing_edges.contains((p.1, p.0)),
    )
}

/// `a` and `b` write the same state.
pub open spec fn same_state(graphs: Seq<BatchView>, a: u64, b: u64) -> bool {
    let keys = written_keys(graphs);
    keys.contains_key(a) && keys.contains_key(b) && keys[a] == keys[b]
}

/// The orders that the authors agree on, where `faults` of them may be faulty: between supported
/// transactions of the same state, with the stake of more than the faulty ones behind the order,
/// and with less behind the opposite.
pub open spec fn agreed(
    members: Seq<(PublicKey, Stake)>,
    graphs: Seq<BatchView>,
    faults: nat,
) -> Set<(u64, u64)> {
    Set::new(
        |e: (u64, u64)|
            {
                &&& e.0 != e.1
                &&& support(members, graphs, e.0) > faults
                &&& support(members, graphs, e.1) > faults
                &&& same_state(graphs, e.0, e.1)
                &&& order_support(members, graphs, e) > faults
                &&& order_support(members, graphs, e) > order_support(members, graphs, (e.1, e.0))
            },
    )
}

/// A tally of graphs is the stake of those that vote for what is tallied.
pub proof fn lemma_tally_is_stake_behind<A>(
    members: Seq<(PublicKey, Stake)>,
    graphs: Seq<BatchView>,
    vote: spec_fn(BatchView) -> Set<A>,
    says: spec_fn(BatchView) -> bool,
    x: A,
)
    requires
        forall|graph: BatchView| #[trigger] says(graph) <==> vote(graph).contains(x),
    ensures
        tally(graph_stakes(members, graphs), graphs.map_values(vote), x) == stake_behind(
            members,
            graphs,
            says,
        ),
    decreases graphs.len(),
{
    reveal(Seq::filter);
    if graphs.len() > 0 {
        let fewer = graphs.drop_last();
        let last = graphs.last();
        lemma_tally_is_stake_behind(members, fewer, vote, says, x);
        assert(graph_stakes(members, graphs).drop_last() =~= graph_stakes(members, fewer));
        assert(graphs.map_values(vote).drop_last() =~= fewer.map_values(vote));
        let some = fewer.filter(says);
        assert(says(last) <==> vote(last).contains(x));
        if says(last) {
            assert(graphs.filter(says) =~= some.push(last));
            assert(graph_stakes(members, some.push(last)).drop_last() =~= graph_stakes(
                members,
                some,
            ));
        } else {
            assert(graphs.filter(says) =~= some);
        }
    } else {
        assert(graphs.filter(says) =~= Seq::empty());
        assert(graph_stakes(members, graphs.filter(says)) =~= Seq::empty());
    }
}

proof fn lemma_support(members: Seq<(PublicKey, Stake)>, graphs: Seq<BatchView>, id: u64)
    ensures
        tally(graph_stakes(members, graphs), id_votes(graphs), id) == support(members, graphs, id),
{
    let vote = |graph: BatchView| tx_ids(graph.transactions);
    let says = |graph: BatchView| tx_ids(graph.transactions).contains(id);
    lemma_tally_is_stake_behind(members, graphs, vote, says, id);
    assert(id_votes(graphs) =~= graphs.map_values(vote));
}

/// The candidates are the transactions with more support than the faulty ones can give; those that
/// are fixed have that of all the others that were heard.
proof fn lemma_candidates(
    members: Seq<(PublicKey, Stake)>,
    graphs: Seq<BatchView>,
    faults: nat,
    id: u64,
)
    requires
        3 * faults < members.len() <= 3 * faults + 3,
    ensures
        candidates(members, graphs).contains(id) <==> support(members, graphs, id) > faults,
        fixed_transactions(members, graphs).contains(id) <==> support(members, graphs, id)
            >= members.len() - 2 * faults,
        pending_transactions(members, graphs).contains(id) <==> candidates(
            members,
            graphs,
        ).contains(id) && !fixed_transactions(members, graphs).contains(id),
{
    lemma_support(members, graphs, id);
    lemma_thresholds(members.len(), faults);
}

proof fn lemma_edge_weight(
    members: Seq<(PublicKey, Stake)>,
    graphs: Seq<BatchView>,
    nodes: Set<u64>,
    e: (u64, u64),
)
    requires
        nodes.contains(e.0),
        nodes.contains(e.1),
        e.0 != e.1,
    ensures
        edge_weight(members, graphs, nodes, e) == order_support(members, graphs, e),
{
    let vote = |graph: BatchView| proper_edges(nodes, graph.edges.to_set());
    let says = |graph: BatchView| graph.edges.contains(e);
    assert forall|graph: BatchView| #[trigger] says(graph) <==> vote(graph).contains(e) by {
        assert(graph.edges.to_set().contains(e) <==> graph.edges.contains(e));
    }
    lemma_tally_is_stake_behind(members, graphs, vote, says, e);
    assert(edge_votes(graphs, nodes) =~= graphs.map_values(vote));
}

proof fn lemma_agreed(members: Seq<(PublicKey, Stake)>, graphs: Seq<BatchView>, faults: nat)
    requires
        3 * faults < members.len() <= 3 * faults + 3,
    ensures
        candidate_edges(members, graphs) == agreed(members, graphs, faults),
{
    let nodes = candidates(members, graphs);
    let edges = candidate_edges(members, graphs);
    let goal = agreed(members, graphs, faults);
    lemma_thresholds(members.len(), faults);
    assert forall|e: (u64, u64)| edges.contains(e) <==> goal.contains(e) by {
        lemma_candidates(members, graphs, faults, e.0);
        lemma_candidates(members, graphs, faults, e.1);
        if nodes.contains(e.0) && nodes.contains(e.1) && e.0 != e.1 {
            lemma_edge_weight(members, graphs, nodes, e);
            lemma_edge_weight(members, graphs, nodes, (e.1, e.0));
        }
    }
    assert(edges =~= goal);
}

/// A transaction has enough support to be fixed.
pub open spec fn is_fixed(
    members: Seq<(PublicKey, Stake)>,
    graphs: Seq<BatchView>,
    faults: nat,
    id: u64,
) -> bool {
    support(members, graphs, id) >= members.len() - 2 * faults
}

/// The transactions of the global graph: the supported ones from which agreed orders lead to a fixed
/// one, or all of them where none is fixed.
pub open spec fn is_to_be_listed(
    members: Seq<(PublicKey, Stake)>,
    graphs: Seq<BatchView>,
    faults: nat,
    id: u64,
) -> bool {
    &&& support(members, graphs, id) > faults
    &&& (forall|m: u64| !#[trigger] is_fixed(members, graphs, faults, m)) || exists|m: u64|
        #[trigger] is_fixed(members, graphs, faults, m) && reaches(
            agreed(members, graphs, faults),
            id,
            m,
        )
}

proof fn lemma_nodes(
    members: Seq<(PublicKey, Stake)>,
    graphs: Seq<BatchView>,
    faults: nat,
    id: u64,
)
    requires
        3 * faults < members.len() <= 3 * faults + 3,
    ensures
        global_nodes(members, graphs).contains(id) <==> is_to_be_listed(
            members,
            graphs,
            faults,
            id,
        ),
        global_nodes(members, graphs).contains(id) ==> candidates(members, graphs).contains(id),
{
    let nodes = candidates(members, graphs);
    let edges = candidate_edges(members, graphs);
    let fixed = fixed_transactions(members, graphs);
    let pending = pending_transactions(members, graphs);
    let live = live_nodes(nodes, edges, fixed, pending);
    let inner = induced(nodes, edges);
    lemma_agreed(members, graphs, faults);
    lemma_candidates(members, graphs, faults, id);
    assert(inner =~= edges);
    assert forall|m: u64| #[trigger] fixed.contains(m) implies nodes.contains(m) && is_fixed(
        members,
        graphs,
        faults,
        m,
    ) by {
        lemma_candidates(members, graphs, faults, m);
    }
    assert forall|m: u64| #[trigger] is_fixed(members, graphs, faults, m) implies fixed.contains(
        m,
    ) by {
        lemma_candidates(members, graphs, faults, m);
    }
    assert forall|x: u64| nodes.contains(x) implies live.contains(x) by {
        lemma_candidates(members, graphs, faults, x);
        lemma_reaches_self(inner, x);
        assert(same_component(nodes, edges, x, x));
        if fixed.contains(x) {
            assert(component_meets(nodes, edges, fixed, x));
        } else {
            assert(component_meets(nodes, edges, pending, x));
        }
    }
    assert(induced(live, edges) =~= edges);
    if nodes.disjoint(fixed) {
        assert forall|m: u64| !#[trigger] is_fixed(members, graphs, faults, m) by {
            if is_fixed(members, graphs, faults, m) {
                assert(fixed.contains(m) && nodes.contains(m));
            }
        }
    } else {
        let some = choose|m: u64| nodes.contains(m) && fixed.contains(m);
        assert(is_fixed(members, graphs, faults, some));
        if leads_to_fixed(nodes, edges, fixed, pending, id) {
            let m = choose|m: u64|
                component_meets(nodes, edges, fixed, m) && #[trigger] reaches(
                    induced(live, edges),
                    id,
                    m,
                );
            let y = choose|y: u64|
                fixed.contains(y) && #[trigger] same_component(nodes, edges, m, y);
            lemma_reaches_trans(edges, id, m, y);
            assert(is_fixed(members, graphs, faults, y));
        }
        if exists|m: u64| #[trigger]
            is_fixed(members, graphs, faults, m) && reaches(edges, id, m) {
            let m = choose|m: u64| #[trigger]
                is_fixed(members, graphs, faults, m) && reaches(edges, id, m);
            assert(fixed.contains(m));
            lemma_reaches_self(inner, m);
            assert(same_component(nodes, edges, m, m));
            assert(component_meets(nodes, edges, fixed, m));
            assert(leads_to_fixed(nodes, edges, fixed, pending, id));
        }
    }
}

/// Before cycles are broken, the edges are the agreed orders between the transactions of the graph.
proof fn lemma_base(
    members: Seq<(PublicKey, Stake)>,
    graphs: Seq<BatchView>,
    faults: nat,
    e: (u64, u64),
)
    requires
        3 * faults < members.len() <= 3 * faults + 3,
    ensures
        base_edges(members, graphs).contains(e) <==> agreed(members, graphs, faults).contains(e)
            && global_nodes(members, graphs).contains(e.0) && global_nodes(
            members,
            graphs,
        ).contains(e.1),
{
    lemma_agreed(members, graphs, faults);
    lemma_candidates(members, graphs, faults, e.0);
    lemma_candidates(members, graphs, faults, e.1);
}

/// What leads to a transaction of the graph is in the graph.
proof fn lemma_base_path(
    members: Seq<(PublicKey, Stake)>,
    graphs: Seq<BatchView>,
    faults: nat,
    a: u64,
    b: u64,
)
    requires
        3 * faults < members.len() <= 3 * faults + 3,
        global_nodes(members, graphs).contains(b),
        reaches(agreed(members, graphs, faults), a, b),
    ensures
        reaches(base_edges(members, graphs), a, b),
        global_nodes(members, graphs).contains(a),
{
    let all = agreed(members, graphs, faults);
    let base = base_edges(members, graphs);
    let nodes = global_nodes(members, graphs);
    assert forall|z: u64| #[trigger] reaches(all, z, b) implies nodes.contains(z) by {
        if z != b {
            let first = lemma_reaches_first(all, z, b);
            lemma_nodes(members, graphs, faults, b);
            if exists|m: u64| #[trigger]
                is_fixed(members, graphs, faults, m) && reaches(all, b, m) {
                let m = choose|m: u64| #[trigger]
                    is_fixed(members, graphs, faults, m) && reaches(all, b, m);
                lemma_reaches_trans(all, z, b, m);
                assert(is_fixed(members, graphs, faults, m) && reaches(all, z, m));
            }
            lemma_nodes(members, graphs, faults, z);
        }
    }
    let good = Set::new(|z: u64| reaches(base, a, z) || !reaches(all, z, b));
    lemma_reaches_self(base, a);
    assert forall|u: u64, v: u64|
        good.contains(u) && #[trigger] all.contains((u, v)) implies good.contains(v) by {
        if reaches(all, v, b) {
            lemma_reaches_edge(all, u, v);
            lemma_reaches_trans(all, u, v, b);
            lemma_base(members, graphs, faults, (u, v));
            lemma_reaches_edge(base, u, v);
            lemma_reaches_trans(base, a, u, v);
        }
    }
    lemma_reaches_closed(all, good, a, b);
    lemma_reaches_self(all, b);
}

/// Two transactions are on a common cycle of agreed orders, or the same.
pub open spec fn on_a_cycle(
    members: Seq<(PublicKey, Stake)>,
    graphs: Seq<BatchView>,
    faults: nat,
    a: u64,
    b: u64,
) -> bool {
    reaches(agreed(members, graphs, faults), a, b) && reaches(
        agreed(members, graphs, faults),
        b,
        a,
    )
}

proof fn lemma_cycles(
    members: Seq<(PublicKey, Stake)>,
    graphs: Seq<BatchView>,
    faults: nat,
    a: u64,
    b: u64,
)
    requires
        3 * faults < members.len() <= 3 * faults + 3,
        global_nodes(members, graphs).contains(a),
        global_nodes(members, graphs).contains(b),
    ensures
        same_component(global_nodes(members, graphs), base_edges(members, graphs), a, b)
            <==> on_a_cycle(members, graphs, faults, a, b),
{
    let all = agreed(members, graphs, faults);
    let base = base_edges(members, graphs);
    let nodes = global_nodes(members, graphs);
    lemma_base_edges(members, graphs);
    assert(induced(nodes, base) =~= base);
    assert forall|e: (u64, u64)| base.contains(e) implies all.contains(e) by {
        lemma_base(members, graphs, faults, e);
    }
    if same_component(nodes, base, a, b) {
        lemma_reaches_mono(base, all, a, b);
        lemma_reaches_mono(base, all, b, a);
    }
    if on_a_cycle(members, graphs, faults, a, b) {
        lemma_base_path(members, graphs, faults, a, b);
        lemma_base_path(members, graphs, faults, b, a);
    }
}

proof fn lemma_listed_nodes(
    name: PublicKey,
    members: Seq<(PublicKey, Stake)>,
    sequence: u64,
    graphs: Seq<BatchView>,
    earlier: Seq<(PublicKey, Set<(u64, u64)>)>,
    batch: BatchView,
)
    requires
        is_global_batch(name, members, sequence, graphs, earlier, batch),
    ensures
        listed_ids(batch) == global_order(members, graphs),
        listed_ids(batch).no_duplicates(),
        forall|id: u64| #[trigger]
            listed_ids(batch).contains(id) <==> global_nodes(members, graphs).contains(id),
        forall|e: (u64, u64)| #[trigger]
            batch.edges.contains(e) <==> global_edges(members, graphs, earlier).contains(e),
        forall|e: (u64, u64)| #[trigger]
            batch.missing_edges.contains(e) <==> global_missing(members, graphs, earlier).contains(
                e,
            ),
{
    lemma_listed_ids(name, members, sequence, graphs, earlier, batch);
    lemma_global_order(members, graphs, earlier);
    assert forall|id: u64| #[trigger] listed_ids(batch).contains(id) <==> global_nodes(
        members,
        graphs,
    ).contains(id) by {
        assert(listed_ids(batch).to_set().contains(id) <==> listed_ids(batch).contains(id));
    }
    assert forall|e: (u64, u64)| #[trigger] batch.edges.contains(e) <==> global_edges(
        members,
        graphs,
        earlier,
    ).contains(e) by {
        assert(batch.edges.to_set().contains(e) <==> batch.edges.contains(e));
    }
    assert forall|e: (u64, u64)| #[trigger] batch.missing_edges.contains(e) <==> global_missing(
        members,
        graphs,
        earlier,
    ).contains(e) by {
        assert(batch.missing_edges.to_set().contains(e) <==> batch.missing_edges.contains(e));
    }
}

/// A global graph lists exactly the transactions with the support of more than the faulty authors
/// from which agreed orders lead to a fixed one, or all of them where none is fixed. A fixed one has
/// the support of all the authors that were heard and are not faulty; so it is always listed.
pub proof fn lemma_listed_transactions(
    name: PublicKey,
    members: Seq<(PublicKey, Stake)>,
    sequence: u64,
    graphs: Seq<BatchView>,
    earlier: Seq<(PublicKey, Set<(u64, u64)>)>,
    batch: BatchView,
    faults: nat,
    id: u64,
)
    requires
        3 * faults < members.len() <= 3 * faults + 3,
        is_global_batch(name, members, sequence, graphs, earlier, batch),
    ensures
        listed_ids(batch).contains(id) <==> is_to_be_listed(members, graphs, faults, id),
        listed_ids(batch).contains(id) ==> support(members, graphs, id) > faults,
        support(members, graphs, id) >= members.len() - 2 * faults ==> listed_ids(batch).contains(
            id,
        ),
        listed_ids(batch).no_duplicates(),
{
    lemma_listed_nodes(name, members, sequence, graphs, earlier, batch);
    lemma_nodes(members, graphs, faults, id);
    if is_fixed(members, graphs, faults, id) {
        lemma_reaches_self(agreed(members, graphs, faults), id);
    }
}

/// The settled edges connect what the chains and the remaining edges connect.
proof fn lemma_settled_path(
    members: Seq<(PublicKey, Stake)>,
    graphs: Seq<BatchView>,
    a: u64,
    b: u64,
)
    requires
        reaches(
            linearized(global_nodes(members, graphs), base_edges(members, graphs)),
            a,
            b,
        ),
    ensures
        reaches(settled_edges(members, graphs), a, b),
{
    lemma_settled_edges(members, graphs);
    lemma_global_nodes_finite(members, graphs);
    lemma_reduction_connects(
        global_nodes(members, graphs),
        linearized(global_nodes(members, graphs), base_edges(members, graphs)),
        a,
        b,
    );
}

/// An order that the authors agree on is kept: a path of the edges leads from the one to the other.
/// Where the agreed orders form a cycle, a path leads from the smaller identifier to the greater.
pub proof fn lemma_agreed_orders_are_kept(
    name: PublicKey,
    members: Seq<(PublicKey, Stake)>,
    sequence: u64,
    graphs: Seq<BatchView>,
    earlier: Seq<(PublicKey, Set<(u64, u64)>)>,
    batch: BatchView,
    faults: nat,
    a: u64,
    b: u64,
)
    requires
        3 * faults < members.len() <= 3 * faults + 3,
        is_global_batch(name, members, sequence, graphs, earlier, batch),
        listed_ids(batch).contains(a),
        listed_ids(batch).contains(b),
        a != b,
    ensures
        agreed(members, graphs, faults).contains((a, b)) && !on_a_cycle(
            members,
            graphs,
            faults,
            a,
            b,
        ) ==> reaches(batch.edges.to_set(), a, b),
        on_a_cycle(members, graphs, faults, a, b) && a < b ==> reaches(batch.edges.to_set(), a, b),
        on_a_cycle(members, graphs, faults, a, b) && b < a ==> reaches(batch.edges.to_set(), b, a),
{
    let nodes = global_nodes(members, graphs);
    let base = base_edges(members, graphs);
    let lin = linearized(nodes, base);
    let settled = settled_edges(members, graphs);
    let edges = batch.edges.to_set();
    lemma_listed_nodes(name, members, sequence, graphs, earlier, batch);
    lemma_global_nodes_finite(members, graphs);
    lemma_cycles(members, graphs, faults, a, b);
    lemma_cycles(members, graphs, faults, b, a);
    lemma_base(members, graphs, faults, (a, b));
    lemma_other_edges_stay(nodes, base, (a, b));
    assert(settled.subset_of(edges));
    if agreed(members, graphs, faults).contains((a, b)) && !on_a_cycle(
        members,
        graphs,
        faults,
        a,
        b,
    ) {
        lemma_reaches_edge(lin, a, b);
        lemma_settled_path(members, graphs, a, b);
        lemma_reaches_mono(settled, edges, a, b);
    }
    if on_a_cycle(members, graphs, faults, a, b) {
        if a < b {
            lemma_components_become_chains(nodes, base, a, b);
            lemma_settled_path(members, graphs, a, b);
            lemma_reaches_mono(settled, edges, a, b);
        } else {
            lemma_components_become_chains(nodes, base, b, a);
            lemma_settled_path(members, graphs, b, a);
            lemma_reaches_mono(settled, edges, b, a);
        }
    }
}

/// A graph claims that `p.0` comes before `p.1`, be it as an edge or as a missing one.
pub open spec fn claims_order(graph: BatchView, p: (u64, u64)) -> bool {
    graph.edges.contains(p) || graph.missing_edges.contains(p)
}

/// An earlier claim counts: it is one of `entry`, and no graph of the same author repeats it.
pub open spec fn counts_in_addition(
    graphs: Seq<BatchView>,
    entry: (PublicKey, Set<(u64, u64)>),
    p: (u64, u64),
) -> bool {
    entry.1.contains(p) && forall|i: int|
        0 <= i < graphs.len() && (#[trigger] graphs[i]).author == entry.0 ==> !claims_order(
            graphs[i],
            p,
        )
}

/// The stake of the authors that claim an order, in their graphs or in earlier rounds, each counted
/// once.
pub open spec fn claim_support(
    members: Seq<(PublicKey, Stake)>,
    graphs: Seq<BatchView>,
    earlier: Seq<(PublicKey, Set<(u64, u64)>)>,
    p: (u64, u64),
) -> nat {
    stake_behind(members, graphs, |graph: BatchView| claims_order(graph, p)) + stake_sum(
        earlier.filter(
            |entry: (PublicKey, Set<(u64, u64)>)| counts_in_addition(graphs, entry, p),
        ).map_values(|entry: (PublicKey, Set<(u64, u64)>)| stake_of(members, entry.0)),
    )
}

proof fn lemma_claimed_by(graphs: Seq<BatchView>, author: PublicKey, p: (u64, u64))
    ensures
        claimed_by(graphs, author).contains(p) <==> exists|i: int|
            0 <= i < graphs.len() && (#[trigger] graphs[i]).author == author && claims_order(
                graphs[i],
                p,
            ),
{
    assert forall|i: int| 0 <= i < graphs.len() implies (claims(#[trigger] graphs[i]).contains(p)
        <==> claims_order(graphs[i], p)) by {
        assert(graphs[i].edges.to_set().contains(p) <==> graphs[i].edges.contains(p));
        assert(graphs[i].missing_edges.to_set().contains(p) <==> graphs[i].missing_edges.contains(
            p,
        ));
    }
}

proof fn lemma_earlier_tally(
    members: Seq<(PublicKey, Stake)>,
    graphs: Seq<BatchView>,
    earlier: Seq<(PublicKey, Set<(u64, u64)>)>,
    nodes: Set<u64>,
    p: (u64, u64),
)
    requires
        nodes.contains(p.0),
        nodes.contains(p.1),
        p.0 != p.1,
    ensures
        tally(
            earlier.map_values(
                |entry: (PublicKey, Set<(u64, u64)>)| stake_of(members, entry.0),
            ),
            earlier.map_values(
                |entry: (PublicKey, Set<(u64, u64)>)|
                    proper_edges(nodes, entry.1).difference(claimed_by(graphs, entry.0)),
            ),
            p,
        ) == stake_sum(
            earlier.filter(
                |entry: (PublicKey, Set<(u64, u64)>)| counts_in_addition(graphs, entry, p),
            ).map_values(|entry: (PublicKey, Set<(u64, u64)>)| stake_of(members, entry.0)),
        ),
    decreases earlier.len(),
{
    let stake = |entry: (PublicKey, Set<(u64, u64)>)| stake_of(members, entry.0);
    let vote = |entry: (PublicKey, Set<(u64, u64)>)|
        proper_edges(nodes, entry.1).difference(claimed_by(graphs, entry.0));
    let counts = |entry: (PublicKey, Set<(u64, u64)>)| counts_in_addition(graphs, entry, p);
    reveal(Seq::filter);
    if earlier.len() > 0 {
        let fewer = earlier.drop_last();
        let last = earlier.last();
        lemma_earlier_tally(members, graphs, fewer, nodes, p);
        lemma_claimed_by(graphs, last.0, p);
        assert(earlier.map_values(stake).drop_last() =~= fewer.map_values(stake));
        assert(earlier.map_values(vote).drop_last() =~= fewer.map_values(vote));
        assert(vote(last).contains(p) <==> counts(last));
        let some = fewer.filter(counts);
        if counts(last) {
            assert(earlier.filter(counts) =~= some.push(last));
            assert(some.push(last).map_values(stake).drop_last() =~= some.map_values(stake));
        } else {
            assert(earlier.filter(counts) =~= some);
        }
    } else {
        assert(earlier.filter(counts).map_values(stake) =~= Seq::empty());
    }
}

proof fn lemma_claim_support(
    members: Seq<(PublicKey, Stake)>,
    graphs: Seq<BatchView>,
    earlier: Seq<(PublicKey, Set<(u64, u64)>)>,
    nodes: Set<u64>,
    p: (u64, u64),
)
    requires
        nodes.contains(p.0),
        nodes.contains(p.1),
        p.0 != p.1,
    ensures
        claim_weight(members, graphs, earlier, nodes, p) == claim_support(
            members,
            graphs,
            earlier,
            p,
        ),
{
    let vote = |graph: BatchView| proper_edges(nodes, claims(graph));
    let says = |graph: BatchView| claims_order(graph, p);
    let past_stakes = earlier.map_values(
        |entry: (PublicKey, Set<(u64, u64)>)| stake_of(members, entry.0),
    );
    let past = earlier.map_values(
        |entry: (PublicKey, Set<(u64, u64)>)|
            proper_edges(nodes, entry.1).difference(claimed_by(graphs, entry.0)),
    );
    assert forall|graph: BatchView| #[trigger] says(graph) <==> vote(graph).contains(p) by {
        assert(graph.edges.to_set().contains(p) <==> graph.edges.contains(p));
        assert(graph.missing_edges.to_set().contains(p) <==> graph.missing_edges.contains(p));
    }
    lemma_tally_is_stake_behind(members, graphs, vote, says, p);
    lemma_earlier_tally(members, graphs, earlier, nodes, p);
    lemma_tally_adds_up(
        graph_stakes(members, graphs),
        graphs.map_values(vote),
        past_stakes,
        past,
        p,
    );
    assert(claim_stakes(members, graphs, earlier) =~= graph_stakes(members, graphs) + past_stakes);
    assert(claim_votes(graphs, earlier, nodes) =~= graphs.map_values(vote) + past);
}

/// A path of agreed orders stays with one state.
proof fn lemma_path_of_one_state(
    members: Seq<(PublicKey, Stake)>,
    graphs: Seq<BatchView>,
    faults: nat,
    a: u64,
    b: u64,
)
    requires
        reaches(agreed(members, graphs, faults), a, b),
        a != b,
    ensures
        same_state(graphs, a, b),
{
    let all = agreed(members, graphs, faults);
    let first = lemma_reaches_first(all, a, b);
    let good = Set::new(|z: u64| same_state(graphs, a, z));
    assert forall|u: u64, v: u64|
        good.contains(u) && #[trigger] all.contains((u, v)) implies good.contains(v) by {}
    lemma_reaches_closed(all, good, first, b);
}

/// A claim that is promoted has enough support, and more than its opposite.
proof fn lemma_promoted_claim(
    order: Seq<u64>,
    keys: Map<u64, u8>,
    weight: spec_fn((u64, u64)) -> nat,
    threshold: nat,
    edges: Set<(u64, u64)>,
    n: int,
    e: (u64, u64),
) -> (places: (int, int))
    requires
        n <= order.len(),
        promoted(order, keys, weight, threshold, edges, n).contains(e),
    ensures
        0 <= places.0 < places.1 < n,
        e == (order[places.0], order[places.1]),
        same_key(keys, e.0, e.1),
        weight(e) >= threshold,
        weight(e) > weight((e.1, e.0)),
    decreases n,
{
    if n <= 0 {
        (0, 0)
    } else {
        let before = promoted(order, keys, weight, threshold, edges, n - 1);
        if before.contains(e) {
            lemma_promoted_claim(order, keys, weight, threshold, edges, n - 1, e)
        } else {
            let j = choose|j: int| #[trigger]
                is_promotion(order, keys, weight, threshold, edges.union(before), j, n - 1) && e
                    == (order[j], order[n - 1]);
            (j, n - 1)
        }
    }
}

/// Every edge of a global graph has a reason: it joins two different transactions of the graph that
/// write the same state, and it is an agreed order, or leads to the next greater transaction on a
/// cycle of agreed orders, or has more claims than the faulty authors can make, and more than the
/// opposite order.
pub proof fn lemma_edges_have_a_reason(
    name: PublicKey,
    members: Seq<(PublicKey, Stake)>,
    sequence: u64,
    graphs: Seq<BatchView>,
    earlier: Seq<(PublicKey, Set<(u64, u64)>)>,
    batch: BatchView,
    faults: nat,
    e: (u64, u64),
)
    requires
        3 * faults < members.len() <= 3 * faults + 3,
        is_global_batch(name, members, sequence, graphs, earlier, batch),
        batch.edges.contains(e),
    ensures
        listed_ids(batch).contains(e.0),
        listed_ids(batch).contains(e.1),
        e.0 != e.1,
        same_state(graphs, e.0, e.1),
        (agreed(members, graphs, faults).contains(e) && !on_a_cycle(
            members,
            graphs,
            faults,
            e.0,
            e.1,
        )) || (on_a_cycle(members, graphs, faults, e.0, e.1) && e.0 < e.1) || (claim_support(
            members,
            graphs,
            earlier,
            e,
        ) > faults && claim_support(members, graphs, earlier, e) > claim_support(
            members,
            graphs,
            earlier,
            (e.1, e.0),
        )),
{
    let nodes = global_nodes(members, graphs);
    let base = base_edges(members, graphs);
    let lin = linearized(nodes, base);
    let settled = settled_edges(members, graphs);
    let order = global_order(members, graphs);
    lemma_listed_nodes(name, members, sequence, graphs, earlier, batch);
    lemma_settled_edges(members, graphs);
    lemma_thresholds(members.len(), faults);
    assert(global_edges(members, graphs, earlier).contains(e));
    if settled.contains(e) {
        assert(lin.contains(e));
        assert(e.0 != e.1) by {
            lemma_reaches_self(lin, e.0);
            assert(lin.contains((e.0, e.1)));
        }
        lemma_cycles(members, graphs, faults, e.0, e.1);
        lemma_base(members, graphs, faults, e);
        lemma_other_edges_stay(nodes, base, e);
        if on_a_cycle(members, graphs, faults, e.0, e.1) {
            lemma_path_of_one_state(members, graphs, faults, e.0, e.1);
        }
    } else {
        let weight = claim_weights(members, graphs, earlier);
        let (i, j) = lemma_promoted_claim(
            order,
            written_keys(graphs),
            weight,
            pending_threshold(members.len()),
            settled,
            order.len() as int,
            e,
        );
        assert(listed_ids(batch)[i] != listed_ids(batch)[j]);
        assert(listed_ids(batch).contains(order[i]) && listed_ids(batch).contains(order[j]));
        lemma_claim_support(members, graphs, earlier, nodes, e);
        lemma_claim_support(members, graphs, earlier, nodes, (e.1, e.0));
    }
}

/// Two transactions of the graph are linked: they are on a common cycle of agreed orders, a path of
/// the edges connects them, or their order is recorded as missing.
pub open spec fn is_linked(
    members: Seq<(PublicKey, Stake)>,
    graphs: Seq<BatchView>,
    faults: nat,
    batch: BatchView,
    a: u64,
    b: u64,
) -> bool {
    ||| on_a_cycle(members, graphs, faults, a, b)
    ||| reaches(batch.edges.to_set(), a, b)
    ||| reaches(batch.edges.to_set(), b, a)
    ||| batch.missing_edges.contains((a, b))
}

/// `chain` leads from `a` to `b` over transactions of the graph that write the same state, each of
/// them linked to the next.
pub open spec fn is_chain(
    members: Seq<(PublicKey, Stake)>,
    graphs: Seq<BatchView>,
    faults: nat,
    batch: BatchView,
    chain: Seq<u64>,
    a: u64,
    b: u64,
) -> bool {
    &&& chain.len() > 0
    &&& chain[0] == a
    &&& chain.last() == b
    &&& forall|k: int|
        0 <= k < chain.len() ==> listed_ids(batch).contains(#[trigger] chain[k]) && same_state(
            graphs,
            chain[k],
            b,
        )
    &&& forall|k: int|
        0 <= k < chain.len() - 1 ==> is_linked(
            members,
            graphs,
            faults,
            batch,
            #[trigger] chain[k],
            chain[k + 1],
        )
}

proof fn lemma_neighbors_are_linked(
    name: PublicKey,
    members: Seq<(PublicKey, Stake)>,
    sequence: u64,
    graphs: Seq<BatchView>,
    earlier: Seq<(PublicKey, Set<(u64, u64)>)>,
    batch: BatchView,
    faults: nat,
    i: int,
    j: int,
)
    requires
        3 * faults < members.len() <= 3 * faults + 3,
        is_global_batch(name, members, sequence, graphs, earlier, batch),
        0 <= i < j < listed_ids(batch).len(),
        same_state(graphs, listed_ids(batch)[i], listed_ids(batch)[j]),
        forall|l: int|
            i < l < j ==> !same_state(
                graphs,
                #[trigger] listed_ids(batch)[l],
                listed_ids(batch)[j],
            ),
    ensures
        is_linked(
            members,
            graphs,
            faults,
            batch,
            listed_ids(batch)[i],
            listed_ids(batch)[j],
        ),
{
    let nodes = global_nodes(members, graphs);
    let base = base_edges(members, graphs);
    let keys = written_keys(graphs);
    let ids = listed_ids(batch);
    let all_edges = global_edges(members, graphs, earlier);
    lemma_listed_nodes(name, members, sequence, graphs, earlier, batch);
    assert(ids.contains(ids[i]) && ids.contains(ids[j]));
    lemma_cycles(members, graphs, faults, ids[i], ids[j]);
    assert(batch.edges.to_set() == all_edges);
    assert(are_neighbors(ids, keys, i, j));
    if !is_linked(members, graphs, faults, batch, ids[i], ids[j]) {
        assert(is_open_pair(ids, keys, nodes, base, all_edges, i, j));
        assert(open_pairs(ids, keys, nodes, base, all_edges).contains((ids[i], ids[j])));
        assert(batch.missing_edges.contains((ids[i], ids[j])));
    }
}

/// No conflict is lost: any two transactions of the graph that write the same state are connected by
/// a chain of transactions of that state in which each is linked to the next.
pub proof fn lemma_conflicts_are_connected(
    name: PublicKey,
    members: Seq<(PublicKey, Stake)>,
    sequence: u64,
    graphs: Seq<BatchView>,
    earlier: Seq<(PublicKey, Set<(u64, u64)>)>,
    batch: BatchView,
    faults: nat,
    i: int,
    j: int,
)
    requires
        3 * faults < members.len() <= 3 * faults + 3,
        is_global_batch(name, members, sequence, graphs, earlier, batch),
        0 <= i <= j < listed_ids(batch).len(),
        same_state(graphs, listed_ids(batch)[i], listed_ids(batch)[j]),
    ensures
        exists|chain: Seq<u64>| #[trigger]
            is_chain(
                members,
                graphs,
                faults,
                batch,
                chain,
                listed_ids(batch)[i],
                listed_ids(batch)[j],
            ),
    decreases j - i,
{
    let ids = listed_ids(batch);
    assert(ids.contains(ids[j]));
    if i == j {
        let chain = seq![ids[j]];
        assert(is_chain(members, graphs, faults, batch, chain, ids[i], ids[j]));
    } else {
        let l = lemma_nearest(graphs, ids, i, j, j - 1);
        lemma_neighbors_are_linked(
            name,
            members,
            sequence,
            graphs,
            earlier,
            batch,
            faults,
            l,
            j,
        );
        lemma_conflicts_are_connected(
            name,
            members,
            sequence,
            graphs,
            earlier,
            batch,
            faults,
            i,
            l,
        );
        let before = choose|before: Seq<u64>| #[trigger]
            is_chain(members, graphs, faults, batch, before, ids[i], ids[l]);
        let chain = before.push(ids[j]);
        assert forall|k: int| 0 <= k < chain.len() implies ids.contains(#[trigger] chain[k])
            && same_state(graphs, chain[k], ids[j]) by {
            if k < before.len() {
                assert(chain[k] == before[k]);
            }
        }
        assert forall|k: int| 0 <= k < chain.len() - 1 implies is_linked(
            members,
            graphs,
            faults,
            batch,
            #[trigger] chain[k],
            chain[k + 1],
        ) by {
            assert(chain[k] == before[k]);
            if k < before.len() - 1 {
                assert(chain[k + 1] == before[k + 1]);
            }
        }
        assert(is_chain(members, graphs, faults, batch, chain, ids[i], ids[j]));
    }
}

/// The last position from `i` to `l` with a transaction of the state of the one at `j`.
proof fn lemma_nearest(graphs: Seq<BatchView>, ids: Seq<u64>, i: int, j: int, l: int) -> (near: int)
    requires
        0 <= i <= l < j < ids.len(),
        same_state(graphs, ids[i], ids[j]),
        forall|k: int| l < k < j ==> !same_state(graphs, #[trigger] ids[k], ids[j]),
    ensures
        i <= near <= l,
        same_state(graphs, ids[near], ids[j]),
        forall|k: int| near < k < j ==> !same_state(graphs, #[trigger] ids[k], ids[j]),
    decreases l - i,
{
    if same_state(graphs, ids[l], ids[j]) {
        l
    } else {
        lemma_nearest(graphs, ids, i, j, l - 1)
    }
}

/// Where only two transactions of the graph write a state, their order is given by the edges or
/// recorded as missing, unless they were on a cycle.
pub proof fn lemma_lone_conflict_is_recorded(
    name: PublicKey,
    members: Seq<(PublicKey, Stake)>,
    sequence: u64,
    graphs: Seq<BatchView>,
    earlier: Seq<(PublicKey, Set<(u64, u64)>)>,
    batch: BatchView,
    faults: nat,
    i: int,
    j: int,
)
    requires
        3 * faults < members.len() <= 3 * faults + 3,
        is_global_batch(name, members, sequence, graphs, earlier, batch),
        0 <= i < j < listed_ids(batch).len(),
        same_state(graphs, listed_ids(batch)[i], listed_ids(batch)[j]),
        forall|l: int|
            0 <= l < listed_ids(batch).len() && l != i && l != j ==> !same_state(
                graphs,
                #[trigger] listed_ids(batch)[l],
                listed_ids(batch)[j],
            ),
    ensures
        is_linked(
            members,
            graphs,
            faults,
            batch,
            listed_ids(batch)[i],
            listed_ids(batch)[j],
        ),
{
    lemma_neighbors_are_linked(
        name,
        members,
        sequence,
        graphs,
        earlier,
        batch,
        faults,
        i,
        j,
    );
}

/// What is recorded as missing between transactions of the graph is an open conflict: both write the
/// same state, none that is listed between them does, they are on no common cycle of agreed orders,
/// and no path of the edges connects them.
pub proof fn lemma_missing_pairs_are_conflicts(
    name: PublicKey,
    members: Seq<(PublicKey, Stake)>,
    sequence: u64,
    graphs: Seq<BatchView>,
    earlier: Seq<(PublicKey, Set<(u64, u64)>)>,
    batch: BatchView,
    faults: nat,
    i: int,
    j: int,
)
    requires
        3 * faults < members.len() <= 3 * faults + 3,
        is_global_batch(name, members, sequence, graphs, earlier, batch),
        0 <= i < listed_ids(batch).len(),
        0 <= j < listed_ids(batch).len(),
        batch.missing_edges.contains((listed_ids(batch)[i], listed_ids(batch)[j])),
    ensures
        i < j,
        same_state(graphs, listed_ids(batch)[i], listed_ids(batch)[j]),
        forall|l: int|
            i < l < j ==> !same_state(
                graphs,
                #[trigger] listed_ids(batch)[l],
                listed_ids(batch)[j],
            ),
        !on_a_cycle(members, graphs, faults, listed_ids(batch)[i], listed_ids(batch)[j]),
        !reaches(batch.edges.to_set(), listed_ids(batch)[i], listed_ids(batch)[j]),
        !reaches(batch.edges.to_set(), listed_ids(batch)[j], listed_ids(batch)[i]),
{
    let nodes = global_nodes(members, graphs);
    let base = base_edges(members, graphs);
    let keys = written_keys(graphs);
    let ids = listed_ids(batch);
    let all_edges = global_edges(members, graphs, earlier);
    let pair = (ids[i], ids[j]);
    lemma_listed_nodes(name, members, sequence, graphs, earlier, batch);
    assert(ids.contains(ids[i]) && ids.contains(ids[j]));
    assert(batch.edges.to_set() == all_edges);
    assert(global_missing(members, graphs, earlier).contains(pair));
    let forwarded = forwarded_pairs(members, graphs, nodes, pending_threshold(members.len()));
    assert(!forwarded.contains(pair)) by {
        lemma_forwarded(members, graphs, faults, nodes, pair);
    }
    let (a, b) = choose|a: int, b: int| #[trigger]
        is_open_pair(ids, keys, nodes, base, all_edges, a, b) && pair == (ids[a], ids[b]);
    assert(a == i && b == j);
    lemma_cycles(members, graphs, faults, ids[i], ids[j]);
}

proof fn lemma_forwarded(
    members: Seq<(PublicKey, Stake)>,
    graphs: Seq<BatchView>,
    faults: nat,
    nodes: Set<u64>,
    p: (u64, u64),
)
    requires
        3 * faults < members.len() <= 3 * faults + 3,
    ensures
        forwarded_pairs(members, graphs, nodes, pending_threshold(members.len())).contains(p) <==>
            p.0 < p.1 && nodes.contains(p.0) != nodes.contains(p.1) && open_support(
            members,
            graphs,
            p,
        ) > faults,
{
    let vote = |graph: BatchView| external_pairs(graph, nodes);
    let says = |graph: BatchView|
        p.0 < p.1 && nodes.contains(p.0) != nodes.contains(p.1) && (graph.missing_edges.contains(p)
            || graph.missing_edges.contains((p.1, p.0)));
    let open = |graph: BatchView|
        graph.missing_edges.contains(p) || graph.missing_edges.contains((p.1, p.0));
    lemma_thresholds(members.len(), faults);
    assert forall|graph: BatchView| #[trigger] says(graph) <==> vote(graph).contains(p) by {
        if vote(graph).contains(p) {
            let i = choose|i: int|
                0 <= i < graph.missing_edges.len() && p == canonical_pair(
                    (#[trigger] graph.missing_edges[i]).0,
                    graph.missing_edges[i].1,
                );
            assert(graph.missing_edges.contains(graph.missing_edges[i]));
        }
        if says(graph) {
            if graph.missing_edges.contains(p) {
                let i = choose|i: int|
                    0 <= i < graph.missing_edges.len() && graph.missing_edges[i] == p;
                assert(p == canonical_pair(graph.missing_edges[i].0, graph.missing_edges[i].1));
            } else {
                let i = choose|i: int|
                    0 <= i < graph.missing_edges.len() && graph.missing_edges[i] == (p.1, p.0);
                assert(p == canonical_pair(graph.missing_edges[i].0, graph.missing_edges[i].1));
            }
        }
    }
    lemma_tally_is_stake_behind(members, graphs, vote, says, p);
    assert(external_votes(graphs, nodes) =~= graphs.map_values(vote));
    if p.0 < p.1 && nodes.contains(p.0) != nodes.contains(p.1) {
        assert(graphs.filter(says) =~= graphs.filter(open)) by {
            lemma_same_filter(graphs, says, open);
        }
    } else {
        lemma_empty_filter(graphs, says);
        assert(graph_stakes(members, graphs.filter(says)) =~= Seq::empty());
    }
}

proof fn lemma_same_filter(
    graphs: Seq<BatchView>,
    one: spec_fn(BatchView) -> bool,
    other: spec_fn(BatchView) -> bool,
)
    requires
        forall|graph: BatchView| #[trigger] one(graph) == other(graph),
    ensures
        graphs.filter(one) == graphs.filter(other),
    decreases graphs.len(),
{
    reveal(Seq::filter);
    if graphs.len() > 0 {
        lemma_same_filter(graphs.drop_last(), one, other);
        assert(one(graphs.last()) == other(graphs.last()));
    }
}

proof fn lemma_empty_filter(graphs: Seq<BatchView>, one: spec_fn(BatchView) -> bool)
    requires
        forall|graph: BatchView| !#[trigger] one(graph),
    ensures
        graphs.filter(one) == Seq::<BatchView>::empty(),
    decreases graphs.len(),
{
    reveal(Seq::filter);
    if graphs.len() > 0 {
        lemma_empty_filter(graphs.drop_last(), one);
        assert(!one(graphs.last()));
    }
}

/// A missing pair with one end in the graph is passed on exactly if more authors than the faulty
/// ones leave it open; then its smaller end is named first.
pub proof fn lemma_open_pairs_are_passed_on(
    name: PublicKey,
    members: Seq<(PublicKey, Stake)>,
    sequence: u64,
    graphs: Seq<BatchView>,
    earlier: Seq<(PublicKey, Set<(u64, u64)>)>,
    batch: BatchView,
    faults: nat,
    p: (u64, u64),
)
    requires
        3 * faults < members.len() <= 3 * faults + 3,
        is_global_batch(name, members, sequence, graphs, earlier, batch),
        listed_ids(batch).contains(p.0) != listed_ids(batch).contains(p.1),
    ensures
        batch.missing_edges.contains(p) <==> p.0 < p.1 && open_support(members, graphs, p) > faults,
{
    let nodes = global_nodes(members, graphs);
    let base = base_edges(members, graphs);
    let keys = written_keys(graphs);
    let ids = listed_ids(batch);
    let all_edges = global_edges(members, graphs, earlier);
    lemma_listed_nodes(name, members, sequence, graphs, earlier, batch);
    lemma_forwarded(members, graphs, faults, nodes, p);
    assert(!open_pairs(ids, keys, nodes, base, all_edges).contains(p)) by {
        if open_pairs(ids, keys, nodes, base, all_edges).contains(p) {
            let (a, b) = choose|a: int, b: int| #[trigger]
                is_open_pair(ids, keys, nodes, base, all_edges, a, b) && p == (ids[a], ids[b]);
            assert(ids.contains(ids[a]) && ids.contains(ids[b]));
        }
    }
}

/// Nothing is missing between two transactions that are both outside of the graph.
pub proof fn lemma_missing_pairs_touch_the_graph(
    name: PublicKey,
    members: Seq<(PublicKey, Stake)>,
    sequence: u64,
    graphs: Seq<BatchView>,
    earlier: Seq<(PublicKey, Set<(u64, u64)>)>,
    batch: BatchView,
    faults: nat,
    p: (u64, u64),
)
    requires
        3 * faults < members.len() <= 3 * faults + 3,
        is_global_batch(name, members, sequence, graphs, earlier, batch),
        batch.missing_edges.contains(p),
    ensures
        listed_ids(batch).contains(p.0) || listed_ids(batch).contains(p.1),
        p.0 != p.1,
{
    crate::global_batch::lemma_missing_pairs_are_open(
        name,
        members,
        sequence,
        graphs,
        earlier,
        batch,
        p,
    );
    lemma_reaches_self(batch.edges.to_set(), p.0);
}

/// The transactions of a global graph are those of the local graphs, and of all with the same
/// identifier the one with the smallest bytes.
pub proof fn lemma_listed_bytes(
    name: PublicKey,
    members: Seq<(PublicKey, Stake)>,
    sequence: u64,
    graphs: Seq<BatchView>,
    earlier: Seq<(PublicKey, Set<(u64, u64)>)>,
    batch: BatchView,
    i: int,
)
    requires
        is_global_batch(name, members, sequence, graphs, earlier, batch),
        0 <= i < batch.transactions.len(),
    ensures
        batch.author == name,
        batch.sequence == sequence,
        listed_ids(batch).len() == batch.transactions.len(),
        tx_id(batch.transactions[i]) == Some(listed_ids(batch)[i]),
        all_transactions(graphs).contains(batch.transactions[i]),
        forall|k: int|
            0 <= k < all_transactions(graphs).len() && tx_id(#[trigger] all_transactions(graphs)[k])
                == tx_id(batch.transactions[i]) ==> !bytes_lt(
                all_transactions(graphs)[k],
                batch.transactions[i],
            ),
{
    lemma_listed_ids(name, members, sequence, graphs, earlier, batch);
    let order = global_order(members, graphs);
    assert(is_canonical(all_transactions(graphs), order[i], batch.transactions[i]));
}

/// A smaller transaction is listed after a greater one only because of an edge that leads to it from
/// the greater one or from one that is listed between them.
pub proof fn lemma_smaller_transactions_come_first(
    name: PublicKey,
    members: Seq<(PublicKey, Stake)>,
    sequence: u64,
    graphs: Seq<BatchView>,
    earlier: Seq<(PublicKey, Set<(u64, u64)>)>,
    batch: BatchView,
    i: int,
    j: int,
)
    requires
        is_global_batch(name, members, sequence, graphs, earlier, batch),
        0 <= i < j < listed_ids(batch).len(),
        listed_ids(batch)[j] < listed_ids(batch)[i],
    ensures
        exists|k: int|
            i <= k < j && #[trigger] batch.edges.contains(
                (listed_ids(batch)[k], listed_ids(batch)[j]),
            ),
{
    let nodes = global_nodes(members, graphs);
    let settled = settled_edges(members, graphs);
    let order = global_order(members, graphs);
    lemma_listed_nodes(name, members, sequence, graphs, earlier, batch);
    lemma_settled_edges(members, graphs);
    lemma_global_nodes_finite(members, graphs);
    let witness = lemma_kahn_order_exists(nodes, settled);
    assert(is_kahn_order(nodes, settled, order));
    lemma_smallest_comes_first(nodes, settled, order, i, j);
    let k = choose|k: int| i <= k < j && #[trigger] settled.contains((order[k], order[j]));
    assert(batch.edges.contains((listed_ids(batch)[k], listed_ids(batch)[j])));
}

proof fn lemma_promotes_some(
    order: Seq<u64>,
    keys: Map<u64, u8>,
    weight: spec_fn((u64, u64)) -> nat,
    threshold: nat,
    edges: Set<(u64, u64)>,
    n: int,
    i: int,
    j: int,
) -> (l: int)
    requires
        0 <= j < i < n <= order.len(),
        same_key(keys, order[j], order[i]),
        weight((order[j], order[i])) >= threshold,
        weight((order[j], order[i])) > weight((order[i], order[j])),
    ensures
        j <= l < i,
        same_key(keys, order[l], order[i]),
        weight((order[l], order[i])) >= threshold,
        weight((order[l], order[i])) > weight((order[i], order[l])),
        reaches(
            edges.union(promoted(order, keys, weight, threshold, edges, n)),
            order[l],
            order[i],
        ),
    decreases n,
{
    let before = promoted(order, keys, weight, threshold, edges, n - 1);
    let now = promoted(order, keys, weight, threshold, edges, n);
    let links = edges.union(before);
    if i < n - 1 {
        let l = lemma_promotes_some(order, keys, weight, threshold, edges, n - 1, i, j);
        lemma_reaches_mono(links, edges.union(now), order[l], order[i]);
        l
    } else if is_promotable(order, keys, weight, threshold, links, j, i) {
        let l = lemma_last_promotable(order, keys, weight, threshold, links, i, j, i - 1);
        assert(is_promotion(order, keys, weight, threshold, links, l, i));
        assert(now.contains((order[l], order[i])));
        lemma_reaches_edge(edges.union(now), order[l], order[i]);
        l
    } else {
        lemma_reaches_mono(links, edges.union(now), order[j], order[i]);
        j
    }
}

proof fn lemma_last_promotable(
    order: Seq<u64>,
    keys: Map<u64, u8>,
    weight: spec_fn((u64, u64)) -> nat,
    threshold: nat,
    edges: Set<(u64, u64)>,
    i: int,
    j: int,
    l: int,
) -> (last: int)
    requires
        0 <= j <= l < i,
        is_promotable(order, keys, weight, threshold, edges, j, i),
        forall|k: int|
            l < k < i ==> !#[trigger] is_promotable(order, keys, weight, threshold, edges, k, i),
    ensures
        j <= last <= l,
        is_promotion(order, keys, weight, threshold, edges, last, i),
    decreases l - j,
{
    if is_promotable(order, keys, weight, threshold, edges, l, i) {
        l
    } else {
        lemma_last_promotable(order, keys, weight, threshold, edges, i, j, l - 1)
    }
}

/// A well-supported claim is not passed over: where one of the transactions that are listed before
/// another is claimed to come first by more than the faulty authors, and by more than claim the
/// opposite, a path of the edges leads to the other from it or from a later one that is so claimed.
pub proof fn lemma_claims_are_heard(
    name: PublicKey,
    members: Seq<(PublicKey, Stake)>,
    sequence: u64,
    graphs: Seq<BatchView>,
    earlier: Seq<(PublicKey, Set<(u64, u64)>)>,
    batch: BatchView,
    faults: nat,
    i: int,
    j: int,
)
    requires
        3 * faults < members.len() <= 3 * faults + 3,
        is_global_batch(name, members, sequence, graphs, earlier, batch),
        0 <= j < i < listed_ids(batch).len(),
        is_claimed(members, graphs, earlier, faults, listed_ids(batch)[j], listed_ids(batch)[i]),
    ensures
        exists|l: int|
            j <= l < i && is_claimed(
                members,
                graphs,
                earlier,
                faults,
                listed_ids(batch)[l],
                listed_ids(batch)[i],
            ) && #[trigger] reaches(
                batch.edges.to_set(),
                listed_ids(batch)[l],
                listed_ids(batch)[i],
            ),
{
    let nodes = global_nodes(members, graphs);
    let settled = settled_edges(members, graphs);
    let order = global_order(members, graphs);
    let weight = claim_weights(members, graphs, earlier);
    let threshold = pending_threshold(members.len());
    lemma_listed_nodes(name, members, sequence, graphs, earlier, batch);
    lemma_thresholds(members.len(), faults);
    assert forall|l: int| 0 <= l < i implies weight((#[trigger] order[l], order[i]))
        == claim_support(members, graphs, earlier, (order[l], order[i])) && weight(
        (order[i], order[l]),
    ) == claim_support(members, graphs, earlier, (order[i], order[l])) by {
        assert(listed_ids(batch).contains(order[l]) && listed_ids(batch).contains(order[i]));
        assert(listed_ids(batch)[l] != listed_ids(batch)[i]);
        lemma_claim_support(members, graphs, earlier, nodes, (order[l], order[i]));
        lemma_claim_support(members, graphs, earlier, nodes, (order[i], order[l]));
    }
    let l = lemma_promotes_some(
        order,
        written_keys(graphs),
        weight,
        threshold,
        settled,
        order.len() as int,
        i,
        j,
    );
    assert(batch.edges.to_set() == global_edges(members, graphs, earlier));
    assert(reaches(batch.edges.to_set(), listed_ids(batch)[l], listed_ids(batch)[i]));
}

/// An edge is promoted for its end: it was put there for a claim alone.
proof fn lemma_promoted_end(
    order: Seq<u64>,
    keys: Map<u64, u8>,
    weight: spec_fn((u64, u64)) -> nat,
    threshold: nat,
    edges: Set<(u64, u64)>,
    n: int,
    i: int,
    e: (u64, u64),
) -> (j: int)
    requires
        0 <= i < n <= order.len(),
        order.no_duplicates(),
        promoted(order, keys, weight, threshold, edges, n).contains(e),
        e.1 == order[i],
    ensures
        is_promotion(
            order,
            keys,
            weight,
            threshold,
            edges.union(promoted(order, keys, weight, threshold, edges, i)),
            j,
            i,
        ),
        e.0 == order[j],
        promoted(order, keys, weight, threshold, edges, i + 1).contains(e),
    decreases n,
{
    let before = promoted(order, keys, weight, threshold, edges, n - 1);
    if before.contains(e) {
        if i == n - 1 {
            let (a, b) = lemma_promoted_claim(order, keys, weight, threshold, edges, n - 1, e);
            assert(order[b] == order[i]);
            0
        } else {
            lemma_promoted_end(order, keys, weight, threshold, edges, n - 1, i, e)
        }
    } else {
        let j = choose|j: int| #[trigger]
            is_promotion(order, keys, weight, threshold, edges.union(before), j, n - 1) && e == (
                order[j],
                order[n - 1],
            );
        assert(order[n - 1] == order[i]);
        assert(i == n - 1);
        j
    }
}

proof fn lemma_promoted_grows(
    order: Seq<u64>,
    keys: Map<u64, u8>,
    weight: spec_fn((u64, u64)) -> nat,
    threshold: nat,
    edges: Set<(u64, u64)>,
    m: int,
    n: int,
)
    requires
        m <= n,
    ensures
        promoted(order, keys, weight, threshold, edges, m).subset_of(
            promoted(order, keys, weight, threshold, edges, n),
        ),
    decreases n - m,
{
    if m < n {
        lemma_promoted_grows(order, keys, weight, threshold, edges, m, n - 1);
    }
}

/// The edge is there for a claim alone: it is no agreed order, and its ends are on no cycle.
pub open spec fn is_there_for_a_claim(
    members: Seq<(PublicKey, Stake)>,
    graphs: Seq<BatchView>,
    faults: nat,
    batch: BatchView,
    e: (u64, u64),
) -> bool {
    batch.edges.contains(e) && !agreed(members, graphs, faults).contains(e) && !on_a_cycle(
        members,
        graphs,
        faults,
        e.0,
        e.1,
    )
}

/// A claim makes an edge only where nothing else says so: without the edge, no path leads from the
/// one to the other. And of such edges no more than one leads to each transaction.
pub proof fn lemma_claims_fill_gaps(
    name: PublicKey,
    members: Seq<(PublicKey, Stake)>,
    sequence: u64,
    graphs: Seq<BatchView>,
    earlier: Seq<(PublicKey, Set<(u64, u64)>)>,
    batch: BatchView,
    faults: nat,
    e: (u64, u64),
    other: u64,
)
    requires
        3 * faults < members.len() <= 3 * faults + 3,
        is_global_batch(name, members, sequence, graphs, earlier, batch),
        is_there_for_a_claim(members, graphs, faults, batch, e),
    ensures
        !reaches(batch.edges.to_set().remove(e), e.0, e.1),
        is_there_for_a_claim(members, graphs, faults, batch, (other, e.1)) ==> other == e.0,
{
    let nodes = global_nodes(members, graphs);
    let base = base_edges(members, graphs);
    let settled = settled_edges(members, graphs);
    let order = global_order(members, graphs);
    let keys = written_keys(graphs);
    let weight = claim_weights(members, graphs, earlier);
    let threshold = pending_threshold(members.len());
    let n = order.len() as int;
    let all = batch.edges.to_set();
    let claims_only = promoted(order, keys, weight, threshold, settled, n);
    lemma_listed_nodes(name, members, sequence, graphs, earlier, batch);
    lemma_global_order(members, graphs, earlier);
    assert(all == global_edges(members, graphs, earlier));
    assert forall|f: (u64, u64)| #[trigger]
        is_there_for_a_claim(members, graphs, faults, batch, f) implies claims_only.contains(f)
        && !settled.contains(f) by {
        if settled.contains(f) {
            lemma_settled_edges(members, graphs);
            assert(linearized(nodes, base).contains(f));
            lemma_cycles(members, graphs, faults, f.0, f.1);
            lemma_base(members, graphs, faults, f);
            lemma_other_edges_stay(nodes, base, f);
        }
    }
    let (from, i) = lemma_promoted_claim(order, keys, weight, threshold, settled, n, e);
    let j = lemma_promoted_end(order, keys, weight, threshold, settled, n, i, e);
    let before = promoted(order, keys, weight, threshold, settled, i);
    let links = settled.union(before);
    assert forall|f: (u64, u64)| #[trigger] claims_only.contains(f) && f.1 == order[i] implies f
        == e by {
        let k = lemma_promoted_end(order, keys, weight, threshold, settled, n, i, f);
        if j < k {
            assert(is_promotable(order, keys, weight, threshold, links, k, i));
        } else if k < j {
            assert(is_promotable(order, keys, weight, threshold, links, j, i));
        }
    }
    if is_there_for_a_claim(members, graphs, faults, batch, (other, e.1)) {
        assert(claims_only.contains((other, e.1)));
    }
    let rest = all.remove(e);
    assert(!reaches(links, e.0, e.1)) by {
        assert(is_promotable(order, keys, weight, threshold, links, j, i));
    }
    if reaches(rest, e.0, e.1) {
        let good = Set::new(
            |z: u64| reaches(links, e.0, z) || exists|k: int| i < k < n && order[k] == z,
        );
        lemma_reaches_self(links, e.0);
        assert forall|u: u64, v: u64|
            good.contains(u) && #[trigger] rest.contains((u, v)) implies good.contains(v) by {
            assert(global_edges(members, graphs, earlier).contains((u, v)));
            assert(leads_forward(order, (u, v)));
            let (a, b) = choose|a: int, b: int| #[trigger]
                crate::global_batch::is_forward_step(order, (u, v), a, b);
            if b > i {
                assert(order[b] == v);
            } else {
                assert(reaches(links, e.0, u)) by {
                    if exists|k: int| i < k < n && order[k] == u {
                        let k = choose|k: int| i < k < n && order[k] == u;
                        assert(order[k] == order[a]);
                    }
                }
                if !settled.contains((u, v)) {
                    assert(claims_only.contains((u, v)));
                    assert(b < i);
                    let k = lemma_promoted_end(
                        order,
                        keys,
                        weight,
                        threshold,
                        settled,
                        n,
                        b,
                        (u, v),
                    );
                    lemma_promoted_grows(order, keys, weight, threshold, settled, b + 1, i);
                }
                lemma_reaches_edge(links, u, v);
                lemma_reaches_trans(links, e.0, u, v);
            }
        }
        lemma_reaches_closed(rest, good, e.0, e.1);
        let k = choose|k: int| i < k < n && order[k] == e.1;
        assert(order[k] == order[i]);
    }
}

/// `a` is claimed to come before `b` by more than the faulty authors, and by more than claim the
/// opposite; both write the same state.
pub open spec fn is_claimed(
    members: Seq<(PublicKey, Stake)>,
    graphs: Seq<BatchView>,
    earlier: Seq<(PublicKey, Set<(u64, u64)>)>,
    faults: nat,
    a: u64,
    b: u64,
) -> bool {
    &&& same_state(graphs, a, b)
    &&& claim_support(members, graphs, earlier, (a, b)) > faults
    &&& claim_support(members, graphs, earlier, (a, b)) > claim_support(
        members,
        graphs,
        earlier,
        (b, a),
    )
}

/// An edge that the agreed orders did not settle is there for a claim alone.
proof fn lemma_claims_alone(
    name: PublicKey,
    members: Seq<(PublicKey, Stake)>,
    sequence: u64,
    graphs: Seq<BatchView>,
    earlier: Seq<(PublicKey, Set<(u64, u64)>)>,
    batch: BatchView,
    faults: nat,
    f: (u64, u64),
)
    requires
        3 * faults < members.len() <= 3 * faults + 3,
        is_global_batch(name, members, sequence, graphs, earlier, batch),
        batch.edges.contains(f),
        !settled_edges(members, graphs).contains(f),
    ensures
        is_there_for_a_claim(members, graphs, faults, batch, f),
{
    let nodes = global_nodes(members, graphs);
    let base = base_edges(members, graphs);
    let lin = linearized(nodes, base);
    let settled = settled_edges(members, graphs);
    let order = global_order(members, graphs);
    let keys = written_keys(graphs);
    let weight = claim_weights(members, graphs, earlier);
    let threshold = pending_threshold(members.len());
    let n = order.len() as int;
    lemma_listed_nodes(name, members, sequence, graphs, earlier, batch);
    lemma_global_order(members, graphs, earlier);
    lemma_global_nodes_finite(members, graphs);
    let (from, i) = lemma_promoted_claim(order, keys, weight, threshold, settled, n, f);
    let j = lemma_promoted_end(order, keys, weight, threshold, settled, n, i, f);
    let links = settled.union(promoted(order, keys, weight, threshold, settled, i));
    assert(is_promotable(order, keys, weight, threshold, links, j, i));
    assert(!reaches(settled, f.0, f.1)) by {
        if reaches(settled, f.0, f.1) {
            lemma_reaches_mono(settled, links, f.0, f.1);
        }
    }
    assert(listed_ids(batch).contains(order[from]) && listed_ids(batch).contains(order[i]));
    assert(f.0 != f.1);
    lemma_cycles(members, graphs, faults, f.0, f.1);
    lemma_cycles(members, graphs, faults, f.1, f.0);
    if on_a_cycle(members, graphs, faults, f.0, f.1) {
        if f.0 < f.1 {
            lemma_components_become_chains(nodes, base, f.0, f.1);
            lemma_settled_path(members, graphs, f.0, f.1);
        } else {
            assert(same_component(nodes, base, f.1, f.0));
            lemma_components_become_chains(nodes, base, f.1, f.0);
            lemma_settled_path(members, graphs, f.1, f.0);
            let later = Set::new(|z: u64| exists|k: int| i <= k < n && order[k] == z);
            assert forall|u: u64, v: u64|
                later.contains(u) && #[trigger] settled.contains((u, v)) implies later.contains(
                v,
            ) by {
                assert(global_edges(members, graphs, earlier).contains((u, v)));
                assert(leads_forward(order, (u, v)));
                let (a, b) = choose|a: int, b: int| #[trigger]
                    crate::global_batch::is_forward_step(order, (u, v), a, b);
                let k = choose|k: int| i <= k < n && order[k] == u;
                assert(order[k] == order[a]);
                assert(order[b] == v);
            }
            assert(order[i] == f.1);
            assert(later.contains(f.1));
            lemma_reaches_closed(settled, later, f.1, f.0);
            let k = choose|k: int| i <= k < n && order[k] == f.0;
            assert(order[k] == order[from]);
        }
        assert(false);
    }
    if agreed(members, graphs, faults).contains(f) {
        lemma_base(members, graphs, faults, f);
        lemma_other_edges_stay(nodes, base, f);
        lemma_reaches_edge(lin, f.0, f.1);
        lemma_settled_path(members, graphs, f.0, f.1);
    }
}

/// A global graph says nothing twice: an edge that is not there for a claim is not implied by the
/// other edges that are not.
pub proof fn lemma_agreed_edges_are_needed(
    name: PublicKey,
    members: Seq<(PublicKey, Stake)>,
    sequence: u64,
    graphs: Seq<BatchView>,
    earlier: Seq<(PublicKey, Set<(u64, u64)>)>,
    batch: BatchView,
    faults: nat,
    e: (u64, u64),
)
    requires
        3 * faults < members.len() <= 3 * faults + 3,
        is_global_batch(name, members, sequence, graphs, earlier, batch),
        batch.edges.contains(e),
        !is_there_for_a_claim(members, graphs, faults, batch, e),
    ensures
        ({
            let others = Set::new(
                |f: (u64, u64)|
                    f != e && batch.edges.contains(f) && !is_there_for_a_claim(
                        members,
                        graphs,
                        faults,
                        batch,
                        f,
                    ),
            );
            !reaches(others, e.0, e.1)
        }),
{
    let nodes = global_nodes(members, graphs);
    let lin = linearized(nodes, base_edges(members, graphs));
    let settled = settled_edges(members, graphs);
    let others = Set::new(
        |f: (u64, u64)|
            f != e && batch.edges.contains(f) && !is_there_for_a_claim(
                members,
                graphs,
                faults,
                batch,
                f,
            ),
    );
    assert forall|f: (u64, u64)| #[trigger] others.contains(f) implies settled.remove(e).contains(
        f,
    ) by {
        if !settled.contains(f) {
            lemma_claims_alone(name, members, sequence, graphs, earlier, batch, faults, f);
        }
    }
    if !settled.contains(e) {
        lemma_claims_alone(name, members, sequence, graphs, earlier, batch, faults, e);
    }
    lemma_settled_edges(members, graphs);
    lemma_global_nodes_finite(members, graphs);
    lemma_reduction_is_minimal(nodes, lin);
    if reaches(others, e.0, e.1) {
        lemma_reaches_mono(others, settled.remove(e), e.0, e.1);
    }
}

} // verus!
