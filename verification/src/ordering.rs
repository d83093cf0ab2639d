//! The rules of global ordering: how much support a transaction or an order needs,
//! which claims are promoted to edges, and which pairs are left open.

use std::collections::{BTreeMap, BTreeSet};
use vstd::prelude::*;
use crate::batch::{BatchView, PublicKey, Stake};
use crate::components::{component_index, lemma_listed_together, same_component};
use crate::evidence::{graph_stakes, id_votes};
use crate::graph::{
    add_neighbor, adjacency_edges, build_adjacency, has_path_in_adjacency, induced, reaches, within,
};
use crate::scc::{in_scc, lists_components};
use crate::support::{pair_count, same_key, writes_same_key};
use crate::votes::{count_of, tally};

verus! {

/// The fairness parameter is the quotient of these two.
pub const ORDER_FAIRNESS_GAMMA_NUM: u64 = 1;

/// The denominator of the fairness parameter.
pub const ORDER_FAIRNESS_GAMMA_DEN: u64 = 1;

/// The number of faulty members that a committee of `replicas` members tolerates.
pub open spec fn tolerated_faults(replicas: nat) -> nat {
    if replicas == 0 {
        0
    } else {
        ((replicas - 1) / 3) as nat
    }
}

/// The support that fixes a transaction in its round.
pub open spec fn fixed_threshold(replicas: nat) -> nat {
    let certain = replicas - 2 * tolerated_faults(replicas);
    if certain >= 1 {
        certain as nat
    } else {
        1
    }
}

/// The support from which on a transaction, or the order of two, is taken into account.
pub open spec fn pending_threshold(replicas: nat) -> nat {
    replicas * (ORDER_FAIRNESS_GAMMA_DEN - ORDER_FAIRNESS_GAMMA_NUM) as nat
        / ORDER_FAIRNESS_GAMMA_DEN as nat + tolerated_faults(replicas) + 1
}

/// Of `replicas` members, `faults` is the greatest number with `3 * faults < replicas`. What is taken
/// into account has the support of a member that is not faulty. What is fixed has the support of
/// all the others even if of the `replicas - faults` members that were heard `faults` are faulty;
/// so whatever is fixed is taken into account too.
pub proof fn lemma_thresholds(replicas: nat, faults: nat)
    requires
        3 * faults < replicas <= 3 * faults + 3,
    ensures
        tolerated_faults(replicas) == faults,
        pending_threshold(replicas) == faults + 1,
        fixed_threshold(replicas) + faults == replicas - faults,
        pending_threshold(replicas) <= fixed_threshold(replicas),
{
    assert(replicas * ((ORDER_FAIRNESS_GAMMA_DEN - ORDER_FAIRNESS_GAMMA_NUM) as nat) == 0)
        by (nonlinear_arith)
        requires
            ORDER_FAIRNESS_GAMMA_DEN == ORDER_FAIRNESS_GAMMA_NUM,
    ;
}

pub(crate) fn compute_tolerated_faults(replicas: u64) -> (faults: u64)
    ensures
        faults == tolerated_faults(replicas as nat),
{
    replicas.saturating_sub(1) / 3
}

pub(crate) fn compute_fixed_threshold(replicas: u64) -> (threshold: u64)
    ensures
        threshold == fixed_threshold(replicas as nat),
{
    let faults = compute_tolerated_faults(replicas);
    let certain = replicas - 2 * faults;
    if certain >= 1 {
        certain
    } else {
        1
    }
}

pub(crate) fn compute_pending_threshold(replicas: u64) -> (threshold: u64)
    ensures
        threshold == pending_threshold(replicas as nat),
{
    let faults = compute_tolerated_faults(replicas);
    let gap: u64 = ORDER_FAIRNESS_GAMMA_DEN - ORDER_FAIRNESS_GAMMA_NUM;
    assert(replicas * gap == 0) by (nonlinear_arith)
        requires
            gap == 0,
    ;
    assert((replicas as nat) * (gap as nat) == 0) by (nonlinear_arith)
        requires
            gap == 0,
    ;
    let unfair = replicas * gap / ORDER_FAIRNESS_GAMMA_DEN;
    unfair + faults + 1
}

/// The transactions that have at least the stake `threshold` behind them.
pub open spec fn supported(
    members: Seq<(PublicKey, Stake)>,
    graphs: Seq<BatchView>,
    threshold: nat,
) -> Set<u64> {
    Set::new(
        |id: u64| tally(graph_stakes(members, graphs), id_votes(graphs), id) >= threshold,
    )
}

/// The order of two nodes at positions `j` and `i` can be fixed: the claim that the node at `j`
/// comes first has enough stake and more than the opposite claim, and no path says so already.
pub open spec fn is_promotable(
    order: Seq<u64>,
    keys: Map<u64, u8>,
    weight: spec_fn((u64, u64)) -> nat,
    threshold: nat,
    edges: Set<(u64, u64)>,
    j: int,
    i: int,
) -> bool {
    &&& same_key(keys, order[j], order[i])
    &&& weight((order[j], order[i])) >= threshold
    &&& weight((order[j], order[i])) > weight((order[i], order[j]))
    &&& !reaches(edges, order[j], order[i])
}

/// Position `j` is the last before `i` whose order with `i` can be fixed.
pub open spec fn is_promotion(
    order: Seq<u64>,
    keys: Map<u64, u8>,
    weight: spec_fn((u64, u64)) -> nat,
    threshold: nat,
    edges: Set<(u64, u64)>,
    j: int,
    i: int,
) -> bool {
    &&& 0 <= j < i
    &&& is_promotable(order, keys, weight, threshold, edges, j, i)
    &&& forall|l: int|
        j < l < i ==> !#[trigger] is_promotable(order, keys, weight, threshold, edges, l, i)
}

/// The edges that are promoted for the first `n` nodes of `order`. Each node gets at
/// most one, and every promotion takes the earlier ones into account.
pub open spec fn promoted(
    order: Seq<u64>,
    keys: Map<u64, u8>,
    weight: spec_fn((u64, u64)) -> nat,
    threshold: nat,
    edges: Set<(u64, u64)>,
    n: int,
) -> Set<(u64, u64)>
    decreases n,
{
    if n <= 0 {
        Set::empty()
    } else {
        let before = promoted(order, keys, weight, threshold, edges, n - 1);
        before.union(
            Set::new(
                |e: (u64, u64)|
                    exists|j: int| #[trigger]
                        is_promotion(
                            order,
                            keys,
                            weight,
                            threshold,
                            edges.union(before),
                            j,
                            n - 1,
                        ) && e == (order[j], order[n - 1]),
            ),
        )
    }
}

/// The nodes at `i` and `j` write the same state, and none between them does.
pub open spec fn are_neighbors(order: Seq<u64>, keys: Map<u64, u8>, i: int, j: int) -> bool {
    &&& 0 <= i < j < order.len()
    &&& same_key(keys, order[i], order[j])
    &&& forall|l: int| i < l < j ==> !same_key(keys, #[trigger] order[l], order[j])
}

/// The pair of the nodes at `i` and `j` is left open: they are neighbors, were not on
/// a common cycle of `base`, and no path of `edges` connects them.
pub open spec fn is_open_pair(
    order: Seq<u64>,
    keys: Map<u64, u8>,
    nodes: Set<u64>,
    base: Set<(u64, u64)>,
    edges: Set<(u64, u64)>,
    i: int,
    j: int,
) -> bool {
    &&& are_neighbors(order, keys, i, j)
    &&& !same_component(nodes, base, order[i], order[j])
    &&& !reaches(edges, order[i], order[j])
    &&& !reaches(edges, order[j], order[i])
}

/// The pairs that are left open.
pub open spec fn open_pairs(
    order: Seq<u64>,
    keys: Map<u64, u8>,
    nodes: Set<u64>,
    base: Set<(u64, u64)>,
    edges: Set<(u64, u64)>,
) -> Set<(u64, u64)> {
    Set::new(
        |e: (u64, u64)|
            exists|i: int, j: int| #[trigger]
                is_open_pair(order, keys, nodes, base, edges, i, j) && e == (order[i], order[j]),
    )
}

/// Promotes at most one edge to each node of the same state key.
pub(crate) fn collect_frontier_promoted_in_batch_edges(
    order: &Vec<u64>,
    nodes: &BTreeSet<u64>,
    edges: &BTreeSet<(u64, u64)>,
    state_key: &BTreeMap<u64, u8>,
    support: &BTreeMap<(u64, u64), u64>,
    threshold: u64,
    Ghost(weight): Ghost<spec_fn((u64, u64)) -> nat>,
) -> (chosen: BTreeSet<(u64, u64)>)
    requires
        within(nodes@, edges@),
        forall|p: (u64, u64)| #[trigger] count_of(support@, p) == weight(p),
    ensures
        chosen@ == promoted(
            order@,
            state_key@,
            weight,
            threshold as nat,
            edges@,
            order@.len() as int,
        ),
{
    let mut adjacency = build_adjacency(nodes, edges);
    let mut chosen: BTreeSet<(u64, u64)> = BTreeSet::new();
    assert(induced(nodes@, edges@) =~= edges@);
    assert(edges@.union(chosen@) =~= edges@);
    for i in 0..order.len()
        invariant
            forall|p: (u64, u64)| #[trigger] count_of(support@, p) == weight(p),
            chosen@ == promoted(
                order@,
                state_key@,
                weight,
                threshold as nat,
                edges@,
                i as int,
            ),
            adjacency_edges(adjacency@) == edges@.union(chosen@),
    {
        let current = order[i];
        let ghost before = chosen@;
        let ghost known = edges@.union(before);
        let ghost mut picked: int = -1;
        let mut j: usize = i;
        while j > 0
            invariant_except_break
                chosen@ == before,
                picked == -1,
                adjacency_edges(adjacency@) == known,
            invariant
                j <= i < order@.len(),
                current == order@[i as int],
                known == edges@.union(before),
                forall|p: (u64, u64)| #[trigger] count_of(support@, p) == weight(p),
                forall|l: int|
                    j <= l < i ==> l == picked || !#[trigger] is_promotable(
                        order@,
                        state_key@,
                        weight,
                        threshold as nat,
                        known,
                        l,
                        i as int,
                    ),
            ensures
                picked >= -1,
                picked == -1 ==> j == 0 && chosen@ == before && adjacency_edges(adjacency@)
                    == known,
                picked >= 0 ==> picked == j && is_promotion(
                    order@,
                    state_key@,
                    weight,
                    threshold as nat,
                    known,
                    picked,
                    i as int,
                ) && chosen@ == before.insert((order@[picked], current)) && adjacency_edges(
                    adjacency@,
                ) == known.insert((order@[picked], current)),
            decreases j,
        {
            j -= 1;
            let candidate = order[j];
            let forward = pair_count(support, (candidate, current));
            let reverse = pair_count(support, (current, candidate));
            if writes_same_key(state_key, candidate, current) && forward >= threshold && forward
                > reverse && !has_path_in_adjacency(candidate, current, &adjacency) {
                chosen.insert((candidate, current));
                add_neighbor(&mut adjacency, candidate, current);
                proof {
                    picked = j as int;
                }
                break ;
            }
        }
        proof {
            let after = promoted(
                order@,
                state_key@,
                weight,
                threshold as nat,
                edges@,
                i + 1,
            );
            assert forall|e: (u64, u64)| chosen@.contains(e) <==> after.contains(e) by {
                if picked >= 0 {
                    assert(is_promotion(
                        order@,
                        state_key@,
                        weight,
                        threshold as nat,
                        edges@.union(before),
                        picked,
                        (i + 1) - 1,
                    ));
                }
                if after.contains(e) && !before.contains(e) {
                    let l = choose|l: int| #[trigger]
                        is_promotion(
                            order@,
                            state_key@,
                            weight,
                            threshold as nat,
                            known,
                            l,
                            i as int,
                        ) && e == (order@[l], current);
                    assert(is_promotable(
                        order@,
                        state_key@,
                        weight,
                        threshold as nat,
                        known,
                        l,
                        i as int,
                    ));
                    if picked >= 0 && l < picked {
                        assert(is_promotable(
                            order@,
                            state_key@,
                            weight,
                            threshold as nat,
                            known,
                            picked,
                            i as int,
                        ));
                    }
                    assert(l == picked);
                }
            }
            assert(chosen@ =~= after);
            assert(adjacency_edges(adjacency@) =~= edges@.union(chosen@));
        }
    }
    chosen
}

/// Collects the pairs of neighbors whose order is left open.
pub(crate) fn collect_missing_edges(
    order: &Vec<u64>,
    nodes: &BTreeSet<u64>,
    edges: &BTreeSet<(u64, u64)>,
    sccs: &Vec<Vec<u64>>,
    state_key: &BTreeMap<u64, u8>,
    Ghost(base): Ghost<Set<(u64, u64)>>,
) -> (missing: BTreeSet<(u64, u64)>)
    requires
        within(nodes@, edges@),
        lists_components(sccs@, nodes@, induced(nodes@, base)),
        order@.to_set() == nodes@,
        order@.no_duplicates(),
    ensures
        missing@ == open_pairs(order@, state_key@, nodes@, base, edges@),
{
    let adjacency = build_adjacency(nodes, edges);
    let index = component_index(sccs);
    let mut frontier: BTreeMap<u8, u64> = BTreeMap::new();
    let ghost mut place: Map<u8, int> = Map::empty();
    let mut missing: BTreeSet<(u64, u64)> = BTreeSet::new();
    assert(induced(nodes@, edges@) =~= edges@);
    for j in 0..order.len()
        invariant
            adjacency_edges(adjacency@) == edges@,
            lists_components(sccs@, nodes@, induced(nodes@, base)),
            order@.to_set() == nodes@,
            order@.no_duplicates(),
            forall|x: u64| #[trigger]
                index@.contains_key(x) <==> exists|c: int| in_scc(sccs@, c, x),
            forall|x: u64|
                index@.contains_key(x) ==> in_scc(sccs@, #[trigger] index@[x] as int, x),
            frontier@.dom() == place.dom(),
            forall|key: u8|
                frontier@.contains_key(key) ==> 0 <= #[trigger] place[key] < j
                    && order@[place[key]] == frontier@[key] && state_key@.contains_key(
                    order@[place[key]],
                ) && state_key@[order@[place[key]]] == key,
            forall|l: int|
                0 <= l < j && state_key@.contains_key(#[trigger] order@[l])
                    ==> frontier@.contains_key(state_key@[order@[l]]) && l
                    <= place[state_key@[order@[l]]],
            forall|e: (u64, u64)| #[trigger]
                missing@.contains(e) <==> exists|i: int, k: int|
                    k < j && #[trigger] is_open_pair(
                        order@,
                        state_key@,
                        nodes@,
                        base,
                        edges@,
                        i,
                        k,
                    ) && e == (order@[i], order@[k]),
    {
        let current = order[j];
        let ghost before = missing@;
        let ghost at = order@;
        let ghost mut previous_place: int = -1;
        proof {
            assert(order@.to_set().contains(current));
            assert(nodes@.contains(current));
        }
        if let Some(key) = state_key.get(&current) {
            if let Some(found) = frontier.get(key) {
                let previous = *found;
                proof {
                    previous_place = place[*key];
                    assert(order@[previous_place] == previous);
                    assert(order@.to_set().contains(previous));
                    assert(are_neighbors(order@, state_key@, previous_place, j as int)) by {
                        assert forall|l: int| previous_place < l < j implies !same_key(
                            state_key@,
                            #[trigger] order@[l],
                            order@[j as int],
                        ) by {}
                    }
                }
                let same = match (index.get(&previous), index.get(&current)) {
                    (Some(left), Some(right)) => *left == *right,
                    _ => false,
                };
                proof {
                    assert(index@.contains_key(previous) && index@.contains_key(current));
                    lemma_listed_together(
                        sccs@,
                        nodes@,
                        base,
                        index@[previous] as int,
                        previous,
                        current,
                    );
                    assert(same <==> same_component(nodes@, base, previous, current));
                }
                if !same && !has_path_in_adjacency(previous, current, &adjacency)
                    && !has_path_in_adjacency(current, previous, &adjacency) {
                    missing.insert((previous, current));
                    assert(is_open_pair(
                        order@,
                        state_key@,
                        nodes@,
                        base,
                        edges@,
                        previous_place,
                        j as int,
                    ));
                }
            }
            frontier.insert(*key, current);
            proof {
                place = place.insert(*key, j as int);
            }
        }
        assert(frontier@.dom() =~= place.dom());
        assert forall|e: (u64, u64)| #[trigger] missing@.contains(e) <==> exists|i: int, k: int|
            k < j + 1 && #[trigger] is_open_pair(order@, state_key@, nodes@, base, edges@, i, k)
                && e == (order@[i], order@[k]) by {
            assert(before.contains(e) <==> exists|i: int, k: int|
                k < j && #[trigger] is_open_pair(order@, state_key@, nodes@, base, edges@, i, k)
                    && e == (order@[i], order@[k]));
            if exists|i: int, k: int|
                k < j + 1 && #[trigger] is_open_pair(order@, state_key@, nodes@, base, edges@, i, k)
                    && e == (order@[i], order@[k]) {
                let (i, k) = choose|i: int, k: int|
                    k < j + 1 && #[trigger] is_open_pair(
                        order@,
                        state_key@,
                        nodes@,
                        base,
                        edges@,
                        i,
                        k,
                    ) && e == (order@[i], order@[k]);
                if k == j {
                    assert(same_key(state_key@, order@[i], order@[j as int]));
                    assert(i <= previous_place) by {
                        assert(state_key@.contains_key(order@[i]));
                    }
                    if i < previous_place {
                        assert(!same_key(state_key@, order@[previous_place], order@[j as int]));
                    }
                    assert(i == previous_place);
                }
            }
        }
    }
    proof {
        assert forall|e: (u64, u64)| missing@.contains(e) <==> open_pairs(
            order@,
            state_key@,
            nodes@,
            base,
            edges@,
        ).contains(e) by {
            if open_pairs(order@, state_key@, nodes@, base, edges@).contains(e) {
                let (i, k) = choose|i: int, k: int| #[trigger]
                    is_open_pair(order@, state_key@, nodes@, base, edges@, i, k) && e == (
                        order@[i],
                        order@[k],
                    );
                assert(k < order@.len() && is_open_pair(
                    order@,
                    state_key@,
                    nodes@,
                    base,
                    edges@,
                    i,
                    k,
                ));
            }
        }
        assert(missing@ =~= open_pairs(order@, state_key@, nodes@, base, edges@));
    }
    missing
}

} // verus!
