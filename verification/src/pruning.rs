//! Breaking cycles by pruning nodes: of each entangled component the class of
//! transactions that is in the minority goes, and what led to a pruned node is
//! led on to the remaining nodes of the same state key.

use std::collections::{BTreeMap, BTreeSet};
use vstd::prelude::*;
use crate::components::{
    entangled, lemma_component_size, lemma_listed_together, restrict_edges, same_component,
};
use crate::graph::{
    induced, lemma_reaches_edge, lemma_reaches_lift, lemma_reaches_mono, lemma_reaches_self,
    lemma_reaches_trans, reaches,
};
use crate::ordered::{ascending, lemma_ids_finite, list_ids, list_pairs, set_of_ids};
use crate::scc::{in_scc, lists_components, tarjan_scc};

verus! {

/// The members of the component of `x`.
pub open spec fn component(nodes: Set<u64>, edges: Set<(u64, u64)>, x: u64) -> Set<u64> {
    Set::new(|y: u64| same_component(nodes, edges, x, y))
}

/// `x` is the greatest member of `c`.
pub open spec fn is_greatest(c: Set<u64>, x: u64) -> bool {
    c.contains(x) && forall|y: u64| c.contains(y) ==> y <= x
}

/// The fixed members of `c` where its pending members are at least as many, else
/// its pending members.
pub open spec fn weaker_class(c: Set<u64>, fixed: Set<u64>, pending: Set<u64>) -> Set<u64> {
    if c.intersect(pending).len() >= c.intersect(fixed).len() {
        c.intersect(fixed)
    } else {
        c.intersect(pending)
    }
}

/// The class of members of `c` that is not the weaker one.
pub open spec fn stronger_class(c: Set<u64>, fixed: Set<u64>, pending: Set<u64>) -> Set<u64> {
    if c.intersect(pending).len() >= c.intersect(fixed).len() {
        c.intersect(pending)
    } else {
        c.intersect(fixed)
    }
}

/// The members of `c` that are pruned: the weaker class, or the greatest member
/// where that class is empty.
pub open spec fn victims(c: Set<u64>, fixed: Set<u64>, pending: Set<u64>) -> Set<u64> {
    if weaker_class(c, fixed, pending) == Set::<u64>::empty() {
        Set::new(|x: u64| is_greatest(c, x))
    } else {
        weaker_class(c, fixed, pending)
    }
}

/// The members of `c` that take over what led to its victims.
pub open spec fn heirs(c: Set<u64>, fixed: Set<u64>, pending: Set<u64>) -> Set<u64> {
    if weaker_class(c, fixed, pending) == Set::<u64>::empty() {
        Set::new(|x: u64| c.contains(x) && !is_greatest(c, x))
    } else {
        stronger_class(c, fixed, pending)
    }
}

/// `x` is pruned in the next round.
pub open spec fn doomed(
    nodes: Set<u64>,
    edges: Set<(u64, u64)>,
    fixed: Set<u64>,
    pending: Set<u64>,
    x: u64,
) -> bool {
    entangled(nodes, edges, x) && victims(component(nodes, edges, x), fixed, pending).contains(x)
}

/// `to` takes over the edge from `from` to the pruned node `via`.
pub open spec fn inherits(
    nodes: Set<u64>,
    edges: Set<(u64, u64)>,
    fixed: Set<u64>,
    pending: Set<u64>,
    keys: Map<u64, u8>,
    from: u64,
    via: u64,
    to: u64,
) -> bool {
    &&& doomed(nodes, edges, fixed, pending, via)
    &&& edges.contains((from, via))
    &&& heirs(component(nodes, edges, via), fixed, pending).contains(to)
    &&& keys.contains_key(via)
    &&& keys.contains_key(to)
    &&& keys[to] == keys[via]
}

/// The nodes after one round.
pub open spec fn round_nodes(
    nodes: Set<u64>,
    edges: Set<(u64, u64)>,
    fixed: Set<u64>,
    pending: Set<u64>,
) -> Set<u64> {
    Set::new(|x: u64| nodes.contains(x) && !doomed(nodes, edges, fixed, pending, x))
}

/// The edges after one round.
pub open spec fn round_edges(
    nodes: Set<u64>,
    edges: Set<(u64, u64)>,
    fixed: Set<u64>,
    pending: Set<u64>,
    keys: Map<u64, u8>,
) -> Set<(u64, u64)> {
    let left = round_nodes(nodes, edges, fixed, pending);
    Set::new(
        |e: (u64, u64)|
            left.contains(e.0) && left.contains(e.1) && e.0 != e.1 && (edges.contains(e) || exists|
                via: u64,
            |
                #[trigger] inherits(nodes, edges, fixed, pending, keys, e.0, via, e.1)),
    )
}

/// The nodes and edges after as many rounds as there are entangled components to prune.
pub open spec fn pruned(
    nodes: Set<u64>,
    edges: Set<(u64, u64)>,
    fixed: Set<u64>,
    pending: Set<u64>,
    keys: Map<u64, u8>,
) -> (Set<u64>, Set<(u64, u64)>)
    decreases nodes.len(),
    when nodes.finite()
{
    if exists|x: u64| #[trigger] entangled(nodes, edges, x) {
        proof {
            let x = choose|x: u64| #[trigger] entangled(nodes, edges, x);
            lemma_round_prunes(nodes, edges, fixed, pending, x);
        }
        pruned(
            round_nodes(nodes, edges, fixed, pending),
            round_edges(nodes, edges, fixed, pending, keys),
            fixed,
            pending,
            keys,
        )
    } else {
        (nodes, edges)
    }
}

/// Two nodes of one component have the same component.
proof fn lemma_component_shared(nodes: Set<u64>, edges: Set<(u64, u64)>, x: u64, y: u64)
    requires
        same_component(nodes, edges, x, y),
    ensures
        component(nodes, edges, x) == component(nodes, edges, y),
        entangled(nodes, edges, x) ==> entangled(nodes, edges, y),
{
    let inner = induced(nodes, edges);
    assert forall|z: u64| same_component(nodes, edges, x, z) <==> same_component(
        nodes,
        edges,
        y,
        z,
    ) by {
        if same_component(nodes, edges, x, z) {
            lemma_reaches_trans(inner, y, x, z);
            lemma_reaches_trans(inner, z, x, y);
        }
        if same_component(nodes, edges, y, z) {
            lemma_reaches_trans(inner, x, y, z);
            lemma_reaches_trans(inner, z, y, x);
        }
    }
    assert(component(nodes, edges, x) =~= component(nodes, edges, y));
    if entangled(nodes, edges, x) {
        let c = choose|c: u64| c != x && #[trigger] same_component(nodes, edges, x, c);
        assert(same_component(nodes, edges, y, c));
        assert(same_component(nodes, edges, y, x));
        if c == y {
            assert(x != y);
        }
    }
}

/// A finite set that is not empty has a greatest member.
proof fn lemma_greatest(c: Set<u64>, x: u64) -> (greatest: u64)
    requires
        c.finite(),
        c.contains(x),
    ensures
        is_greatest(c, greatest),
    decreases u64::MAX - x,
{
    if exists|y: u64| c.contains(y) && y > x {
        let y = choose|y: u64| c.contains(y) && y > x;
        lemma_greatest(c, y)
    } else {
        x
    }
}

/// Where a node is entangled, a round prunes a node.
pub proof fn lemma_round_prunes(
    nodes: Set<u64>,
    edges: Set<(u64, u64)>,
    fixed: Set<u64>,
    pending: Set<u64>,
    x: u64,
)
    requires
        nodes.finite(),
        entangled(nodes, edges, x),
    ensures
        round_nodes(nodes, edges, fixed, pending).finite(),
        round_nodes(nodes, edges, fixed, pending).len() < nodes.len(),
{
    let c = component(nodes, edges, x);
    let left = round_nodes(nodes, edges, fixed, pending);
    assert(nodes.contains(x));
    lemma_reaches_self(induced(nodes, edges), x);
    assert(c.contains(x));
    assert(c.subset_of(nodes));
    vstd::set_lib::lemma_set_subset_finite(nodes, c);
    vstd::set_lib::lemma_set_subset_finite(nodes, left);
    let v = if weaker_class(c, fixed, pending) == Set::<u64>::empty() {
        lemma_greatest(c, x)
    } else {
        let weaker = weaker_class(c, fixed, pending);
        assert(exists|v: u64| weaker.contains(v)) by {
            if forall|v: u64| !weaker.contains(v) {
                assert(weaker =~= Set::empty());
            }
        }
        choose|v: u64| weaker.contains(v)
    };
    assert(victims(c, fixed, pending).contains(v));
    assert(same_component(nodes, edges, x, v));
    lemma_component_shared(nodes, edges, x, v);
    assert(doomed(nodes, edges, fixed, pending, v));
    assert(left.subset_of(nodes.remove(v)));
    vstd::set_lib::lemma_len_subset(left, nodes.remove(v));
}

/// After pruning, no component has two nodes.
pub proof fn lemma_pruned_untangled(
    nodes: Set<u64>,
    edges: Set<(u64, u64)>,
    fixed: Set<u64>,
    pending: Set<u64>,
    keys: Map<u64, u8>,
)
    requires
        nodes.finite(),
    ensures
        ({
            let (left, links) = pruned(nodes, edges, fixed, pending, keys);
            &&& left.subset_of(nodes)
            &&& forall|x: u64| !#[trigger] entangled(left, links, x)
        }),
    decreases nodes.len(),
{
    if exists|x: u64| #[trigger] entangled(nodes, edges, x) {
        let x = choose|x: u64| #[trigger] entangled(nodes, edges, x);
        lemma_round_prunes(nodes, edges, fixed, pending, x);
        lemma_pruned_untangled(
            round_nodes(nodes, edges, fixed, pending),
            round_edges(nodes, edges, fixed, pending, keys),
            fixed,
            pending,
            keys,
        );
    }
}

/// A round leaves a node of the component of `x`.
proof fn lemma_round_leaves(
    nodes: Set<u64>,
    edges: Set<(u64, u64)>,
    fixed: Set<u64>,
    pending: Set<u64>,
    x: u64,
) -> (y: u64)
    requires
        nodes.finite(),
        nodes.contains(x),
        fixed.disjoint(pending),
    ensures
        round_nodes(nodes, edges, fixed, pending).contains(y),
        same_component(nodes, edges, x, y),
{
    lemma_reaches_self(induced(nodes, edges), x);
    if !doomed(nodes, edges, fixed, pending, x) {
        x
    } else {
        let c = component(nodes, edges, x);
        assert(c.contains(x));
        assert(c.subset_of(nodes));
        vstd::set_lib::lemma_set_subset_finite(nodes, c);
        let weaker = weaker_class(c, fixed, pending);
        let y = if weaker == Set::<u64>::empty() {
            let other = choose|b: u64| b != x && #[trigger] same_component(nodes, edges, x, b);
            assert(c.contains(other));
            other
        } else {
            let stronger = stronger_class(c, fixed, pending);
            assert(weaker.len() > 0) by {
                if weaker.len() == 0 {
                    assert(weaker =~= Set::empty());
                }
            }
            assert(exists|y: u64| stronger.contains(y)) by {
                if forall|y: u64| !stronger.contains(y) {
                    assert(stronger =~= Set::empty());
                }
            }
            choose|y: u64| stronger.contains(y)
        };
        assert(c.contains(y));
        assert(same_component(nodes, edges, x, y));
        lemma_component_shared(nodes, edges, x, y);
        assert(!victims(c, fixed, pending).contains(y));
        y
    }
}

/// A round connects nothing that was not connected.
proof fn lemma_round_connects(
    nodes: Set<u64>,
    edges: Set<(u64, u64)>,
    fixed: Set<u64>,
    pending: Set<u64>,
    keys: Map<u64, u8>,
    x: u64,
    y: u64,
)
    requires
        same_component(
            round_nodes(nodes, edges, fixed, pending),
            round_edges(nodes, edges, fixed, pending, keys),
            x,
            y,
        ),
    ensures
        same_component(nodes, edges, x, y),
{
    let left = round_nodes(nodes, edges, fixed, pending);
    let inner = induced(nodes, edges);
    let links = induced(left, round_edges(nodes, edges, fixed, pending, keys));
    assert forall|a: u64, b: u64| #[trigger] links.contains((a, b)) implies reaches(inner, a, b) by {
        if edges.contains((a, b)) {
            lemma_reaches_edge(inner, a, b);
        } else {
            let via = choose|via: u64| #[trigger]
                inherits(nodes, edges, fixed, pending, keys, a, via, b);
            assert(component(nodes, edges, via).contains(b));
            lemma_reaches_edge(inner, a, via);
            lemma_reaches_trans(inner, a, via, b);
        }
    }
    lemma_reaches_lift(links, inner, x, y);
    lemma_reaches_lift(links, inner, y, x);
}

/// Where no transaction is both fixed and pending, pruning leaves a node of every component.
pub proof fn lemma_every_component_survives(
    nodes: Set<u64>,
    edges: Set<(u64, u64)>,
    fixed: Set<u64>,
    pending: Set<u64>,
    keys: Map<u64, u8>,
    x: u64,
)
    requires
        nodes.finite(),
        fixed.disjoint(pending),
        nodes.contains(x),
    ensures
        exists|y: u64|
            pruned(nodes, edges, fixed, pending, keys).0.contains(y) && #[trigger] same_component(
                nodes,
                edges,
                x,
                y,
            ),
    decreases nodes.len(),
{
    if exists|z: u64| #[trigger] entangled(nodes, edges, z) {
        let z = choose|z: u64| #[trigger] entangled(nodes, edges, z);
        lemma_round_prunes(nodes, edges, fixed, pending, z);
        let left = round_nodes(nodes, edges, fixed, pending);
        let links = round_edges(nodes, edges, fixed, pending, keys);
        let survivor = lemma_round_leaves(nodes, edges, fixed, pending, x);
        lemma_every_component_survives(left, links, fixed, pending, keys, survivor);
        let y = choose|y: u64|
            pruned(left, links, fixed, pending, keys).0.contains(y) && #[trigger] same_component(
                left,
                links,
                survivor,
                y,
            );
        lemma_round_connects(nodes, edges, fixed, pending, keys, survivor, y);
        lemma_component_shared(nodes, edges, x, survivor);
        assert(component(nodes, edges, survivor).contains(y));
        assert(same_component(nodes, edges, x, y));
    } else {
        lemma_reaches_self(induced(nodes, edges), x);
        assert(same_component(nodes, edges, x, x));
    }
}

/// A node that shares its component with no other survives.
pub proof fn lemma_untangled_nodes_survive(
    nodes: Set<u64>,
    edges: Set<(u64, u64)>,
    fixed: Set<u64>,
    pending: Set<u64>,
    keys: Map<u64, u8>,
    x: u64,
)
    requires
        nodes.finite(),
        nodes.contains(x),
        forall|y: u64| y != x ==> !#[trigger] same_component(nodes, edges, x, y),
    ensures
        pruned(nodes, edges, fixed, pending, keys).0.contains(x),
    decreases nodes.len(),
{
    if exists|z: u64| #[trigger] entangled(nodes, edges, z) {
        let z = choose|z: u64| #[trigger] entangled(nodes, edges, z);
        lemma_round_prunes(nodes, edges, fixed, pending, z);
        let left = round_nodes(nodes, edges, fixed, pending);
        let links = round_edges(nodes, edges, fixed, pending, keys);
        assert(left.contains(x));
        assert forall|y: u64| y != x implies !#[trigger] same_component(left, links, x, y) by {
            if same_component(left, links, x, y) {
                lemma_round_connects(nodes, edges, fixed, pending, keys, x, y);
            }
        }
        lemma_untangled_nodes_survive(left, links, fixed, pending, keys, x);
    }
}

/// Where a component has more nodes than one, and as many pending ones as fixed ones or more, its
/// fixed ones go; where it has fewer, its pending ones go. Where there are none of one kind, its
/// greatest node goes.
pub proof fn lemma_minority_goes(
    nodes: Set<u64>,
    edges: Set<(u64, u64)>,
    fixed: Set<u64>,
    pending: Set<u64>,
    keys: Map<u64, u8>,
    x: u64,
    y: u64,
)
    requires
        nodes.finite(),
        x != y,
        same_component(nodes, edges, x, y),
    ensures
        ({
            let c = component(nodes, edges, x);
            let left = pruned(nodes, edges, fixed, pending, keys).0;
            &&& c.filter(|z: u64| pending.contains(z)).len() >= c.filter(
                |z: u64| fixed.contains(z),
            ).len() && fixed.contains(x) ==> !left.contains(x)
            &&& c.filter(|z: u64| pending.contains(z)).len() < c.filter(
                |z: u64| fixed.contains(z),
            ).len() && pending.contains(x) ==> !left.contains(x)
            &&& ((forall|z: u64| c.contains(z) ==> !fixed.contains(z)) || (forall|z: u64|
                c.contains(z) ==> !pending.contains(z))) && (forall|z: u64|
                c.contains(z) ==> z <= x) ==> !left.contains(x)
        }),
{
    let c = component(nodes, edges, x);
    let left = round_nodes(nodes, edges, fixed, pending);
    assert(entangled(nodes, edges, x));
    lemma_round_prunes(nodes, edges, fixed, pending, x);
    lemma_pruned_untangled(
        left,
        round_edges(nodes, edges, fixed, pending, keys),
        fixed,
        pending,
        keys,
    );
    lemma_reaches_self(induced(nodes, edges), x);
    assert(c.contains(x));
    assert(c.filter(|z: u64| pending.contains(z)) =~= c.intersect(pending));
    assert(c.filter(|z: u64| fixed.contains(z)) =~= c.intersect(fixed));
    let weaker = weaker_class(c, fixed, pending);
    if weaker == Set::<u64>::empty() {
        assert(!weaker.contains(x));
    }
    if ((forall|z: u64| c.contains(z) ==> !fixed.contains(z)) || (forall|z: u64|
        c.contains(z) ==> !pending.contains(z))) && (forall|z: u64| c.contains(z) ==> z <= x) {
        lemma_companions(nodes, edges, fixed, x);
        lemma_companions(nodes, edges, pending, x);
        assert(c.intersect(fixed) =~= Set::empty() || c.intersect(pending) =~= Set::empty());
        assert(weaker =~= Set::empty());
        assert(is_greatest(c, x));
    }
}

/// Edges between different nodes that survive stay.
pub proof fn lemma_edges_between_survivors_stay(
    nodes: Set<u64>,
    edges: Set<(u64, u64)>,
    fixed: Set<u64>,
    pending: Set<u64>,
    keys: Map<u64, u8>,
    e: (u64, u64),
)
    requires
        nodes.finite(),
        edges.contains(e),
        e.0 != e.1,
        pruned(nodes, edges, fixed, pending, keys).0.contains(e.0),
        pruned(nodes, edges, fixed, pending, keys).0.contains(e.1),
    ensures
        pruned(nodes, edges, fixed, pending, keys).1.contains(e),
    decreases nodes.len(),
{
    if exists|z: u64| #[trigger] entangled(nodes, edges, z) {
        let z = choose|z: u64| #[trigger] entangled(nodes, edges, z);
        lemma_round_prunes(nodes, edges, fixed, pending, z);
        let left = round_nodes(nodes, edges, fixed, pending);
        let links = round_edges(nodes, edges, fixed, pending, keys);
        lemma_pruned_untangled(left, links, fixed, pending, keys);
        assert(links.contains(e));
        lemma_edges_between_survivors_stay(left, links, fixed, pending, keys, e);
    }
}

/// Every edge that is left stands for a path: pruning connects nothing that was not connected.
pub proof fn lemma_edges_left_stand_for_paths(
    nodes: Set<u64>,
    edges: Set<(u64, u64)>,
    fixed: Set<u64>,
    pending: Set<u64>,
    keys: Map<u64, u8>,
    a: u64,
    b: u64,
)
    requires
        nodes.finite(),
        reaches(pruned(nodes, edges, fixed, pending, keys).1, a, b),
    ensures
        reaches(edges, a, b),
    decreases nodes.len(),
{
    if exists|z: u64| #[trigger] entangled(nodes, edges, z) {
        let z = choose|z: u64| #[trigger] entangled(nodes, edges, z);
        lemma_round_prunes(nodes, edges, fixed, pending, z);
        let left = round_nodes(nodes, edges, fixed, pending);
        let links = round_edges(nodes, edges, fixed, pending, keys);
        lemma_edges_left_stand_for_paths(left, links, fixed, pending, keys, a, b);
        assert forall|x: u64, y: u64| #[trigger] links.contains((x, y)) implies reaches(edges, x, y) by {
            if edges.contains((x, y)) {
                lemma_reaches_edge(edges, x, y);
            } else {
                let via = choose|via: u64| #[trigger]
                    inherits(nodes, edges, fixed, pending, keys, x, via, y);
                assert(component(nodes, edges, via).contains(y));
                lemma_reaches_edge(edges, x, via);
                lemma_reaches_mono(induced(nodes, edges), edges, via, y);
                lemma_reaches_trans(edges, x, via, y);
            }
        }
        lemma_reaches_lift(links, edges, a, b);
    }
}

/// What led to a fixed node that goes leads to the pending ones of its component that write the same
/// state, and survive; and the same the other way round.
pub proof fn lemma_edges_are_handed_on(
    nodes: Set<u64>,
    edges: Set<(u64, u64)>,
    fixed: Set<u64>,
    pending: Set<u64>,
    keys: Map<u64, u8>,
    from: u64,
    gone: u64,
    to: u64,
)
    requires
        nodes.finite(),
        fixed.disjoint(pending),
        gone != to,
        same_component(nodes, edges, gone, to),
        edges.contains((from, gone)),
        from != to,
        keys.contains_key(gone) && keys.contains_key(to) && keys[gone] == keys[to],
        pruned(nodes, edges, fixed, pending, keys).0.contains(from),
        pruned(nodes, edges, fixed, pending, keys).0.contains(to),
        ({
            let c = component(nodes, edges, gone);
            let pending_in = c.filter(|z: u64| pending.contains(z)).len();
            let fixed_in = c.filter(|z: u64| fixed.contains(z)).len();
            ||| pending_in >= fixed_in && fixed.contains(gone) && pending.contains(to)
            ||| pending_in < fixed_in && pending.contains(gone) && fixed.contains(to)
        }),
    ensures
        pruned(nodes, edges, fixed, pending, keys).1.contains((from, to)),
{
    let c = component(nodes, edges, gone);
    let left = round_nodes(nodes, edges, fixed, pending);
    let links = round_edges(nodes, edges, fixed, pending, keys);
    assert(entangled(nodes, edges, gone));
    lemma_round_prunes(nodes, edges, fixed, pending, gone);
    lemma_pruned_untangled(left, links, fixed, pending, keys);
    lemma_reaches_self(induced(nodes, edges), gone);
    assert(c.contains(gone) && c.contains(to));
    assert(c.filter(|z: u64| pending.contains(z)) =~= c.intersect(pending));
    assert(c.filter(|z: u64| fixed.contains(z)) =~= c.intersect(fixed));
    assert(weaker_class(c, fixed, pending).contains(gone));
    assert(weaker_class(c, fixed, pending) != Set::<u64>::empty());
    assert(doomed(nodes, edges, fixed, pending, gone));
    assert(inherits(nodes, edges, fixed, pending, keys, from, gone, to));
    assert(links.contains((from, to)));
    lemma_edges_between_survivors_stay(left, links, fixed, pending, keys, (from, to));
}

/// How many members of `set` share their component with `x`.
pub open spec fn companions(nodes: Set<u64>, edges: Set<(u64, u64)>, set: Set<u64>, x: u64) -> nat {
    Set::new(|z: u64| same_component(nodes, edges, x, z) && set.contains(z)).len()
}

/// `x` goes: it is not alone in its component, and is of the kind that goes there. Where there are
/// fixed and pending nodes, the fewer go, or the fixed ones where they are as many; where there are
/// none of one kind, the greatest node goes.
pub open spec fn goes(
    nodes: Set<u64>,
    edges: Set<(u64, u64)>,
    fixed: Set<u64>,
    pending: Set<u64>,
    x: u64,
) -> bool {
    let f = companions(nodes, edges, fixed, x);
    let p = companions(nodes, edges, pending, x);
    &&& exists|y: u64| y != x && #[trigger] same_component(nodes, edges, x, y)
    &&& f == 0 || p == 0 ==> forall|z: u64| #[trigger] same_component(nodes, edges, x, z) ==> z <= x
    &&& 0 < f <= p ==> fixed.contains(x)
    &&& 0 < p < f ==> pending.contains(x)
}

/// `to` stands in for `gone`: it is of the same component, writes the same state, and is of the
/// other kind where there is one.
pub open spec fn stands_in(
    nodes: Set<u64>,
    edges: Set<(u64, u64)>,
    fixed: Set<u64>,
    pending: Set<u64>,
    keys: Map<u64, u8>,
    gone: u64,
    to: u64,
) -> bool {
    let f = companions(nodes, edges, fixed, gone);
    let p = companions(nodes, edges, pending, gone);
    &&& same_component(nodes, edges, gone, to)
    &&& keys.contains_key(gone) && keys.contains_key(to) && keys[gone] == keys[to]
    &&& 0 < f <= p ==> pending.contains(to)
    &&& 0 < p < f ==> fixed.contains(to)
}

/// `left` and `links` are what remains once these nodes have gone: all other nodes, and between
/// different ones of them the edges that there were and those that led to a node that has gone, led
/// on to the nodes that stand in for it.
pub open spec fn remains(
    nodes: Set<u64>,
    edges: Set<(u64, u64)>,
    fixed: Set<u64>,
    pending: Set<u64>,
    keys: Map<u64, u8>,
    left: Set<u64>,
    links: Set<(u64, u64)>,
) -> bool {
    &&& forall|x: u64| #[trigger]
        left.contains(x) <==> nodes.contains(x) && !goes(nodes, edges, fixed, pending, x)
    &&& forall|a: u64, b: u64| #[trigger]
        links.contains((a, b)) <==> left.contains(a) && left.contains(b) && a != b
            && (edges.contains((a, b)) || exists|gone: u64|
            goes(nodes, edges, fixed, pending, gone) && edges.contains((a, gone))
                && #[trigger] stands_in(nodes, edges, fixed, pending, keys, gone, b))
}

/// The classes of a component are what it has of the fixed and of the pending nodes.
proof fn lemma_companions(nodes: Set<u64>, edges: Set<(u64, u64)>, set: Set<u64>, x: u64)
    requires
        nodes.finite(),
    ensures
        companions(nodes, edges, set, x) == component(nodes, edges, x).intersect(set).len(),
        companions(nodes, edges, set, x) == 0 <==> component(nodes, edges, x).intersect(set)
            == Set::<u64>::empty(),
{
    let here = Set::new(|z: u64| same_component(nodes, edges, x, z) && set.contains(z));
    let c = component(nodes, edges, x).intersect(set);
    assert(here =~= c);
    assert(c.subset_of(nodes));
    vstd::set_lib::lemma_set_subset_finite(nodes, c);
    if c.len() == 0 {
        assert(c =~= Set::empty());
    }
}

proof fn lemma_goes(
    nodes: Set<u64>,
    edges: Set<(u64, u64)>,
    fixed: Set<u64>,
    pending: Set<u64>,
    x: u64,
)
    requires
        nodes.finite(),
    ensures
        goes(nodes, edges, fixed, pending, x) <==> doomed(nodes, edges, fixed, pending, x),
{
    let c = component(nodes, edges, x);
    lemma_companions(nodes, edges, fixed, x);
    lemma_companions(nodes, edges, pending, x);
    if entangled(nodes, edges, x) {
        lemma_reaches_self(induced(nodes, edges), x);
        assert(c.contains(x));
        let f = companions(nodes, edges, fixed, x);
        let p = companions(nodes, edges, pending, x);
        let weaker = weaker_class(c, fixed, pending);
        assert(weaker == Set::<u64>::empty() <==> f == 0 || p == 0);
        if goes(nodes, edges, fixed, pending, x) && weaker == Set::<u64>::empty() {
            assert forall|z: u64| c.contains(z) implies z <= x by {
                assert(same_component(nodes, edges, x, z));
            }
            assert(is_greatest(c, x));
        }
        if doomed(nodes, edges, fixed, pending, x) && weaker == Set::<u64>::empty() {
            assert forall|z: u64| #[trigger] same_component(nodes, edges, x, z) implies z <= x by {
                assert(c.contains(z));
            }
        }
    }
}

proof fn lemma_stands_in(
    nodes: Set<u64>,
    edges: Set<(u64, u64)>,
    fixed: Set<u64>,
    pending: Set<u64>,
    keys: Map<u64, u8>,
    gone: u64,
    to: u64,
)
    requires
        nodes.finite(),
        doomed(nodes, edges, fixed, pending, gone),
        !doomed(nodes, edges, fixed, pending, to),
    ensures
        stands_in(nodes, edges, fixed, pending, keys, gone, to) <==> heirs(
            component(nodes, edges, gone),
            fixed,
            pending,
        ).contains(to) && keys.contains_key(gone) && keys.contains_key(to) && keys[gone]
            == keys[to],
{
    let c = component(nodes, edges, gone);
    lemma_companions(nodes, edges, fixed, gone);
    lemma_companions(nodes, edges, pending, gone);
    if same_component(nodes, edges, gone, to) {
        lemma_component_shared(nodes, edges, gone, to);
        assert(c.contains(to));
        assert(to != gone);
        lemma_reaches_self(induced(nodes, edges), gone);
        assert(component(nodes, edges, to).contains(gone));
        assert(same_component(nodes, edges, to, gone));
        assert(entangled(nodes, edges, to));
        if weaker_class(c, fixed, pending) == Set::<u64>::empty() {
            assert(!is_greatest(c, to));
        }
    }
}

/// Pruning goes on with what remains as long as there are two nodes in one component, and then stops.
pub proof fn lemma_pruning_goes_on_with_what_remains(
    nodes: Set<u64>,
    edges: Set<(u64, u64)>,
    fixed: Set<u64>,
    pending: Set<u64>,
    keys: Map<u64, u8>,
    left: Set<u64>,
    links: Set<(u64, u64)>,
)
    requires
        nodes.finite(),
        remains(nodes, edges, fixed, pending, keys, left, links),
    ensures
        (exists|x: u64, y: u64| x != y && #[trigger] same_component(nodes, edges, x, y)) ==> pruned(
            nodes,
            edges,
            fixed,
            pending,
            keys,
        ) == pruned(left, links, fixed, pending, keys),
        (forall|x: u64, y: u64| x != y ==> !#[trigger] same_component(nodes, edges, x, y))
            ==> pruned(nodes, edges, fixed, pending, keys) == (nodes, edges),
{
    let round = round_nodes(nodes, edges, fixed, pending);
    let kept = round_edges(nodes, edges, fixed, pending, keys);
    assert forall|x: u64| left.contains(x) <==> round.contains(x) by {
        lemma_goes(nodes, edges, fixed, pending, x);
    }
    assert(left =~= round);
    assert forall|e: (u64, u64)| links.contains(e) <==> kept.contains(e) by {
        let (a, b) = e;
        assert(links.contains((a, b)) <==> links.contains(e));
        if round.contains(b) {
            assert forall|gone: u64|
                goes(nodes, edges, fixed, pending, gone) && edges.contains((a, gone))
                    && #[trigger] stands_in(
                    nodes,
                    edges,
                    fixed,
                    pending,
                    keys,
                    gone,
                    b,
                ) implies inherits(nodes, edges, fixed, pending, keys, a, gone, b) by {
                lemma_goes(nodes, edges, fixed, pending, gone);
                lemma_stands_in(nodes, edges, fixed, pending, keys, gone, b);
            }
            assert forall|gone: u64| #[trigger]
                inherits(nodes, edges, fixed, pending, keys, a, gone, b) implies goes(
                nodes,
                edges,
                fixed,
                pending,
                gone,
            ) && stands_in(nodes, edges, fixed, pending, keys, gone, b) by {
                lemma_goes(nodes, edges, fixed, pending, gone);
                lemma_stands_in(nodes, edges, fixed, pending, keys, gone, b);
            }
        }
    }
    assert(links =~= kept);
    if exists|x: u64, y: u64| x != y && #[trigger] same_component(nodes, edges, x, y) {
        let (x, y) = choose|x: u64, y: u64|
            x != y && #[trigger] same_component(nodes, edges, x, y);
        assert(entangled(nodes, edges, x));
        lemma_round_prunes(nodes, edges, fixed, pending, x);
        assert(pruned(nodes, edges, fixed, pending, keys) == pruned(
            round,
            kept,
            fixed,
            pending,
            keys,
        ));
    }
}

/// The members of `list` that are in `set`, in the same order.
fn members_in(list: &Vec<u64>, set: &BTreeSet<u64>) -> (members: Vec<u64>)
    requires
        ascending(list@),
    ensures
        ascending(members@),
        members@.to_set() == list@.to_set().intersect(set@),
        members@.len() == list@.to_set().intersect(set@).len(),
{
    let mut members: Vec<u64> = Vec::new();
    for i in 0..list.len()
        invariant
            ascending(list@),
            ascending(members@),
            forall|j: int| 0 <= j < members@.len() && i < list@.len() ==> #[trigger] members@[j] < list@[i as int],
            members@.to_set() == list@.take(i as int).to_set().intersect(set@),
    {
        let ghost seen = list@.take(i as int);
        let ghost before = members@;
        proof {
            assert(list@.take(i + 1) =~= seen.push(list@[i as int]));
            seen.lemma_push_to_set_commute(list@[i as int]);
            before.lemma_push_to_set_commute(list@[i as int]);
        }
        if set.contains(&list[i]) {
            members.push(list[i]);
        }
        assert(members@.to_set() =~= seen.to_set().insert(list@[i as int]).intersect(set@));
    }
    proof {
        assert(list@.take(list@.len() as int) =~= list@);
        assert(members@.no_duplicates());
        members@.unique_seq_to_set();
    }
    members
}

/// The victims and the heirs of a component.
fn choose_victims(scc: &Vec<u64>, fixed: &BTreeSet<u64>, pending: &BTreeSet<u64>) -> (chosen: (
    BTreeSet<u64>,
    BTreeSet<u64>,
))
    requires
        ascending(scc@),
        scc@.len() > 0,
    ensures
        chosen.0@ == victims(scc@.to_set(), fixed@, pending@),
        chosen.1@ == heirs(scc@.to_set(), fixed@, pending@),
{
    let ghost c = scc@.to_set();
    let fixed_in_scc = members_in(scc, fixed);
    let pending_in_scc = members_in(scc, pending);
    let prune_fixed = pending_in_scc.len() >= fixed_in_scc.len();
    let (prune, keep) = if prune_fixed {
        (set_of_ids(&fixed_in_scc), set_of_ids(&pending_in_scc))
    } else {
        (set_of_ids(&pending_in_scc), set_of_ids(&fixed_in_scc))
    };
    assert(prune@ == weaker_class(c, fixed@, pending@));
    if !prune.is_empty() {
        proof {
            lemma_ids_finite(&prune);
            assert(prune@ != Set::<u64>::empty());
        }
        return (prune, keep);
    }
    proof {
        lemma_ids_finite(&prune);
        assert(prune@ =~= Set::<u64>::empty());
    }
    let victim = scc[scc.len() - 1];
    let mut victim_set: BTreeSet<u64> = BTreeSet::new();
    victim_set.insert(victim);
    let mut rest = set_of_ids(scc);
    rest.remove(&victim);
    proof {
        assert(c.contains(victim));
        assert forall|y: u64| c.contains(y) implies y <= victim by {
            let k = choose|k: int| 0 <= k < scc@.len() && scc@[k] == y;
            if k < scc@.len() - 1 {
                assert(scc@[k] < scc@[scc@.len() - 1]);
            }
        }
        assert(is_greatest(c, victim));
        assert(victim_set@ =~= victims(c, fixed@, pending@));
        assert(rest@ =~= heirs(c, fixed@, pending@));
    }
    (victim_set, rest)
}

/// Adds to `links`, for each edge to a pruned node, the edges to the heirs of its key.
fn redirect(
    links: &mut BTreeSet<(u64, u64)>,
    listed: &Vec<(u64, u64)>,
    prune: &BTreeSet<u64>,
    keep: &BTreeSet<u64>,
    state_key: &BTreeMap<u64, u8>,
)
    ensures
        forall|e: (u64, u64)| #[trigger]
            final(links)@.contains(e) <==> old(links)@.contains(e) || exists|i: int|
                #[trigger] hands_over(listed@, prune@, keep@, state_key@, i, e),
{
    let heirs_listed = list_ids(keep);
    for i in 0..listed.len()
        invariant
            heirs_listed@.to_set() == keep@,
            forall|e: (u64, u64)| #[trigger]
                links@.contains(e) <==> old(links)@.contains(e) || exists|k: int|
                    k < i && #[trigger] hands_over(listed@, prune@, keep@, state_key@, k, e),
    {
        let (from, to) = listed[i];
        let ghost before = links@;
        if prune.contains(&to) && state_key.contains_key(&to) {
            let key = *state_key.get(&to).unwrap();
            for j in 0..heirs_listed.len()
                invariant
                    i < listed@.len(),
                    listed@[i as int] == (from, to),
                    heirs_listed@.to_set() == keep@,
                    prune@.contains(to),
                    state_key@.contains_key(to),
                    key == state_key@[to],
                    forall|e: (u64, u64)| #[trigger]
                        links@.contains(e) <==> before.contains(e) || (e.0 == from
                            && heirs_listed@.take(j as int).contains(e.1)
                            && state_key@.contains_key(e.1) && state_key@[e.1] == key),
            {
                let target = heirs_listed[j];
                let ghost at = links@;
                let ghost seen = heirs_listed@.take(j as int);
                assert(heirs_listed@.take(j + 1) =~= seen.push(target));
                assert forall|x: u64| #[trigger] seen.push(target).contains(x) <==> seen.contains(x)
                    || x == target by {
                    seen.lemma_push_to_set_commute(target);
                    assert(seen.push(target).to_set().contains(x) <==> seen.to_set().insert(
                        target,
                    ).contains(x));
                }
                let same_key = match state_key.get(&target) {
                    Some(other) => *other == key,
                    None => false,
                };
                if same_key {
                    links.insert((from, target));
                }
                assert forall|e: (u64, u64)| #[trigger] links@.contains(e) <==> before.contains(e)
                    || (e.0 == from && seen.push(target).contains(e.1) && state_key@.contains_key(
                    e.1,
                ) && state_key@[e.1] == key) by {
                    assert(links@.contains(e) <==> at.contains(e) || (same_key && e == (
                        from,
                        target,
                    )));
                }
            }
            assert(heirs_listed@.take(heirs_listed@.len() as int) =~= heirs_listed@);
        }
        assert forall|e: (u64, u64)| #[trigger] links@.contains(e) <==> old(links)@.contains(e)
            || exists|k: int|
            k < i + 1 && #[trigger] hands_over(listed@, prune@, keep@, state_key@, k, e) by {
            assert(before.contains(e) <==> old(links)@.contains(e) || exists|k: int|
                k < i && #[trigger] hands_over(listed@, prune@, keep@, state_key@, k, e));
            assert(heirs_listed@.contains(e.1) <==> heirs_listed@.to_set().contains(e.1));
            assert(links@.contains(e) <==> before.contains(e) || hands_over(
                listed@,
                prune@,
                keep@,
                state_key@,
                i as int,
                e,
            ));
        }
    }
    assert forall|e: (u64, u64)| #[trigger] links@.contains(e) <==> old(links)@.contains(e)
        || exists|i: int| #[trigger] hands_over(listed@, prune@, keep@, state_key@, i, e) by {
        if exists|i: int| #[trigger] hands_over(listed@, prune@, keep@, state_key@, i, e) {
            let i = choose|i: int| #[trigger] hands_over(listed@, prune@, keep@, state_key@, i, e);
            assert(i < listed@.len() && hands_over(listed@, prune@, keep@, state_key@, i, e));
        }
    }
}

/// Edge `i` leads to a pruned node, and `e` leads from where it starts to an heir.
spec fn hands_over(
    listed: Seq<(u64, u64)>,
    prune: Set<u64>,
    keep: Set<u64>,
    keys: Map<u64, u8>,
    i: int,
    e: (u64, u64),
) -> bool {
    &&& 0 <= i < listed.len()
    &&& listed[i].0 == e.0
    &&& prune.contains(listed[i].1)
    &&& keep.contains(e.1)
    &&& keys.contains_key(listed[i].1)
    &&& keys.contains_key(e.1)
    &&& keys[e.1] == keys[listed[i].1]
}

/// The members of an entry of a component listing are the component of each of them.
proof fn lemma_listed_component(
    sccs: Seq<Vec<u64>>,
    nodes: Set<u64>,
    edges: Set<(u64, u64)>,
    c: int,
    x: u64,
)
    requires
        lists_components(sccs, nodes, induced(nodes, edges)),
        in_scc(sccs, c, x),
    ensures
        sccs[c]@.to_set() == component(nodes, edges, x),
{
    assert forall|y: u64| sccs[c]@.to_set().contains(y) <==> component(nodes, edges, x).contains(y) by {
        lemma_listed_together(sccs, nodes, edges, c, x, y);
        assert(in_scc(sccs, c, y) <==> sccs[c]@.contains(y));
    }
    assert(sccs[c]@.to_set() =~= component(nodes, edges, x));
}

/// One round of pruning; says whether any node was pruned.
fn prune_round(
    nodes: &mut BTreeSet<u64>,
    edges: &mut BTreeSet<(u64, u64)>,
    fixed_txs: &BTreeSet<u64>,
    pending_txs: &BTreeSet<u64>,
    state_key: &BTreeMap<u64, u8>,
) -> (pruned_any: bool)
    ensures
        pruned_any <==> exists|x: u64| #[trigger] entangled(old(nodes)@, old(edges)@, x),
        !pruned_any ==> final(nodes)@ == old(nodes)@ && final(edges)@ == old(edges)@,
        pruned_any ==> {
            &&& final(nodes)@ == round_nodes(
                old(nodes)@,
                old(edges)@,
                fixed_txs@,
                pending_txs@,
            )
            &&& final(edges)@ == round_edges(
                old(nodes)@,
                old(edges)@,
                fixed_txs@,
                pending_txs@,
                state_key@,
            )
        },
{
    let ghost all = nodes@;
    let ghost links = edges@;
    let ghost fixed = fixed_txs@;
    let ghost pending = pending_txs@;
    let ghost keys = state_key@;
    let sccs = tarjan_scc(nodes, edges);
    let listed = list_pairs(edges);
    let mut left: BTreeSet<u64> = nodes.clone();
    let mut extended: BTreeSet<(u64, u64)> = edges.clone();
    let mut pruned_any = false;
    for c in 0..sccs.len()
        invariant
            lists_components(sccs@, all, induced(all, links)),
            listed@.to_set() == links,
            fixed == fixed_txs@,
            pending == pending_txs@,
            keys == state_key@,
            pruned_any <==> exists|d: int| 0 <= d < c && (#[trigger] sccs@[d])@.len() > 1,
            forall|x: u64| #[trigger]
                left@.contains(x) <==> all.contains(x) && !(doomed(all, links, fixed, pending, x)
                    && exists|d: int| d < c && #[trigger] in_scc(sccs@, d, x)),
            forall|e: (u64, u64)| #[trigger]
                extended@.contains(e) <==> links.contains(e) || exists|via: u64, d: int|
                    #![trigger inherits(all, links, fixed, pending, keys, e.0, via, e.1), in_scc(sccs@, d, via)]
                    d < c && in_scc(sccs@, d, via) && inherits(
                        all,
                        links,
                        fixed,
                        pending,
                        keys,
                        e.0,
                        via,
                        e.1,
                    ),
    {
        let scc = &sccs[c];
        assert(ascending(scc@) && scc@.len() > 0);
        let ghost left_before = left@;
        let ghost extended_before = extended@;
        let ghost members = scc@.to_set();
        if scc.len() > 1 {
            let (prune, keep) = choose_victims(scc, fixed_txs, pending_txs);
            redirect(&mut extended, &listed, &prune, &keep, state_key);
            let gone = list_ids(&prune);
            for i in 0..gone.len()
                invariant
                    forall|x: u64| #[trigger]
                        left@.contains(x) <==> left_before.contains(x) && !gone@.take(
                            i as int,
                        ).contains(x),
            {
                let ghost seen = gone@.take(i as int);
                let ghost at = left@;
                assert(gone@.take(i + 1) =~= seen.push(gone@[i as int]));
                assert forall|x: u64| #[trigger] seen.push(gone@[i as int]).contains(x)
                    <==> seen.contains(x) || x == gone@[i as int] by {
                    seen.lemma_push_to_set_commute(gone@[i as int]);
                    assert(seen.push(gone@[i as int]).to_set().contains(x)
                        <==> seen.to_set().insert(gone@[i as int]).contains(x));
                }
                left.remove(&gone[i]);
            }
            assert(gone@.take(gone@.len() as int) =~= gone@);
            pruned_any = true;
            proof {
                assert forall|x: u64| #[trigger] prune@.contains(x) <==> scc@.contains(x) && doomed(
                    all,
                    links,
                    fixed,
                    pending,
                    x,
                ) by {
                    if scc@.contains(x) {
                        assert(in_scc(sccs@, c as int, x));
                        lemma_listed_component(sccs@, all, links, c as int, x);
                        lemma_component_size(sccs@, all, links, c as int, x);
                    }
                    if prune@.contains(x) {
                        assert(victims(members, fixed, pending).contains(x));
                        assert(members.contains(x));
                    }
                }
                assert forall|x: u64| #[trigger] gone@.contains(x) <==> prune@.contains(x) by {
                    assert(gone@.to_set().contains(x) <==> gone@.contains(x));
                }
                assert forall|e: (u64, u64)| #[trigger]
                    extended@.contains(e) <==> extended_before.contains(e) || exists|via: u64|
                        scc@.contains(via) && #[trigger] inherits(
                            all,
                            links,
                            fixed,
                            pending,
                            keys,
                            e.0,
                            via,
                            e.1,
                        ) by {
                    if exists|i: int| #[trigger] hands_over(listed@, prune@, keep@, keys, i, e) {
                        let i = choose|i: int| #[trigger] hands_over(listed@, prune@, keep@, keys, i, e);
                        let via = listed@[i].1;
                        assert(listed@.to_set().contains(listed@[i]));
                        assert(listed@[i] == (e.0, via));
                        assert(in_scc(sccs@, c as int, via));
                        lemma_listed_component(sccs@, all, links, c as int, via);
                        assert(inherits(all, links, fixed, pending, keys, e.0, via, e.1));
                    }
                    if exists|via: u64|
                        scc@.contains(via) && #[trigger] inherits(
                            all,
                            links,
                            fixed,
                            pending,
                            keys,
                            e.0,
                            via,
                            e.1,
                        ) {
                        let via = choose|via: u64|
                            scc@.contains(via) && #[trigger] inherits(
                                all,
                                links,
                                fixed,
                                pending,
                                keys,
                                e.0,
                                via,
                                e.1,
                            );
                        assert(in_scc(sccs@, c as int, via));
                        lemma_listed_component(sccs@, all, links, c as int, via);
                        assert(listed@.to_set().contains((e.0, via)));
                        let i = choose|i: int| 0 <= i < listed@.len() && listed@[i] == (e.0, via);
                        assert(hands_over(listed@, prune@, keep@, keys, i, e));
                    }
                }
            }
        }
        proof {
            assert forall|x: u64|
                scc@.contains(x) && doomed(all, links, fixed, pending, x) implies scc@.len() > 1 by {
                assert(in_scc(sccs@, c as int, x));
                lemma_component_size(sccs@, all, links, c as int, x);
            }
            assert forall|x: u64|
                (exists|d: int| d < c + 1 && #[trigger] in_scc(sccs@, d, x)) <==> (exists|d: int|
                    d < c && #[trigger] in_scc(sccs@, d, x)) || scc@.contains(x) by {
                if scc@.contains(x) {
                    assert(in_scc(sccs@, c as int, x));
                }
            }
            assert forall|e: (u64, u64)| #[trigger] extended@.contains(e) <==> links.contains(e)
                || exists|via: u64, d: int|
                #![trigger inherits(all, links, fixed, pending, keys, e.0, via, e.1), in_scc(sccs@, d, via)]
                d < c + 1 && in_scc(sccs@, d, via) && inherits(
                    all,
                    links,
                    fixed,
                    pending,
                    keys,
                    e.0,
                    via,
                    e.1,
                ) by {
                assert(extended_before.contains(e) ==> extended@.contains(e));
                if extended@.contains(e) && !extended_before.contains(e) {
                    let via = choose|via: u64|
                        scc@.contains(via) && #[trigger] inherits(
                            all,
                            links,
                            fixed,
                            pending,
                            keys,
                            e.0,
                            via,
                            e.1,
                        );
                    assert(in_scc(sccs@, c as int, via));
                }
                if exists|via: u64, d: int|
                    #![trigger inherits(all, links, fixed, pending, keys, e.0, via, e.1), in_scc(sccs@, d, via)]
                    d < c + 1 && in_scc(sccs@, d, via) && inherits(
                        all,
                        links,
                        fixed,
                        pending,
                        keys,
                        e.0,
                        via,
                        e.1,
                    ) {
                    let (via, d) = choose|via: u64, d: int|
                        #![trigger inherits(all, links, fixed, pending, keys, e.0, via, e.1), in_scc(sccs@, d, via)]
                        d < c + 1 && in_scc(sccs@, d, via) && inherits(
                            all,
                            links,
                            fixed,
                            pending,
                            keys,
                            e.0,
                            via,
                            e.1,
                        );
                    if d == c {
                        assert(scc@.contains(via));
                        assert(scc@.len() > 1);
                    } else {
                        assert(extended_before.contains(e));
                    }
                }
            }
        }
    }
    proof {
        assert(pruned_any <==> exists|x: u64| #[trigger] entangled(all, links, x)) by {
            if pruned_any {
                let d = choose|d: int| 0 <= d < sccs@.len() && (#[trigger] sccs@[d])@.len() > 1;
                let x = sccs@[d]@[0];
                assert(in_scc(sccs@, d, x));
                lemma_component_size(sccs@, all, links, d, x);
            }
            if exists|x: u64| #[trigger] entangled(all, links, x) {
                let x = choose|x: u64| #[trigger] entangled(all, links, x);
                assert(all.contains(x));
                let d = choose|d: int| in_scc(sccs@, d, x);
                assert(in_scc(sccs@, d, x));
                lemma_component_size(sccs@, all, links, d, x);
                assert(sccs@[d]@.len() > 1);
            }
        }
    }
    if !pruned_any {
        return false;
    }
    let kept = restrict_edges(&left, &extended);
    proof {
        assert forall|x: u64| all.contains(x) implies exists|d: int|
            d < sccs@.len() && #[trigger] in_scc(sccs@, d, x) by {
            let d = choose|d: int| in_scc(sccs@, d, x);
            assert(d < sccs@.len() && in_scc(sccs@, d, x));
        }
        assert(left@ =~= round_nodes(all, links, fixed, pending));
        assert forall|e: (u64, u64)| kept@.contains(e) <==> round_edges(
            all,
            links,
            fixed,
            pending,
            keys,
        ).contains(e) by {
            if exists|via: u64|
                #[trigger] inherits(all, links, fixed, pending, keys, e.0, via, e.1) {
                let via = choose|via: u64|
                    #[trigger] inherits(all, links, fixed, pending, keys, e.0, via, e.1);
                assert(all.contains(via));
                let d = choose|d: int| d < sccs@.len() && #[trigger] in_scc(sccs@, d, via);
                assert(extended@.contains(e));
            }
        }
        assert(kept@ =~= round_edges(all, links, fixed, pending, keys));
    }
    *nodes = left;
    *edges = kept;
    true
}

/// Prunes nodes, round by round, until no component has two nodes.
pub fn prune_cycles(
    nodes: &mut BTreeSet<u64>,
    edges: &mut BTreeSet<(u64, u64)>,
    fixed_txs: &BTreeSet<u64>,
    pending_txs: &BTreeSet<u64>,
    state_key: &BTreeMap<u64, u8>,
)
    ensures
        (final(nodes)@, final(edges)@) == pruned(
            old(nodes)@,
            old(edges)@,
            fixed_txs@,
            pending_txs@,
            state_key@,
        ),
{
    proof {
        lemma_ids_finite(nodes);
    }
    let ghost goal = pruned(nodes@, edges@, fixed_txs@, pending_txs@, state_key@);
    let mut again = true;
    while again
        invariant
            nodes@.finite(),
            goal == pruned(nodes@, edges@, fixed_txs@, pending_txs@, state_key@),
            !again ==> forall|x: u64| !#[trigger] entangled(nodes@, edges@, x),
        decreases nodes@.len(), (if again { 1int } else { 0int }),
    {
        let ghost all = nodes@;
        let ghost links = edges@;
        again = prune_round(nodes, edges, fixed_txs, pending_txs, state_key);
        proof {
            if again {
                let x = choose|x: u64| #[trigger] entangled(all, links, x);
                lemma_round_prunes(all, links, fixed_txs@, pending_txs@, x);
            }
        }
    }
}

} // verus!
