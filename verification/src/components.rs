//! Operations on the strongly connected components of a graph.

use std::collections::{BTreeMap, BTreeSet};
use vstd::prelude::*;
use crate::graph::{
    acyclic, adjacency_edges, build_adjacency, induced, is_path, is_step, lemma_reaches_closed,
    lemma_reaches_edge, lemma_reaches_lift, lemma_reaches_self, lemma_reaches_trans, lemma_unvisited_insert,
    neighbors_of, reaches, strongly_connected, unvisited, within,
};
use crate::ordered::{ascending, list_ids, list_pairs};
use crate::scc::{in_scc, lists_components, tarjan_scc};

verus! {

/// `a` and `b` are nodes of one strongly connected component.
pub open spec fn same_component(
    nodes: Set<u64>,
    edges: Set<(u64, u64)>,
    a: u64,
    b: u64,
) -> bool {
    nodes.contains(a) && nodes.contains(b) && strongly_connected(induced(nodes, edges), a, b)
}

/// `a` shares its component with another node.
pub open spec fn entangled(nodes: Set<u64>, edges: Set<(u64, u64)>, a: u64) -> bool {
    exists|c: u64| c != a && #[trigger] same_component(nodes, edges, a, c)
}

/// `b` comes next after `a` in the ascending order of their component.
pub open spec fn next_in_component(
    nodes: Set<u64>,
    edges: Set<(u64, u64)>,
    a: u64,
    b: u64,
) -> bool {
    &&& a < b
    &&& same_component(nodes, edges, a, b)
    &&& forall|c: u64| a < c < b ==> !#[trigger] same_component(nodes, edges, a, c)
}

/// The edges after each component of two or more nodes has been replaced by the
/// chain of its nodes in ascending order.
pub open spec fn linearized(nodes: Set<u64>, edges: Set<(u64, u64)>) -> Set<(u64, u64)> {
    Set::new(
        |e: (u64, u64)|
            (edges.contains(e) && !(same_component(nodes, edges, e.0, e.1) && entangled(
                nodes,
                edges,
                e.0,
            ))) || next_in_component(nodes, edges, e.0, e.1),
    )
}

/// A listing of the components puts two nodes into one entry exactly if they are
/// in the same component.
pub(crate) proof fn lemma_listed_together(
    sccs: Seq<Vec<u64>>,
    nodes: Set<u64>,
    edges: Set<(u64, u64)>,
    c: int,
    a: u64,
    b: u64,
)
    requires
        lists_components(sccs, nodes, induced(nodes, edges)),
        in_scc(sccs, c, a),
    ensures
        in_scc(sccs, c, b) <==> same_component(nodes, edges, a, b),
{
    if in_scc(sccs, c, b) {
        assert(nodes.contains(a) && nodes.contains(b));
    }
    if same_component(nodes, edges, a, b) {
        let d = choose|d: int| in_scc(sccs, d, b);
        assert(in_scc(sccs, d, b));
        let inner = induced(nodes, edges);
        assert(strongly_connected(inner, b, a));
        assert(in_scc(sccs, d, a)) by {
            let e = choose|e: int| in_scc(sccs, e, a);
            assert(in_scc(sccs, d, b) && (in_scc(sccs, d, a) <==> strongly_connected(inner, b, a)));
        }
        assert(c == d);
    }
}

/// For each listed node, the position of the last component that lists it.
pub(crate) fn component_index(sccs: &Vec<Vec<u64>>) -> (index: BTreeMap<u64, usize>)
    ensures
        forall|x: u64| #[trigger]
            index@.contains_key(x) <==> exists|c: int| in_scc(sccs@, c, x),
        forall|x: u64|
            index@.contains_key(x) ==> in_scc(sccs@, #[trigger] index@[x] as int, x) && forall|
                c: int,
            |
                #[trigger] in_scc(sccs@, c, x) ==> c <= index@[x],
{
    let mut index: BTreeMap<u64, usize> = BTreeMap::new();
    for component in 0..sccs.len()
        invariant
            forall|x: u64| #[trigger]
                index@.contains_key(x) <==> exists|c: int|
                    c < component && #[trigger] in_scc(sccs@, c, x),
            forall|x: u64|
                index@.contains_key(x) ==> index@[x] < component && in_scc(
                    sccs@,
                    #[trigger] index@[x] as int,
                    x,
                ) && forall|c: int|
                    c < component && #[trigger] in_scc(sccs@, c, x) ==> c <= index@[x],
    {
        let ghost before = index@;
        let scc = &sccs[component];
        for i in 0..scc.len()
            invariant
                component < sccs@.len(),
                *scc == sccs@[component as int],
                forall|x: u64| #[trigger]
                    index@.contains_key(x) <==> before.contains_key(x) || scc@.take(
                        i as int,
                    ).contains(x),
                forall|x: u64|
                    index@.contains_key(x) ==> #[trigger] index@[x] == if scc@.take(
                        i as int,
                    ).contains(x) {
                        component
                    } else {
                        before[x]
                    },
        {
            let ghost seen = scc@.take(i as int);
            assert(scc@.take(i + 1) =~= seen.push(scc@[i as int]));
            assert forall|x: u64| #[trigger]
                seen.push(scc@[i as int]).contains(x) <==> seen.contains(x) || x == scc@[i as int] by {
                seen.lemma_push_to_set_commute(scc@[i as int]);
                assert(seen.push(scc@[i as int]).to_set().contains(x) <==> seen.to_set().insert(
                    scc@[i as int],
                ).contains(x));
            }
            index.insert(scc[i], component);
        }
        assert(scc@.take(scc@.len() as int) =~= scc@);
        assert forall|x: u64| #[trigger] index@.contains_key(x) <==> exists|c: int|
            c < component + 1 && #[trigger] in_scc(sccs@, c, x) by {
            if index@.contains_key(x) {
                if scc@.contains(x) {
                    assert(in_scc(sccs@, component as int, x));
                } else {
                    assert(before.contains_key(x));
                }
            }
            if exists|c: int| c < component + 1 && #[trigger] in_scc(sccs@, c, x) {
                let c = choose|c: int| c < component + 1 && #[trigger] in_scc(sccs@, c, x);
                if c < component {
                    assert(before.contains_key(x));
                }
            }
        }
        assert forall|x: u64| index@.contains_key(x) implies index@[x] < component + 1 && in_scc(
            sccs@,
            #[trigger] index@[x] as int,
            x,
        ) && forall|c: int|
            c < component + 1 && #[trigger] in_scc(sccs@, c, x) ==> c <= index@[x] by {
            if scc@.contains(x) {
                assert(in_scc(sccs@, component as int, x));
            } else {
                assert(before.contains_key(x));
                assert(before[x] == index@[x]);
                assert(!in_scc(sccs@, component as int, x));
            }
        }
    }
    index
}

/// Replaces each component of two or more nodes by the chain of its nodes in
/// ascending order.
pub(crate) fn linearize_sccs(
    edges: &mut BTreeSet<(u64, u64)>,
    sccs: &Vec<Vec<u64>>,
    Ghost(nodes): Ghost<Set<u64>>,
)
    requires
        lists_components(sccs@, nodes, induced(nodes, old(edges)@)),
    ensures
        final(edges)@ == linearized(nodes, old(edges)@),
{
    let ghost before = edges@;
    let index = component_index(sccs);
    let listed = list_pairs(edges);
    let mut result: BTreeSet<(u64, u64)> = BTreeSet::new();
    for i in 0..listed.len()
        invariant
            lists_components(sccs@, nodes, induced(nodes, before)),
            listed@.to_set() == before,
            forall|x: u64| #[trigger]
                index@.contains_key(x) <==> exists|c: int| in_scc(sccs@, c, x),
            forall|x: u64|
                index@.contains_key(x) ==> in_scc(sccs@, #[trigger] index@[x] as int, x),
            forall|e: (u64, u64)| #[trigger]
                result@.contains(e) <==> listed@.take(i as int).contains(e) && !(same_component(
                    nodes,
                    before,
                    e.0,
                    e.1,
                ) && entangled(nodes, before, e.0)),
    {
        let (from, to) = listed[i];
        let ghost seen = listed@.take(i as int);
        proof {
            assert(listed@.take(i + 1) =~= seen.push((from, to)));
            assert forall|e: (u64, u64)| #[trigger]
                seen.push((from, to)).contains(e) <==> seen.contains(e) || e == (from, to) by {
                seen.lemma_push_to_set_commute((from, to));
                assert(seen.push((from, to)).to_set().contains(e) <==> seen.to_set().insert(
                    (from, to),
                ).contains(e));
            }
        }
        let mut inside = false;
        if let Some(c) = index.get(&from) {
            if let Some(d) = index.get(&to) {
                inside = *c == *d && sccs[*c].len() > 1;
                proof {
                    lemma_listed_together(sccs@, nodes, before, *c as int, from, to);
                    lemma_component_size(sccs@, nodes, before, *c as int, from);
                }
            }
        }
        proof {
            if same_component(nodes, before, from, to) {
                assert(index@.contains_key(from) && index@.contains_key(to));
                let c = index@[from] as int;
                lemma_listed_together(sccs@, nodes, before, c, from, to);
            }
            assert(inside <==> same_component(nodes, before, from, to) && entangled(
                nodes,
                before,
                from,
            ));
        }
        if !inside {
            result.insert((from, to));
        }
    }
    assert(listed@.take(listed@.len() as int) =~= listed@);
    assert forall|e: (u64, u64)| #[trigger] result@.contains(e) <==> before.contains(e) && !(
    same_component(nodes, before, e.0, e.1) && entangled(nodes, before, e.0)) by {
        assert(listed@.contains(e) <==> listed@.to_set().contains(e));
    }
    let ghost kept = result@;
    for c in 0..sccs.len()
        invariant
            lists_components(sccs@, nodes, induced(nodes, before)),
            forall|e: (u64, u64)| #[trigger]
                result@.contains(e) <==> kept.contains(e) || exists|d: int, j: int|
                    0 <= d < c && #[trigger] is_link(sccs@, d, j, e),
    {
        let scc = &sccs[c];
        let ghost so_far = result@;
        let mut j: usize = 1;
        while j < scc.len()
            invariant
                1 <= j,
                j <= scc@.len() || j == 1,
                c < sccs@.len(),
                *scc == sccs@[c as int],
                forall|e: (u64, u64)| #[trigger]
                    result@.contains(e) <==> so_far.contains(e) || exists|k: int|
                        k < j && #[trigger] is_link(sccs@, c as int, k, e),
            decreases scc@.len() - j,
        {
            let ghost at = result@;
            result.insert((scc[j - 1], scc[j]));
            assert forall|e: (u64, u64)| #[trigger] result@.contains(e) <==> so_far.contains(e)
                || exists|k: int| k < j + 1 && #[trigger] is_link(sccs@, c as int, k, e) by {
                assert(is_link(sccs@, c as int, j as int, (scc@[j - 1], scc@[j as int])));
                assert(result@.contains(e) <==> at.contains(e) || e == (
                    scc@[j - 1],
                    scc@[j as int],
                ));
            }
            j += 1;
        }
        assert forall|e: (u64, u64)| #[trigger] result@.contains(e) <==> kept.contains(e) || exists|
            d: int,
            k: int,
        |
            0 <= d < c + 1 && #[trigger] is_link(sccs@, d, k, e) by {
            assert(so_far.contains(e) <==> kept.contains(e) || exists|d: int, k: int|
                0 <= d < c && #[trigger] is_link(sccs@, d, k, e));
            if exists|d: int, k: int| 0 <= d < c + 1 && #[trigger] is_link(sccs@, d, k, e) {
                let (d, k) = choose|d: int, k: int|
                    0 <= d < c + 1 && #[trigger] is_link(sccs@, d, k, e);
                if d == c {
                    assert(k < j && is_link(sccs@, c as int, k, e));
                }
            }
        }
    }
    proof {
        assert forall|e: (u64, u64)|
            (exists|d: int, j: int| 0 <= d < sccs@.len() && #[trigger] is_link(sccs@, d, j, e))
                <==> next_in_component(nodes, before, e.0, e.1) by {
            lemma_links(sccs@, nodes, before, e.0, e.1);
            if next_in_component(nodes, before, e.0, e.1) {
                let (d, j) = choose|d: int, j: int| #[trigger] is_link(sccs@, d, j, e);
                assert(0 <= d < sccs@.len() && is_link(sccs@, d, j, e));
            }
        }
        assert(result@ =~= linearized(nodes, before));
    }
    *edges = result;
}

/// `e` joins the members `j - 1` and `j` of component `d`.
spec fn is_link(sccs: Seq<Vec<u64>>, d: int, j: int, e: (u64, u64)) -> bool {
    0 <= d < sccs.len() && 1 <= j < sccs[d]@.len() && e == (sccs[d]@[j - 1], sccs[d]@[j])
}

/// The links between listed neighbors are the steps of the ascending chains.
proof fn lemma_links(
    sccs: Seq<Vec<u64>>,
    nodes: Set<u64>,
    edges: Set<(u64, u64)>,
    a: u64,
    b: u64,
)
    requires
        lists_components(sccs, nodes, induced(nodes, edges)),
    ensures
        (exists|d: int, j: int| #[trigger] is_link(sccs, d, j, (a, b))) <==> next_in_component(
            nodes,
            edges,
            a,
            b,
        ),
{
    if exists|d: int, j: int| #[trigger] is_link(sccs, d, j, (a, b)) {
        let (d, j) = choose|d: int, j: int| #[trigger] is_link(sccs, d, j, (a, b));
        let s = sccs[d]@;
        assert(ascending(s));
        assert(s[j - 1] == a && s[j] == b);
        assert(in_scc(sccs, d, a) && in_scc(sccs, d, b));
        lemma_listed_together(sccs, nodes, edges, d, a, b);
        assert forall|c: u64| a < c < b implies !#[trigger] same_component(nodes, edges, a, c) by {
            lemma_listed_together(sccs, nodes, edges, d, a, c);
            if in_scc(sccs, d, c) {
                let k = choose|k: int| 0 <= k < s.len() && s[k] == c;
                if k < j - 1 {
                    assert(s[k] < s[j - 1]);
                } else if k > j {
                    assert(s[j] < s[k]);
                }
            }
        }
    }
    if next_in_component(nodes, edges, a, b) {
        let d = choose|d: int| in_scc(sccs, d, a);
        assert(in_scc(sccs, d, a));
        lemma_listed_together(sccs, nodes, edges, d, a, b);
        let s = sccs[d]@;
        assert(ascending(s));
        let i = choose|i: int| 0 <= i < s.len() && s[i] == a;
        let j = choose|j: int| 0 <= j < s.len() && s[j] == b;
        assert(i < j) by {
            if j < i {
                assert(s[j] < s[i]);
            }
        }
        assert(j == i + 1) by {
            if i + 1 < j {
                let c = s[i + 1];
                assert(in_scc(sccs, d, c));
                lemma_listed_together(sccs, nodes, edges, d, a, c);
                assert(s[i] < s[i + 1] && s[i + 1] < s[j]);
            }
        }
        assert(is_link(sccs, d, j, (a, b)));
    }
}

/// A listed component has two or more members exactly if its nodes are entangled.
pub(crate) proof fn lemma_component_size(
    sccs: Seq<Vec<u64>>,
    nodes: Set<u64>,
    edges: Set<(u64, u64)>,
    c: int,
    a: u64,
)
    requires
        lists_components(sccs, nodes, induced(nodes, edges)),
        in_scc(sccs, c, a),
    ensures
        sccs[c]@.len() > 1 <==> entangled(nodes, edges, a),
{
    let s = sccs[c]@;
    assert(ascending(s));
    let i = choose|i: int| 0 <= i < s.len() && s[i] == a;
    if s.len() > 1 {
        let j: int = if i == 0 {
            1
        } else {
            0
        };
        assert(s[j] != a) by {
            if i < j {
                assert(s[i] < s[j]);
            } else {
                assert(s[j] < s[i]);
            }
        }
        assert(in_scc(sccs, c, s[j]));
        lemma_listed_together(sccs, nodes, edges, c, a, s[j]);
    }
    if entangled(nodes, edges, a) {
        let b = choose|b: u64| b != a && #[trigger] same_component(nodes, edges, a, b);
        lemma_listed_together(sccs, nodes, edges, c, a, b);
        let j = choose|j: int| 0 <= j < s.len() && s[j] == b;
        assert(i != j);
    }
}

/// Linearization leaves no cycle.
pub proof fn lemma_linearized_acyclic(nodes: Set<u64>, edges: Set<(u64, u64)>)
    requires
        within(nodes, edges),
        forall|a: u64| !edges.contains((a, a)),
    ensures
        acyclic(linearized(nodes, edges)),
        within(nodes, linearized(nodes, edges)),
{
    let lin = linearized(nodes, edges);
    let inner = induced(nodes, edges);
    assert(inner =~= edges);
    assert forall|x: u64, y: u64| #[trigger] lin.contains((x, y)) implies reaches(edges, x, y) by {
        if edges.contains((x, y)) {
            lemma_reaches_edge(edges, x, y);
        }
    }
    assert forall|x: u64, y: u64|
        #[trigger] lin.contains((x, y)) && reaches(edges, y, x) implies x < y by {
        if !next_in_component(nodes, edges, x, y) {
            assert(edges.contains((x, y)));
            assert(x != y);
            assert(same_component(nodes, edges, x, y));
        }
    }
    assert forall|a: u64, b: u64| #[trigger] lin.contains((a, b)) implies !reaches(lin, b, a) by {
        if reaches(lin, b, a) {
            lemma_reaches_lift(lin, edges, b, a);
            assert(a < b);
            let beyond = Set::new(|x: u64| reaches(edges, b, x) && (x >= b || !reaches(edges, x, a)));
            lemma_reaches_self(edges, b);
            lemma_reaches_self(edges, a);
            assert forall|x: u64, y: u64|
                beyond.contains(x) && #[trigger] lin.contains((x, y)) implies beyond.contains(y) by {
                lemma_reaches_trans(edges, b, x, y);
                if reaches(edges, y, a) {
                    lemma_reaches_trans(edges, x, y, a);
                    assert(reaches(edges, a, b));
                    lemma_reaches_trans(edges, y, a, b);
                    lemma_reaches_trans(edges, y, b, x);
                }
            }
            lemma_reaches_closed(lin, beyond, b, a);
        }
    }
}

/// A component is replaced by a chain: from each of its nodes a path leads to every greater one, and
/// the path stays in the component.
pub proof fn lemma_components_become_chains(
    nodes: Set<u64>,
    edges: Set<(u64, u64)>,
    a: u64,
    b: u64,
)
    requires
        nodes.finite(),
        same_component(nodes, edges, a, b),
        a < b,
    ensures
        reaches(linearized(nodes, edges), a, b),
    decreases b - a,
{
    let lin = linearized(nodes, edges);
    if next_in_component(nodes, edges, a, b) {
        lemma_reaches_edge(lin, a, b);
    } else {
        let inner = induced(nodes, edges);
        let c = choose|c: u64| a < c < b && #[trigger] same_component(nodes, edges, a, c);
        lemma_reaches_trans(inner, c, a, b);
        lemma_reaches_trans(inner, b, a, c);
        assert(same_component(nodes, edges, c, b));
        lemma_components_become_chains(nodes, edges, a, c);
        lemma_components_become_chains(nodes, edges, c, b);
        lemma_reaches_trans(lin, a, c, b);
    }
}

/// Edges between different components stay as they are, and nothing else is added but the chains.
pub proof fn lemma_other_edges_stay(nodes: Set<u64>, edges: Set<(u64, u64)>, e: (u64, u64))
    ensures
        edges.contains(e) && !same_component(nodes, edges, e.0, e.1) ==> linearized(
            nodes,
            edges,
        ).contains(e),
        linearized(nodes, edges).contains(e) && !same_component(nodes, edges, e.0, e.1)
            ==> edges.contains(e),
        linearized(nodes, edges).contains(e) && same_component(nodes, edges, e.0, e.1) && e.0 != e.1
            ==> e.0 < e.1 && forall|c: u64|
            e.0 < c < e.1 ==> !#[trigger] same_component(nodes, edges, e.0, c),
{
    if same_component(nodes, edges, e.0, e.1) && e.0 != e.1 {
        assert(entangled(nodes, edges, e.0));
    }
}

/// `x` is in a component with a member of `set`.
pub open spec fn component_meets(
    nodes: Set<u64>,
    edges: Set<(u64, u64)>,
    set: Set<u64>,
    x: u64,
) -> bool {
    exists|m: u64| set.contains(m) && #[trigger] same_component(nodes, edges, x, m)
}

/// The nodes whose component has a fixed or a pending member.
pub open spec fn live_nodes(
    nodes: Set<u64>,
    edges: Set<(u64, u64)>,
    fixed: Set<u64>,
    pending: Set<u64>,
) -> Set<u64> {
    Set::new(
        |x: u64| component_meets(nodes, edges, fixed, x) || component_meets(nodes, edges, pending, x),
    )
}

/// From `x` a path over live nodes leads to a component with a fixed member.
pub open spec fn leads_to_fixed(
    nodes: Set<u64>,
    edges: Set<(u64, u64)>,
    fixed: Set<u64>,
    pending: Set<u64>,
    x: u64,
) -> bool {
    exists|m: u64|
        component_meets(nodes, edges, fixed, m) && #[trigger] reaches(
            induced(live_nodes(nodes, edges, fixed, pending), edges),
            x,
            m,
        )
}

/// The nodes that are retained: those that lead to a fixed component, or all where no
/// component has a fixed member.
pub open spec fn retained_nodes(
    nodes: Set<u64>,
    edges: Set<(u64, u64)>,
    fixed: Set<u64>,
    pending: Set<u64>,
) -> Set<u64> {
    if nodes.disjoint(fixed) {
        nodes
    } else {
        Set::new(|x: u64| nodes.contains(x) && leads_to_fixed(nodes, edges, fixed, pending, x))
    }
}

/// `set` has a member on a common cycle with `x`, or `x` itself.
pub open spec fn has_one_with(
    nodes: Set<u64>,
    edges: Set<(u64, u64)>,
    set: Set<u64>,
    x: u64,
) -> bool {
    exists|m: u64|
        set.contains(m) && nodes.contains(m) && nodes.contains(x) && #[trigger] reaches(
            induced(nodes, edges),
            x,
            m,
        ) && reaches(induced(nodes, edges), m, x)
}

/// `p` leads along the edges from `x` to a component with a fixed node, over components with a fixed
/// or a pending one.
pub open spec fn is_way_to_fixed(
    nodes: Set<u64>,
    edges: Set<(u64, u64)>,
    fixed: Set<u64>,
    pending: Set<u64>,
    x: u64,
    p: Seq<u64>,
) -> bool {
    &&& is_path(edges, p)
    &&& p[0] == x
    &&& has_one_with(nodes, edges, fixed, p.last())
    &&& forall|i: int|
        0 <= i < p.len() ==> has_one_with(nodes, edges, fixed, #[trigger] p[i]) || has_one_with(
            nodes,
            edges,
            pending,
            p[i],
        )
}

proof fn lemma_has_one_with(nodes: Set<u64>, edges: Set<(u64, u64)>, set: Set<u64>, x: u64)
    ensures
        has_one_with(nodes, edges, set, x) <==> component_meets(nodes, edges, set, x),
{
    let inner = induced(nodes, edges);
    if has_one_with(nodes, edges, set, x) {
        let m = choose|m: u64|
            set.contains(m) && nodes.contains(m) && nodes.contains(x) && #[trigger] reaches(
                inner,
                x,
                m,
            ) && reaches(inner, m, x);
        assert(same_component(nodes, edges, x, m));
    }
    if component_meets(nodes, edges, set, x) {
        let m = choose|m: u64| set.contains(m) && #[trigger] same_component(nodes, edges, x, m);
        assert(reaches(inner, x, m));
    }
}

proof fn lemma_way_of_retained(
    nodes: Set<u64>,
    edges: Set<(u64, u64)>,
    fixed: Set<u64>,
    pending: Set<u64>,
    x: u64,
)
    requires
        leads_to_fixed(nodes, edges, fixed, pending, x),
    ensures
        exists|p: Seq<u64>| #[trigger] is_way_to_fixed(nodes, edges, fixed, pending, x, p),
{
    let live = live_nodes(nodes, edges, fixed, pending);
    let inner = induced(live, edges);
    let m = choose|m: u64|
        component_meets(nodes, edges, fixed, m) && #[trigger] reaches(inner, x, m);
    let p = choose|p: Seq<u64>| #[trigger] is_path(inner, p) && p[0] == x && p.last() == m;
    assert forall|i: int| 0 <= i < p.len() - 1 implies #[trigger] is_step(edges, p, i) by {
        assert(is_step(inner, p, i));
    }
    assert(is_path(edges, p));
    lemma_has_one_with(nodes, edges, fixed, m);
    assert forall|i: int| 0 <= i < p.len() implies has_one_with(nodes, edges, fixed, #[trigger] p[i])
        || has_one_with(nodes, edges, pending, p[i]) by {
        lemma_has_one_with(nodes, edges, fixed, p[i]);
        lemma_has_one_with(nodes, edges, pending, p[i]);
        if i < p.len() - 1 {
            assert(is_step(inner, p, i));
            assert(live.contains(p[i]));
        }
    }
    assert(is_way_to_fixed(nodes, edges, fixed, pending, x, p));
}

proof fn lemma_retained_by_way(
    nodes: Set<u64>,
    edges: Set<(u64, u64)>,
    fixed: Set<u64>,
    pending: Set<u64>,
    x: u64,
    p: Seq<u64>,
)
    requires
        is_way_to_fixed(nodes, edges, fixed, pending, x, p),
    ensures
        leads_to_fixed(nodes, edges, fixed, pending, x),
        nodes.contains(x),
{
    let live = live_nodes(nodes, edges, fixed, pending);
    let inner = induced(live, edges);
    assert forall|i: int| 0 <= i < p.len() implies live.contains(#[trigger] p[i])
        && nodes.contains(p[i]) by {
        lemma_has_one_with(nodes, edges, fixed, p[i]);
        lemma_has_one_with(nodes, edges, pending, p[i]);
    }
    assert forall|i: int| 0 <= i < p.len() - 1 implies #[trigger] is_step(inner, p, i) by {
        assert(is_step(edges, p, i));
        assert(live.contains(p[i]) && live.contains(p[i + 1]));
    }
    assert(is_path(inner, p));
    lemma_has_one_with(nodes, edges, fixed, p.last());
    assert(reaches(inner, x, p.last()));
    assert(live.contains(p[0]));
}

/// Where some node is fixed, exactly those nodes are retained from which such a way leads; and of
/// the edges those between them. Where none is fixed, everything is retained.
pub proof fn lemma_what_leads_to_fixed_is_retained(
    nodes: Set<u64>,
    edges: Set<(u64, u64)>,
    fixed: Set<u64>,
    pending: Set<u64>,
    x: u64,
    y: u64,
)
    ensures
        (exists|m: u64| nodes.contains(m) && fixed.contains(m)) ==> {
            &&& retained_nodes(nodes, edges, fixed, pending).contains(x) <==> exists|p: Seq<u64>|
                #[trigger] is_way_to_fixed(nodes, edges, fixed, pending, x, p)
            &&& retained_edges(nodes, edges, fixed, pending).contains((x, y)) <==> edges.contains(
                (x, y),
            ) && x != y && retained_nodes(nodes, edges, fixed, pending).contains(x)
                && retained_nodes(nodes, edges, fixed, pending).contains(y)
        },
        (forall|m: u64| nodes.contains(m) ==> !fixed.contains(m)) ==> retained_nodes(
            nodes,
            edges,
            fixed,
            pending,
        ) == nodes && retained_edges(nodes, edges, fixed, pending) == edges,
{
    if exists|m: u64| nodes.contains(m) && fixed.contains(m) {
        let m = choose|m: u64| nodes.contains(m) && fixed.contains(m);
        assert(!nodes.disjoint(fixed));
        if leads_to_fixed(nodes, edges, fixed, pending, x) {
            lemma_way_of_retained(nodes, edges, fixed, pending, x);
        }
        if exists|p: Seq<u64>| #[trigger] is_way_to_fixed(nodes, edges, fixed, pending, x, p) {
            let p = choose|p: Seq<u64>| #[trigger]
                is_way_to_fixed(nodes, edges, fixed, pending, x, p);
            lemma_retained_by_way(nodes, edges, fixed, pending, x, p);
        }
    } else {
        assert(nodes.disjoint(fixed));
    }
}

/// The edges between different nodes of `nodes`.
pub open spec fn proper_edges(nodes: Set<u64>, edges: Set<(u64, u64)>) -> Set<(u64, u64)> {
    Set::new(
        |e: (u64, u64)|
            edges.contains(e) && nodes.contains(e.0) && nodes.contains(e.1) && e.0 != e.1,
    )
}

/// The edges that are retained.
pub open spec fn retained_edges(
    nodes: Set<u64>,
    edges: Set<(u64, u64)>,
    fixed: Set<u64>,
    pending: Set<u64>,
) -> Set<(u64, u64)> {
    if nodes.disjoint(fixed) {
        edges
    } else {
        proper_edges(retained_nodes(nodes, edges, fixed, pending), edges)
    }
}

/// The edges between different nodes of `nodes`.
pub(crate) fn restrict_edges(nodes: &BTreeSet<u64>, edges: &BTreeSet<(u64, u64)>) -> (kept: BTreeSet<
    (u64, u64),
>)
    ensures
        kept@ == proper_edges(nodes@, edges@),
{
    let listed = list_pairs(edges);
    let mut kept: BTreeSet<(u64, u64)> = BTreeSet::new();
    for i in 0..listed.len()
        invariant
            kept@ == proper_edges(nodes@, listed@.take(i as int).to_set()),
    {
        let (from, to) = listed[i];
        let ghost seen = listed@.take(i as int);
        proof {
            assert(listed@.take(i + 1) =~= seen.push((from, to)));
            seen.lemma_push_to_set_commute((from, to));
        }
        if nodes.contains(&from) && nodes.contains(&to) && from != to {
            kept.insert((from, to));
        }
        assert(kept@ =~= proper_edges(nodes@, seen.to_set().insert((from, to))));
    }
    assert(listed@.take(listed@.len() as int) =~= listed@);
    kept
}

/// Whether `list` has a member in `set`.
fn meets(list: &Vec<u64>, set: &BTreeSet<u64>) -> (found: bool)
    ensures
        found <==> exists|x: u64| list@.contains(x) && #[trigger] set@.contains(x),
{
    for i in 0..list.len()
        invariant
            forall|j: int| 0 <= j < i ==> !set@.contains(#[trigger] list@[j]),
    {
        if set.contains(&list[i]) {
            assert(list@.contains(list@[i as int]));
            return true;
        }
    }
    false
}

/// Adds the members of `list` to `set`.
fn add_all(set: &mut BTreeSet<u64>, list: &Vec<u64>)
    ensures
        final(set)@ == old(set)@.union(list@.to_set()),
{
    let ghost before = set@;
    for i in 0..list.len()
        invariant
            set@ == before.union(list@.take(i as int).to_set()),
    {
        let ghost seen = list@.take(i as int);
        proof {
            assert(list@.take(i + 1) =~= seen.push(list@[i as int]));
            seen.lemma_push_to_set_commute(list@[i as int]);
        }
        set.insert(list[i]);
        assert(set@ =~= before.union(seen.to_set().insert(list@[i as int])));
    }
    assert(list@.take(list@.len() as int) =~= list@);
}

/// The edges, turned round.
fn reversed(edges: &BTreeSet<(u64, u64)>) -> (turned: BTreeSet<(u64, u64)>)
    ensures
        forall|a: u64, b: u64| #[trigger] turned@.contains((a, b)) <==> edges@.contains((b, a)),
{
    let listed = list_pairs(edges);
    let mut turned: BTreeSet<(u64, u64)> = BTreeSet::new();
    for i in 0..listed.len()
        invariant
            forall|a: u64, b: u64| #[trigger]
                turned@.contains((a, b)) <==> listed@.take(i as int).contains((b, a)),
    {
        let (from, to) = listed[i];
        let ghost seen = listed@.take(i as int);
        let ghost before = turned@;
        assert(listed@.take(i + 1) =~= seen.push((from, to)));
        turned.insert((to, from));
        assert forall|a: u64, b: u64| #[trigger] turned@.contains((a, b)) <==> seen.push(
            (from, to),
        ).contains((b, a)) by {
            seen.lemma_push_to_set_commute((from, to));
            assert(seen.push((from, to)).to_set().contains((b, a)) <==> seen.to_set().insert(
                (from, to),
            ).contains((b, a)));
            assert(before.contains((a, b)) <==> seen.contains((b, a)));
        }
    }
    assert(listed@.take(listed@.len() as int) =~= listed@);
    assert forall|a: u64, b: u64| #[trigger] turned@.contains((a, b)) <==> edges@.contains((b, a)) by {
        assert(listed@.contains((b, a)) <==> listed@.to_set().contains((b, a)));
    }
    turned
}

/// From `x` a path leads to one of the `goals`.
#[verifier::opaque]
spec fn leads_into(edges: Set<(u64, u64)>, goals: Set<u64>, x: u64) -> bool {
    exists|m: u64| goals.contains(m) && #[trigger] reaches(edges, x, m)
}

/// A goal leads into the goals, and so does what has an edge to something that does.
proof fn lemma_leads_into(edges: Set<(u64, u64)>, goals: Set<u64>, x: u64, y: u64)
    ensures
        goals.contains(x) ==> leads_into(edges, goals, x),
        edges.contains((y, x)) && leads_into(edges, goals, x) ==> leads_into(edges, goals, y),
{
    reveal(leads_into);
    lemma_reaches_self(edges, x);
    if edges.contains((y, x)) && leads_into(edges, goals, x) {
        let m = choose|m: u64| goals.contains(m) && #[trigger] reaches(edges, x, m);
        lemma_reaches_edge(edges, y, x);
        lemma_reaches_trans(edges, y, x, m);
    }
}

/// A set that holds the goals, and what has an edge to one of its members, holds
/// everything that leads into the goals.
proof fn lemma_leads_into_closed(
    edges: Set<(u64, u64)>,
    goals: Set<u64>,
    found: Set<u64>,
    x: u64,
)
    requires
        goals.subset_of(found),
        forall|a: u64, b: u64|
            found.contains(b) && #[trigger] edges.contains((a, b)) ==> found.contains(a),
        leads_into(edges, goals, x),
    ensures
        found.contains(x),
{
    reveal(leads_into);
    let m = choose|m: u64| goals.contains(m) && #[trigger] reaches(edges, x, m);
    if !found.contains(x) {
        let outside = found.complement();
        lemma_reaches_closed(edges, outside, x, m);
    }
}

/// The nodes from which a path over `live` nodes leads to `goals`.
fn reaching(
    live: &BTreeSet<u64>,
    edges: &BTreeSet<(u64, u64)>,
    goals: &BTreeSet<u64>,
) -> (found: BTreeSet<u64>)
    ensures
        forall|x: u64| #[trigger]
            found@.contains(x) <==> leads_into(induced(live@, edges@), goals@, x),
{
    let turned = reversed(edges);
    let adjacency = build_adjacency(live, &turned);
    let mut found: BTreeSet<u64> = goals.clone();
    let mut stack = list_ids(goals);
    let ghost inner = induced(live@, edges@);
    proof {
        assert forall|x: u64| #[trigger] found@.contains(x) implies leads_into(inner, goals@, x) by {
            lemma_leads_into(inner, goals@, x, x);
        }
        assert forall|x: u64| found@.contains(x) implies stack@.contains(x) by {
            assert(stack@.to_set().contains(x));
        }
    }
    while stack.len() > 0
        invariant
            inner == induced(live@, edges@),
            adjacency_edges(adjacency@) == induced(live@, turned@),
            forall|a: u64, b: u64| #[trigger] turned@.contains((a, b)) <==> edges@.contains((b, a)),
            goals@.subset_of(found@),
            forall|i: int| 0 <= i < stack@.len() ==> found@.contains(#[trigger] stack@[i]),
            forall|x: u64| #[trigger]
                found@.contains(x) ==> leads_into(inner, goals@, x),
            forall|x: u64, y: u64|
                found@.contains(x) && !stack@.contains(x) && #[trigger] inner.contains((y, x))
                    ==> found@.contains(y),
        decreases unvisited(found@), stack@.len(),
    {
        let ghost stacked = stack@;
        let node = stack.pop().unwrap();
        assert(found@.contains(stacked[stacked.len() - 1]));
        assert(stacked =~= stack@.push(node));
        let ghost popped = stack@;
        let ghost at = found@;
        let previous = neighbors_of(&adjacency, node);
        for i in 0..previous.len()
            invariant
                inner == induced(live@, edges@),
                forall|a: u64, b: u64| #[trigger]
                    turned@.contains((a, b)) <==> edges@.contains((b, a)),
                forall|to: u64|
                    #![trigger previous@.contains(to)]
                    previous@.contains(to) <==> induced(live@, turned@).contains((node, to)),
                at.contains(node),
                at.subset_of(found@),
                forall|j: int| 0 <= j < i ==> found@.contains(#[trigger] previous@[j]),
                goals@.subset_of(found@),
                forall|j: int| 0 <= j < stack@.len() ==> found@.contains(#[trigger] stack@[j]),
                forall|x: u64| #[trigger]
                    found@.contains(x) ==> leads_into(inner, goals@, x),
                forall|x: u64|
                    found@.contains(x) && !at.contains(x) ==> #[trigger] stack@.contains(x),
                forall|x: u64| popped.contains(x) ==> #[trigger] stack@.contains(x),
                unvisited(found@) <= unvisited(at),
                found@ == at ==> stack@ == popped,
                found@ != at ==> unvisited(found@) < unvisited(at),
        {
            let candidate = previous[i];
            proof {
                assert(previous@.contains(candidate));
                assert(turned@.contains((node, candidate)));
                assert(inner.contains((candidate, node)));
                lemma_leads_into(inner, goals@, node, candidate);
            }
            if !found.contains(&candidate) {
                let ghost stack_before = stack@;
                let ghost found_before = found@;
                proof {
                    lemma_unvisited_insert(found@, candidate);
                    assert(!at.contains(candidate));
                }
                found.insert(candidate);
                stack.push(candidate);
                assert(found@.contains(candidate));
                assert(stack@[stack@.len() - 1] == candidate);
                assert forall|x: u64| stack_before.contains(x) implies #[trigger] stack@.contains(x) by {
                    let k = choose|k: int| 0 <= k < stack_before.len() && stack_before[k] == x;
                    assert(stack@[k] == x);
                }
                assert forall|x: u64|
                    found@.contains(x) && !at.contains(x) implies #[trigger] stack@.contains(x) by {
                    if x != candidate {
                        assert(found_before.contains(x));
                        assert(stack_before.contains(x));
                    }
                }
                assert forall|x: u64| popped.contains(x) implies #[trigger] stack@.contains(x) by {
                    assert(stack_before.contains(x));
                }
            }
        }
        assert forall|x: u64, y: u64|
            found@.contains(x) && !stack@.contains(x) && #[trigger] inner.contains(
                (y, x),
            ) implies found@.contains(y) by {
            assert(at.contains(x));
            if x == node {
                assert(turned@.contains((x, y)));
                assert(previous@.contains(y));
                let k = choose|k: int| 0 <= k < previous@.len() && previous@[k] == y;
                assert(found@.contains(previous@[k]));
            } else {
                assert(!stacked.contains(x)) by {
                    if stacked.contains(x) {
                        let k = choose|k: int| 0 <= k < stacked.len() && stacked[k] == x;
                        assert(popped[k] == x);
                        assert(popped.contains(x));
                    }
                }
            }
        }
    }
    proof {
        assert forall|x: u64| #[trigger] found@.contains(x) <==> leads_into(inner, goals@, x) by {
            if leads_into(inner, goals@, x) {
                lemma_leads_into_closed(inner, goals@, found@, x);
            }
        }
    }
    found
}

/// Keeps the nodes from which a path over live components leads to a component
/// with a fixed member. Where no component has one, all is kept.
pub fn retain_sccs_with_path_to_fixed(
    nodes: &mut BTreeSet<u64>,
    edges: &mut BTreeSet<(u64, u64)>,
    fixed_txs: &BTreeSet<u64>,
    pending_txs: &BTreeSet<u64>,
)
    ensures
        final(nodes)@ == retained_nodes(old(nodes)@, old(edges)@, fixed_txs@, pending_txs@),
        final(edges)@ == retained_edges(old(nodes)@, old(edges)@, fixed_txs@, pending_txs@),
{
    let ghost all = nodes@;
    let ghost links = edges@;
    let sccs = tarjan_scc(nodes, edges);
    let mut anchored: BTreeSet<u64> = BTreeSet::new();
    let mut live: BTreeSet<u64> = BTreeSet::new();
    for c in 0..sccs.len()
        invariant
            lists_components(sccs@, all, induced(all, links)),
            forall|x: u64| #[trigger]
                anchored@.contains(x) <==> (exists|d: int| d < c && #[trigger] in_scc(sccs@, d, x))
                    && component_meets(all, links, fixed_txs@, x),
            forall|x: u64| #[trigger]
                live@.contains(x) <==> (exists|d: int| d < c && #[trigger] in_scc(sccs@, d, x))
                    && live_nodes(all, links, fixed_txs@, pending_txs@).contains(x),
    {
        let scc = &sccs[c];
        let ghost anchored_before = anchored@;
        let ghost live_before = live@;
        let has_fixed = meets(scc, fixed_txs);
        let has_pending = meets(scc, pending_txs);
        proof {
            assert forall|x: u64| scc@.contains(x) implies (component_meets(
                all,
                links,
                fixed_txs@,
                x,
            ) <==> has_fixed) by {
                lemma_meets(sccs@, all, links, fixed_txs@, c as int, x);
            }
            assert forall|x: u64| scc@.contains(x) implies (component_meets(
                all,
                links,
                pending_txs@,
                x,
            ) <==> has_pending) by {
                lemma_meets(sccs@, all, links, pending_txs@, c as int, x);
            }
        }
        if has_fixed {
            add_all(&mut anchored, scc);
        }
        if has_fixed || has_pending {
            add_all(&mut live, scc);
        }
        proof {
            assert forall|x: u64|
                (exists|d: int| d < c + 1 && #[trigger] in_scc(sccs@, d, x)) <==> (exists|d: int|
                    d < c && #[trigger] in_scc(sccs@, d, x)) || scc@.contains(x) by {
                if scc@.contains(x) {
                    assert(in_scc(sccs@, c as int, x));
                }
            }
            assert forall|x: u64| #[trigger] scc@.to_set().contains(x) <==> scc@.contains(x) by {}
        }
    }
    if anchored.is_empty() {
        assert(all.disjoint(fixed_txs@)) by {
            assert forall|x: u64| all.contains(x) implies !fixed_txs@.contains(x) by {
                let d = choose|d: int| in_scc(sccs@, d, x);
                assert(in_scc(sccs@, d, x));
                lemma_reaches_self(induced(all, links), x);
                if fixed_txs@.contains(x) {
                    assert(same_component(all, links, x, x));
                    assert(component_meets(all, links, fixed_txs@, x));
                    assert(anchored@.contains(x));
                }
            }
        }
        return ;
    }
    proof {
        let x = choose|x: u64| anchored@.contains(x);
        assert(exists|x: u64| anchored@.contains(x)) by {
            if forall|x: u64| !anchored@.contains(x) {
                assert(anchored@ =~= Set::empty());
            }
        }
        assert(component_meets(all, links, fixed_txs@, x));
        assert(!all.disjoint(fixed_txs@));
        assert forall|x: u64| #[trigger]
            live_nodes(all, links, fixed_txs@, pending_txs@).contains(x) implies live@.contains(x) by {
            assert(all.contains(x));
            let d = choose|d: int| in_scc(sccs@, d, x);
            assert(d < sccs@.len() && in_scc(sccs@, d, x));
        }
        assert(live@ =~= live_nodes(all, links, fixed_txs@, pending_txs@));
        assert forall|x: u64| #[trigger]
            component_meets(all, links, fixed_txs@, x) implies anchored@.contains(x) by {
            assert(all.contains(x));
            let d = choose|d: int| in_scc(sccs@, d, x);
            assert(d < sccs@.len() && in_scc(sccs@, d, x));
        }
    }
    let kept = reaching(&live, edges, &anchored);
    proof {
        reveal(leads_into);
        let inner = induced(live@, links);
        assert forall|x: u64| #[trigger] kept@.contains(x) <==> leads_to_fixed(
            all,
            links,
            fixed_txs@,
            pending_txs@,
            x,
        ) by {
            if kept@.contains(x) {
                let m = choose|m: u64| anchored@.contains(m) && #[trigger] reaches(inner, x, m);
                assert(component_meets(all, links, fixed_txs@, m));
            }
            if leads_to_fixed(all, links, fixed_txs@, pending_txs@, x) {
                let m = choose|m: u64|
                    component_meets(all, links, fixed_txs@, m) && #[trigger] reaches(inner, x, m);
                assert(anchored@.contains(m));
            }
        }
    }
    let listed = list_ids(nodes);
    let mut left: BTreeSet<u64> = BTreeSet::new();
    for i in 0..listed.len()
        invariant
            left@ == listed@.take(i as int).to_set().intersect(kept@),
    {
        let ghost seen = listed@.take(i as int);
        proof {
            assert(listed@.take(i + 1) =~= seen.push(listed@[i as int]));
            seen.lemma_push_to_set_commute(listed@[i as int]);
        }
        if kept.contains(&listed[i]) {
            left.insert(listed[i]);
        }
        assert(left@ =~= seen.to_set().insert(listed@[i as int]).intersect(kept@));
    }
    proof {
        assert(listed@.take(listed@.len() as int) =~= listed@);
        assert(left@ =~= retained_nodes(all, links, fixed_txs@, pending_txs@));
    }
    let kept_edges = restrict_edges(&left, edges);
    *edges = kept_edges;
    *nodes = left;
}

/// A listed component meets a set exactly if one of its members does.
proof fn lemma_meets(
    sccs: Seq<Vec<u64>>,
    nodes: Set<u64>,
    edges: Set<(u64, u64)>,
    set: Set<u64>,
    c: int,
    x: u64,
)
    requires
        lists_components(sccs, nodes, induced(nodes, edges)),
        in_scc(sccs, c, x),
    ensures
        component_meets(nodes, edges, set, x) <==> exists|m: u64|
            sccs[c]@.contains(m) && #[trigger] set.contains(m),
{
    if component_meets(nodes, edges, set, x) {
        let m = choose|m: u64| set.contains(m) && #[trigger] same_component(nodes, edges, x, m);
        lemma_listed_together(sccs, nodes, edges, c, x, m);
    }
    if exists|m: u64| sccs[c]@.contains(m) && #[trigger] set.contains(m) {
        let m = choose|m: u64| sccs[c]@.contains(m) && #[trigger] set.contains(m);
        assert(in_scc(sccs, c, m));
        lemma_listed_together(sccs, nodes, edges, c, x, m);
    }
}

} // verus!
