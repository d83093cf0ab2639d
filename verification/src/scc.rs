//! Strongly connected components, by Tarjan's depth-first search.

use std::collections::{BTreeMap, BTreeSet};
use vstd::prelude::*;
use crate::graph::{
    adjacency_edges, build_adjacency, induced, lemma_reaches_closed, lemma_reaches_edge,
    lemma_reaches_self, lemma_reaches_trans, neighbors_of, reaches, strongly_connected,
};
use crate::ordered::{ascending, list_ids};

verus! {

/// `x` is listed in component `c`.
pub open spec fn in_scc(sccs: Seq<Vec<u64>>, c: int, x: u64) -> bool {
    0 <= c < sccs.len() && sccs[c]@.contains(x)
}

/// `sccs` lists the strongly connected components of the graph: each node in
/// exactly one component, together with the nodes that it shares a cycle with.
/// Members are in ascending order, and no edge leads to a later component.
pub open spec fn lists_components(
    sccs: Seq<Vec<u64>>,
    nodes: Set<u64>,
    edges: Set<(u64, u64)>,
) -> bool {
    &&& forall|c: int| 0 <= c < sccs.len() ==> ascending((#[trigger] sccs[c])@) && sccs[c]@.len() > 0
    &&& forall|x: u64| #[trigger] nodes.contains(x) <==> exists|c: int| in_scc(sccs, c, x)
    &&& forall|c: int, x: u64, y: u64|
        #![trigger in_scc(sccs, c, x), in_scc(sccs, c, y)]
        in_scc(sccs, c, x) ==> (in_scc(sccs, c, y) <==> strongly_connected(edges, x, y))
    &&& forall|c: int, d: int, x: u64|
        #[trigger] in_scc(sccs, c, x) && #[trigger] in_scc(sccs, d, x) ==> c == d
    &&& forall|c: int, d: int, x: u64, y: u64|
        #[trigger] in_scc(sccs, c, x) && #[trigger] in_scc(sccs, d, y) && edges.contains((x, y))
            ==> d <= c
}

/// The state of a depth-first search.
struct Search {
    next_index: usize,
    indices: BTreeMap<u64, usize>,
    stack: Vec<u64>,
    on_stack: BTreeSet<u64>,
    sccs: Vec<Vec<u64>>,
}

impl Search {
    /// `x` was visited, and its component has been emitted.
    spec fn done(self, x: u64) -> bool {
        self.indices@.contains_key(x) && !self.on_stack@.contains(x)
    }

    /// Indices are handed out in the order of the visits, and the stack holds
    /// visited nodes in that order.
    spec fn numbered(self, nodes: Set<u64>) -> bool {
        &&& self.indices@.dom().subset_of(nodes)
        &&& self.next_index == self.indices@.len()
        &&& forall|x: u64| #[trigger]
            self.indices@.contains_key(x) ==> self.indices@[x] < self.next_index
        &&& self.stack@.no_duplicates()
        &&& self.stack@.to_set() == self.on_stack@
        &&& forall|i: int|
            0 <= i < self.stack@.len() ==> self.indices@.contains_key(#[trigger] self.stack@[i])
        &&& forall|i: int, j: int|
            0 <= i < j < self.stack@.len() ==> self.indices@[#[trigger] self.stack@[i]]
                < self.indices@[#[trigger] self.stack@[j]]
    }

    /// A node that is no longer on the search path has only visited
    /// successors, and an emitted node only emitted ones.
    spec fn explored(self, edges: Set<(u64, u64)>, path: Set<u64>) -> bool {
        &&& forall|x: u64, y: u64| #[trigger]
            edges.contains((x, y)) && self.indices@.contains_key(x) && !path.contains(x)
                ==> self.indices@.contains_key(y)
        &&& forall|x: u64, y: u64| #[trigger]
            edges.contains((x, y)) && self.done(x) ==> self.done(y)
    }

    /// The stack entry at `i` reaches a node of the search path at or below it.
    spec fn anchored(self, edges: Set<(u64, u64)>, path: Set<u64>, i: int) -> bool {
        exists|k: int|
            0 <= k <= i && path.contains(#[trigger] self.stack@[k]) && reaches(
                edges,
                self.stack@[i],
                self.stack@[k],
            )
    }

    /// Stack entries reach all later entries, and each leads back to the search path.
    spec fn linked(self, edges: Set<(u64, u64)>, path: Set<u64>) -> bool {
        &&& forall|i: int, j: int|
            0 <= i <= j < self.stack@.len() ==> #[trigger] reaches(
                edges,
                self.stack@[i],
                self.stack@[j],
            )
        &&& forall|i: int| 0 <= i < self.stack@.len() ==> #[trigger] self.anchored(edges, path, i)
    }

    /// What has been emitted are components.
    spec fn emitted(self, edges: Set<(u64, u64)>) -> bool {
        lists_components(self.sccs@, Set::new(|x: u64| self.done(x)), edges)
    }

    spec fn wf(self, nodes: Set<u64>, edges: Set<(u64, u64)>, path: Set<u64>) -> bool {
        &&& self.numbered(nodes)
        &&& path.subset_of(self.on_stack@)
        &&& self.explored(edges, path)
        &&& self.linked(edges, path)
        &&& self.emitted(edges)
    }

    /// `self` continues the search that stood at `before`.
    spec fn extends(self, before: Search) -> bool {
        &&& forall|x: u64| #[trigger]
            before.indices@.contains_key(x) ==> self.indices@.contains_key(x) && self.indices@[x]
                == before.indices@[x]
        &&& before.stack@.len() <= self.stack@.len()
        &&& forall|i: int| 0 <= i < before.stack@.len() ==> self.stack@[i] == #[trigger] before.stack@[i]
    }

    /// `low` is the index of a stack entry that `node` reaches.
    spec fn low_reached(self, edges: Set<(u64, u64)>, node: u64, low: usize) -> bool {
        exists|k: int|
            0 <= k < self.stack@.len() && self.indices@[#[trigger] self.stack@[k]] == low && reaches(
                edges,
                node,
                self.stack@[k],
            )
    }

    /// No edge from an entry at or above `from` to an entry below `base` leads
    /// below index `low`.
    spec fn low_bounds(self, edges: Set<(u64, u64)>, from: int, base: int, low: usize) -> bool {
        forall|i: int, k: int|
            from <= i < self.stack@.len() && 0 <= k < base && #[trigger] edges.contains(
                (self.stack@[i], self.stack@[k]),
            ) ==> low <= self.indices@[self.stack@[k]]
    }
}

/// Visiting a new node that the whole search path reaches.
proof fn lemma_visit(
    before: Search,
    after: Search,
    nodes: Set<u64>,
    edges: Set<(u64, u64)>,
    path: Set<u64>,
    node: u64,
)
    requires
        before.wf(nodes, edges, path),
        nodes.contains(node),
        !before.indices@.contains_key(node),
        forall|g: u64| #[trigger] path.contains(g) ==> reaches(edges, g, node),
        after.indices@ == before.indices@.insert(node, before.next_index),
        after.next_index == before.next_index + 1,
        after.stack@ == before.stack@.push(node),
        after.on_stack@ == before.on_stack@.insert(node),
        after.sccs@ == before.sccs@,
    ensures
        after.wf(nodes, edges, path.insert(node)),
        after.extends(before),
{
    let n = before.stack@.len();
    before.stack@.lemma_push_to_set_commute(node);
    assert(!before.stack@.contains(node)) by {
        if before.stack@.contains(node) {
            let i = choose|i: int| 0 <= i < n && before.stack@[i] == node;
            assert(before.indices@.contains_key(before.stack@[i]));
        }
    }
    assert(after.numbered(nodes));
    assert forall|x: u64| after.done(x) == before.done(x) by {}
    assert(Set::new(|x: u64| after.done(x)) =~= Set::new(|x: u64| before.done(x)));
    assert(after.emitted(edges));
    assert(after.explored(edges, path.insert(node)));
    assert forall|i: int, j: int| 0 <= i <= j < after.stack@.len() implies #[trigger] reaches(
        edges,
        after.stack@[i],
        after.stack@[j],
    ) by {
        lemma_reaches_self(edges, node);
        if j < n {
            assert(reaches(edges, before.stack@[i], before.stack@[j]));
        } else if i < n {
            assert(before.anchored(edges, path, i));
            let k = choose|k: int|
                0 <= k <= i && path.contains(#[trigger] before.stack@[k]) && reaches(
                    edges,
                    before.stack@[i],
                    before.stack@[k],
                );
            lemma_reaches_trans(edges, before.stack@[i], before.stack@[k], node);
        }
    }
    assert forall|i: int| 0 <= i < after.stack@.len() implies #[trigger] after.anchored(
        edges,
        path.insert(node),
        i,
    ) by {
        if i < n {
            assert(before.anchored(edges, path, i));
            let k = choose|k: int|
                0 <= k <= i && path.contains(#[trigger] before.stack@[k]) && reaches(
                    edges,
                    before.stack@[i],
                    before.stack@[k],
                );
            assert(after.stack@[k] == before.stack@[k]);
        } else {
            lemma_reaches_self(edges, node);
            assert(after.stack@[i] == node);
        }
    }
}

/// A fully explored node that reaches an entry below it leaves the search
/// path and stays on the stack.
proof fn lemma_retreat(
    state: Search,
    nodes: Set<u64>,
    edges: Set<(u64, u64)>,
    path: Set<u64>,
    base: int,
    low: usize,
)
    requires
        0 <= base < state.stack@.len(),
        !path.contains(state.stack@[base]),
        state.wf(nodes, edges, path.insert(state.stack@[base])),
        forall|y: u64| #[trigger]
            edges.contains((state.stack@[base], y)) ==> state.indices@.contains_key(y),
        state.low_reached(edges, state.stack@[base], low),
        low < state.indices@[state.stack@[base]],
    ensures
        state.wf(nodes, edges, path),
{
    let node = state.stack@[base];
    let wide = path.insert(node);
    let m = choose|m: int|
        0 <= m < state.stack@.len() && state.indices@[#[trigger] state.stack@[m]] == low && reaches(
            edges,
            node,
            state.stack@[m],
        );
    assert(m < base);
    assert(state.anchored(edges, wide, m));
    let mk = choose|k: int|
        0 <= k <= m && wide.contains(#[trigger] state.stack@[k]) && reaches(
            edges,
            state.stack@[m],
            state.stack@[k],
        );
    assert(state.stack@[mk] != node);
    assert forall|i: int| 0 <= i < state.stack@.len() implies #[trigger] state.anchored(
        edges,
        path,
        i,
    ) by {
        assert(state.anchored(edges, wide, i));
        let k = choose|k: int|
            0 <= k <= i && wide.contains(#[trigger] state.stack@[k]) && reaches(
                edges,
                state.stack@[i],
                state.stack@[k],
            );
        if state.stack@[k] == node {
            lemma_reaches_trans(edges, state.stack@[i], node, state.stack@[m]);
            lemma_reaches_trans(edges, state.stack@[i], state.stack@[m], state.stack@[mk]);
            assert(k == base);
            assert(path.contains(state.stack@[mk]));
        }
    }
}

/// When no edge leads from the entries at or above `base` to those below, these
/// entries are one component.
proof fn lemma_component(
    state: Search,
    nodes: Set<u64>,
    edges: Set<(u64, u64)>,
    path: Set<u64>,
    base: int,
    x: u64,
    y: u64,
)
    requires
        0 <= base < state.stack@.len(),
        state.wf(nodes, edges, path.insert(state.stack@[base])),
        forall|k: int| base < k < state.stack@.len() ==> !path.contains(#[trigger] state.stack@[k]),
        forall|z: u64| #[trigger]
            edges.contains((state.stack@[base], z)) ==> state.indices@.contains_key(z),
        forall|i: int, k: int|
            base <= i < state.stack@.len() && 0 <= k < base ==> !#[trigger] edges.contains(
                (state.stack@[i], state.stack@[k]),
            ),
        state.stack@.skip(base).contains(x),
    ensures
        state.stack@.skip(base).contains(y) <==> strongly_connected(edges, x, y),
{
    let node = state.stack@[base];
    let top = state.stack@.skip(base);
    let inside = Set::new(|z: u64| top.contains(z) || state.done(z));
    assert forall|u: u64, v: u64|
        inside.contains(u) && #[trigger] edges.contains((u, v)) implies inside.contains(v) by {
        if top.contains(u) {
            let i = choose|i: int| 0 <= i < top.len() && top[i] == u;
            assert(state.stack@[base + i] == u);
            assert(state.indices@.contains_key(v));
            if !state.done(v) {
                assert(state.stack@.to_set().contains(v));
                let k = choose|k: int| 0 <= k < state.stack@.len() && state.stack@[k] == v;
                assert(k >= base) by {
                    if k < base {
                        assert(edges.contains((state.stack@[base + i], state.stack@[k])));
                    }
                }
                assert(top[k - base] == v);
            }
        }
    }
    let finished = Set::new(|z: u64| state.done(z));
    assert forall|z: u64| top.contains(z) implies reaches(edges, z, node) && reaches(edges, node, z)
        && !state.done(z) by {
        let i = choose|i: int| 0 <= i < top.len() && top[i] == z;
        assert(state.stack@[base + i] == z);
        assert(state.stack@.to_set().contains(z));
        assert(reaches(edges, state.stack@[base], state.stack@[base + i]));
        assert(state.anchored(edges, path.insert(node), base + i));
        let k = choose|k: int|
            0 <= k <= base + i && path.insert(node).contains(#[trigger] state.stack@[k]) && reaches(
                edges,
                state.stack@[base + i],
                state.stack@[k],
            );
        lemma_reaches_closed(edges, inside, z, state.stack@[k]);
        assert(state.stack@.to_set().contains(state.stack@[k]));
        assert(top.contains(state.stack@[k]));
        let m = choose|m: int| 0 <= m < top.len() && top[m] == state.stack@[k];
        assert(state.stack@[base + m] == state.stack@[k]);
        assert(base + m == k);
        assert(k == base);
    }
    if top.contains(y) {
        lemma_reaches_trans(edges, x, node, y);
        lemma_reaches_trans(edges, y, node, x);
    }
    if strongly_connected(edges, x, y) {
        lemma_reaches_closed(edges, inside, x, y);
        if state.done(y) {
            lemma_reaches_closed(edges, finished, y, x);
        }
    }
}

/// Emitting the entries at or above `base` as a component.
proof fn lemma_emit(
    before: Search,
    after: Search,
    nodes: Set<u64>,
    edges: Set<(u64, u64)>,
    path: Set<u64>,
    base: int,
    component: Vec<u64>,
)
    requires
        0 <= base < before.stack@.len(),
        before.wf(nodes, edges, path.insert(before.stack@[base])),
        !path.contains(before.stack@[base]),
        forall|k: int|
            base < k < before.stack@.len() ==> !path.contains(#[trigger] before.stack@[k]),
        forall|z: u64| #[trigger]
            edges.contains((before.stack@[base], z)) ==> before.indices@.contains_key(z),
        forall|i: int, k: int|
            base <= i < before.stack@.len() && 0 <= k < base ==> !#[trigger] edges.contains(
                (before.stack@[i], before.stack@[k]),
            ),
        ascending(component@),
        component@.to_set() == before.stack@.skip(base).to_set(),
        after.indices@ == before.indices@,
        after.next_index == before.next_index,
        after.stack@ == before.stack@.take(base),
        after.on_stack@ == after.stack@.to_set(),
        after.sccs@ == before.sccs@.push(component),
    ensures
        after.wf(nodes, edges, path),
{
    let node = before.stack@[base];
    let top = before.stack@.skip(base);
    let wide = path.insert(node);
    assert forall|x: u64| top.contains(x) <==> component@.contains(x) by {
        assert(top.to_set().contains(x) <==> component@.to_set().contains(x));
    }
    assert(top[0] == node);
    assert(top.contains(node));
    assert(component@.contains(node));
    assert forall|x: u64| before.stack@.contains(x) <==> after.stack@.contains(x) || top.contains(
        x,
    ) by {
        if before.stack@.contains(x) {
            let k = choose|k: int| 0 <= k < before.stack@.len() && before.stack@[k] == x;
            if k < base {
                assert(after.stack@[k] == x);
            } else {
                assert(top[k - base] == x);
            }
        }
        if after.stack@.contains(x) {
            let k = choose|k: int| 0 <= k < after.stack@.len() && after.stack@[k] == x;
            assert(before.stack@[k] == x);
        }
        if top.contains(x) {
            let k = choose|k: int| 0 <= k < top.len() && top[k] == x;
            assert(before.stack@[base + k] == x);
        }
    }
    assert forall|x: u64| !(after.stack@.contains(x) && top.contains(x)) by {
        if after.stack@.contains(x) && top.contains(x) {
            let k = choose|k: int| 0 <= k < after.stack@.len() && after.stack@[k] == x;
            let m = choose|m: int| 0 <= m < top.len() && top[m] == x;
            assert(before.stack@[k] == before.stack@[base + m]);
        }
    }
    assert forall|x: u64| #[trigger] before.on_stack@.contains(x) <==> before.stack@.contains(x) by {
        assert(before.stack@.to_set().contains(x) <==> before.stack@.contains(x));
    }
    assert forall|x: u64| #[trigger] after.on_stack@.contains(x) <==> after.stack@.contains(x) by {
        assert(after.stack@.to_set().contains(x) <==> after.stack@.contains(x));
    }
    assert forall|x: u64| top.contains(x) implies before.indices@.contains_key(x) by {
        let k = choose|k: int| 0 <= k < top.len() && top[k] == x;
        assert(before.indices@.contains_key(before.stack@[base + k]));
    }
    assert forall|x: u64| #[trigger] after.done(x) <==> before.done(x) || top.contains(x) by {}
    assert(after.numbered(nodes));
    assert(path.subset_of(after.on_stack@)) by {
        assert forall|x: u64| path.contains(x) implies after.on_stack@.contains(x) by {
            assert(before.on_stack@.contains(x));
            if top.contains(x) {
                let k = choose|k: int| 0 <= k < top.len() && top[k] == x;
                assert(before.stack@[base + k] == x);
            }
        }
    }
    assert forall|x: u64, y: u64| #[trigger]
        edges.contains((x, y)) && after.done(x) implies after.done(y) by {
        if top.contains(x) {
            let i = choose|i: int| 0 <= i < top.len() && top[i] == x;
            assert(before.stack@[base + i] == x);
            assert(before.indices@.contains_key(y));
            if after.stack@.contains(y) {
                let k = choose|k: int| 0 <= k < after.stack@.len() && after.stack@[k] == y;
                assert(before.stack@[k] == y);
                assert(edges.contains((before.stack@[base + i], before.stack@[k])));
            }
        }
    }
    assert(after.explored(edges, path));
    assert forall|i: int| 0 <= i < after.stack@.len() implies #[trigger] after.anchored(
        edges,
        path,
        i,
    ) by {
        assert(before.anchored(edges, wide, i));
        let k = choose|k: int|
            0 <= k <= i && wide.contains(#[trigger] before.stack@[k]) && reaches(
                edges,
                before.stack@[i],
                before.stack@[k],
            );
        assert(before.stack@[k] != node);
        assert(after.stack@[k] == before.stack@[k]);
    }
    assert forall|i: int, j: int| 0 <= i <= j < after.stack@.len() implies #[trigger] reaches(
        edges,
        after.stack@[i],
        after.stack@[j],
    ) by {
        assert(reaches(edges, before.stack@[i], before.stack@[j]));
    }
    assert(after.linked(edges, path));
    let n = before.sccs@.len() as int;
    let old_done = Set::new(|x: u64| before.done(x));
    let new_done = Set::new(|x: u64| after.done(x));
    assert forall|c: int, x: u64| #[trigger]
        in_scc(after.sccs@, c, x) <==> in_scc(before.sccs@, c, x) || (c == n && top.contains(x)) by {}
    assert forall|c: int, x: u64| #[trigger] in_scc(before.sccs@, c, x) implies before.done(x) by {
        assert(old_done.contains(x));
    }
    assert forall|x: u64| #[trigger]
        new_done.contains(x) <==> exists|c: int| in_scc(after.sccs@, c, x) by {
        if before.done(x) {
            assert(old_done.contains(x));
            let c = choose|c: int| in_scc(before.sccs@, c, x);
            assert(in_scc(after.sccs@, c, x));
        }
        if top.contains(x) {
            assert(in_scc(after.sccs@, n, x));
        }
    }
    assert forall|c: int, x: u64, y: u64|
        #![trigger in_scc(after.sccs@, c, x), in_scc(after.sccs@, c, y)]
        in_scc(after.sccs@, c, x) implies (in_scc(after.sccs@, c, y) <==> strongly_connected(
        edges,
        x,
        y,
    )) by {
        if c == n {
            lemma_component(before, nodes, edges, path, base, x, y);
        } else {
            assert(in_scc(before.sccs@, c, x));
            assert(in_scc(before.sccs@, c, y) <==> in_scc(after.sccs@, c, y));
        }
    }
    assert forall|c: int, d: int, x: u64, y: u64| #[trigger]
        in_scc(after.sccs@, c, x) && #[trigger] in_scc(after.sccs@, d, y) && edges.contains(
            (x, y),
        ) implies d <= c by {
        if c < n {
            assert(in_scc(before.sccs@, c, x));
            assert(before.done(y));
            assert(in_scc(before.sccs@, d, y));
        }
    }
    assert forall|c: int, d: int, x: u64| #[trigger]
        in_scc(after.sccs@, c, x) && #[trigger] in_scc(after.sccs@, d, x) implies c == d by {
        assert(before.done(x) ==> !top.contains(x));
        if c < n && d < n {
            assert(in_scc(before.sccs@, c, x) && in_scc(before.sccs@, d, x));
        }
    }
    assert(lists_components(after.sccs@, new_done, edges));
}

impl Search {
    /// Visits `node` and everything that it reaches and that has not been
    /// visited, and returns the lowest index that the search of `node` met.
    fn strong_connect(
        &mut self,
        node: u64,
        adjacency: &BTreeMap<u64, BTreeSet<u64>>,
        Ghost(nodes): Ghost<Set<u64>>,
        Ghost(path): Ghost<Set<u64>>,
    ) -> (low: usize)
        requires
            old(self).wf(nodes, adjacency_edges(adjacency@), path),
            nodes.finite(),
            nodes.contains(node),
            forall|x: u64, y: u64| #[trigger]
                adjacency_edges(adjacency@).contains((x, y)) ==> nodes.contains(x)
                    && nodes.contains(y),
            !old(self).indices@.contains_key(node),
            forall|g: u64| #[trigger]
                path.contains(g) ==> reaches(adjacency_edges(adjacency@), g, node),
        ensures
            final(self).wf(nodes, adjacency_edges(adjacency@), path),
            final(self).extends(*old(self)),
            final(self).indices@.contains_key(node),
            final(self).indices@[node] == old(self).next_index,
            low <= old(self).next_index,
            final(self).done(node) ==> low == old(self).next_index,
            !final(self).done(node) ==> final(self).low_reached(
                adjacency_edges(adjacency@),
                node,
                low,
            ),
            final(self).low_bounds(
                adjacency_edges(adjacency@),
                old(self).stack@.len() as int,
                old(self).stack@.len() as int,
                low,
            ),
        decreases nodes.len() - old(self).indices@.len(),
    {
        let ghost edges = adjacency_edges(adjacency@);
        let ghost entry = *self;
        let ghost base = self.stack@.len() as int;
        let index = self.next_index;
        self.indices.insert(node, index);
        assert(self.indices@.len() == entry.indices@.len() + 1);
        assert(self.indices.len() == self.indices@.len());
        self.next_index = index + 1;
        self.stack.push(node);
        self.on_stack.insert(node);
        let ghost wide = path.insert(node);
        proof {
            lemma_visit(entry, *self, nodes, edges, path, node);
            assert(!path.contains(node)) by {
                if path.contains(node) {
                    assert(entry.on_stack@.contains(node));
                    assert(entry.stack@.to_set().contains(node));
                    let i = choose|i: int| 0 <= i < entry.stack@.len() && entry.stack@[i] == node;
                    assert(entry.indices@.contains_key(entry.stack@[i]));
                }
            }
        }
        let ghost visited = *self;
        let neighbors = neighbors_of(adjacency, node);
        let mut low: usize = index;
        proof {
            lemma_reaches_self(edges, node);
            assert(self.stack@[base] == node);
        }
        for i in 0..neighbors.len()
            invariant
                entry == *old(self),
                edges == adjacency_edges(adjacency@),
                nodes.finite(),
                nodes.contains(node),
                forall|x: u64, y: u64| #[trigger]
                    edges.contains((x, y)) ==> nodes.contains(x) && nodes.contains(y),
                forall|to: u64|
                    #![trigger neighbors@.contains(to)]
                    neighbors@.contains(to) <==> edges.contains((node, to)),
                base == entry.stack@.len(),
                index == entry.next_index,
                wide == path.insert(node),
                forall|g: u64| #[trigger] path.contains(g) ==> reaches(edges, g, node),
                visited.extends(entry),
                visited.stack@ == entry.stack@.push(node),
                visited.indices@ == entry.indices@.insert(node, index),
                !entry.indices@.contains_key(node),
                self.wf(nodes, edges, wide),
                self.extends(visited),
                self.stack@[base] == node,
                self.indices@.contains_key(node),
                self.indices@[node] == index,
                forall|j: int|
                    0 <= j < i ==> self.indices@.contains_key(#[trigger] neighbors@[j]),
                low <= index,
                self.low_reached(edges, node, low),
                self.low_bounds(edges, base + 1, base, low),
                forall|j: int, k: int|
                    0 <= j < i && 0 <= k < base && #[trigger] neighbors@[j]
                        == #[trigger] self.stack@[k] ==> low <= self.indices@[self.stack@[k]],
        {
            let next = neighbors[i as usize];
            assert(neighbors@.contains(next));
            assert(edges.contains((node, next)));
            let ghost at = *self;
            proof {
                lemma_reaches_edge(edges, node, next);
            }
            if !self.indices.contains_key(&next) {
                proof {
                    assert forall|g: u64| #[trigger] wide.contains(g) implies reaches(
                        edges,
                        g,
                        next,
                    ) by {
                        if path.contains(g) {
                            lemma_reaches_trans(edges, g, node, next);
                        }
                    }
                    assert(entry.indices@.dom().len() < self.indices@.dom().len()) by {
                        assert(entry.indices@.dom().insert(node).subset_of(self.indices@.dom()));
                        vstd::set_lib::lemma_len_subset(
                            entry.indices@.dom().insert(node),
                            self.indices@.dom(),
                        );
                    }
                    vstd::set_lib::lemma_len_subset(self.indices@.dom(), nodes);
                }
                let next_low = self.strong_connect(next, adjacency, Ghost(nodes), Ghost(wide));
                proof {
                    let k = choose|k: int|
                        0 <= k < at.stack@.len() && at.indices@[#[trigger] at.stack@[k]] == low
                            && reaches(edges, node, at.stack@[k]);
                    assert(self.stack@[k] == at.stack@[k]);
                    assert(self.low_reached(edges, node, low));
                    if next_low < low {
                        let m = choose|m: int|
                            0 <= m < self.stack@.len() && self.indices@[#[trigger] self.stack@[m]]
                                == next_low && reaches(edges, next, self.stack@[m]);
                        lemma_reaches_trans(edges, node, next, self.stack@[m]);
                        assert(self.low_reached(edges, node, next_low));
                    }
                }
                if next_low < low {
                    low = next_low;
                }
                proof {
                    assert forall|a: int, k: int|
                        base + 1 <= a < self.stack@.len() && 0 <= k < base && #[trigger] edges.contains(
                            (self.stack@[a], self.stack@[k]),
                        ) implies low <= self.indices@[self.stack@[k]] by {
                        assert(self.stack@[k] == at.stack@[k]);
                        if a < at.stack@.len() {
                            assert(self.stack@[a] == at.stack@[a]);
                            assert(edges.contains((at.stack@[a], at.stack@[k])));
                        }
                    }
                    assert forall|j: int, k: int|
                        0 <= j < i + 1 && 0 <= k < base && #[trigger] neighbors@[j]
                            == #[trigger] self.stack@[k] implies low
                        <= self.indices@[self.stack@[k]] by {
                        assert(self.stack@[k] == at.stack@[k]);
                        if j == i {
                            assert(at.indices@.contains_key(at.stack@[k]));
                        }
                    }
                }
            } else if self.on_stack.contains(&next) {
                let next_index = *self.indices.get(&next).unwrap();
                proof {
                    assert(self.stack@.to_set().contains(next));
                    let k = choose|k: int| 0 <= k < self.stack@.len() && self.stack@[k] == next;
                    assert(self.indices@[self.stack@[k]] == next_index);
                    assert(self.low_reached(edges, node, next_index));
                }
                if next_index < low {
                    low = next_index;
                }
            } else {
                assert forall|k: int| 0 <= k < base implies next != #[trigger] self.stack@[k] by {
                    assert(self.stack@.to_set().contains(self.stack@[k]));
                }
            }
        }
        proof {
            assert forall|y: u64| #[trigger] edges.contains((node, y)) implies self.indices@.contains_key(
                y,
            ) by {
                assert(neighbors@.contains(y));
            }
            assert forall|k: int| base < k < self.stack@.len() implies !path.contains(
                #[trigger] self.stack@[k],
            ) by {
                if path.contains(self.stack@[k]) {
                    assert(entry.stack@.to_set().contains(self.stack@[k]));
                    let m = choose|m: int|
                        0 <= m < entry.stack@.len() && entry.stack@[m] == self.stack@[k];
                    assert(visited.stack@[m] == entry.stack@[m]);
                    assert(self.stack@[m] == visited.stack@[m]);
                }
            }
            assert forall|a: int, k: int|
                base <= a < self.stack@.len() && 0 <= k < base && #[trigger] edges.contains(
                    (self.stack@[a], self.stack@[k]),
                ) implies low <= self.indices@[self.stack@[k]] by {
                if a == base {
                    assert(neighbors@.contains(self.stack@[k]));
                    let j = choose|j: int|
                        0 <= j < neighbors@.len() && neighbors@[j] == self.stack@[k];
                }
            }
        }
        let ghost closing = *self;
        if low == index {
            proof {
                assert forall|a: int, k: int|
                    base <= a < self.stack@.len() && 0 <= k < base implies !#[trigger] edges.contains(
                    (self.stack@[a], self.stack@[k]),
                ) by {
                    assert(self.indices@[self.stack@[k]] < self.indices@[self.stack@[base]]);
                }
            }
            let mut members: BTreeSet<u64> = BTreeSet::new();
            let mut open = true;
            assert(closing.stack@.skip(closing.stack@.len() as int).to_set() =~= members@);
            while open
                invariant
                    closing.wf(nodes, edges, wide),
                    0 <= base < closing.stack@.len(),
                    closing.stack@[base] == node,
                    self.indices@ == closing.indices@,
                    self.next_index == closing.next_index,
                    self.sccs@ == closing.sccs@,
                    base <= self.stack@.len() <= closing.stack@.len(),
                    self.stack@ == closing.stack@.take(self.stack@.len() as int),
                    self.on_stack@ == self.stack@.to_set(),
                    members@ == closing.stack@.skip(self.stack@.len() as int).to_set(),
                    open <==> base < self.stack@.len(),
                decreases self.stack@.len(),
            {
                let ghost n = self.stack@.len() as int;
                let x = self.stack.pop().unwrap();
                self.on_stack.remove(&x);
                members.insert(x);
                if x == node {
                    open = false;
                }
                proof {
                    assert(x == closing.stack@[n - 1]);
                    assert(x == node <==> n - 1 == base);
                    assert(self.stack@ =~= closing.stack@.take(n - 1));
                    assert(closing.stack@.take(n) =~= self.stack@.push(x));
                    self.stack@.lemma_push_to_set_commute(x);
                    assert(!self.stack@.contains(x));
                    assert(self.on_stack@ =~= self.stack@.to_set());
                    let tail = closing.stack@.skip(n);
                    assert(closing.stack@.skip(n - 1) =~= seq![x] + tail);
                    assert forall|y: u64| closing.stack@.skip(n - 1).contains(y) <==> y == x
                        || tail.contains(y) by {
                        if tail.contains(y) {
                            let k = choose|k: int| 0 <= k < tail.len() && tail[k] == y;
                            assert((seq![x] + tail)[k + 1] == y);
                        }
                        assert((seq![x] + tail)[0] == x);
                    }
                    assert(members@ =~= closing.stack@.skip(n - 1).to_set());
                }
            }
            let component = list_ids(&members);
            self.sccs.push(component);
            proof {
                assert(self.stack@ =~= closing.stack@.take(base));
                lemma_emit(closing, *self, nodes, edges, path, base, component);
                assert(self.done(node)) by {
                    assert(closing.stack@[base] == node);
                    assert(!self.stack@.contains(node)) by {
                        if self.stack@.contains(node) {
                            let k = choose|k: int|
                                0 <= k < self.stack@.len() && self.stack@[k] == node;
                            assert(closing.stack@[k] == node);
                        }
                    }
                }
            }
        } else {
            proof {
                lemma_retreat(*self, nodes, edges, path, base, low);
            }
        }
        proof {
            assert forall|x: u64| #[trigger] entry.indices@.contains_key(x) implies
                self.indices@.contains_key(x) && self.indices@[x] == entry.indices@[x] by {
                assert(visited.indices@.contains_key(x));
            }
            assert forall|i: int| 0 <= i < entry.stack@.len() implies self.stack@[i]
                == #[trigger] entry.stack@[i] by {
                assert(visited.stack@[i] == entry.stack@[i]);
                assert(closing.stack@[i] == visited.stack@[i]);
            }
            assert(self.extends(entry));
        }
        low
    }
}

/// The strongly connected components of the graph. Edges that leave `nodes`
/// are ignored.
pub(crate) fn tarjan_scc(nodes: &BTreeSet<u64>, edges: &BTreeSet<(u64, u64)>) -> (sccs: Vec<Vec<u64>>)
    ensures
        lists_components(sccs@, nodes@, induced(nodes@, edges@)),
{
    let adjacency = build_adjacency(nodes, edges);
    let ghost inner = induced(nodes@, edges@);
    let sorted_nodes = list_ids(nodes);
    let mut search = Search {
        next_index: 0,
        indices: BTreeMap::new(),
        stack: Vec::new(),
        on_stack: BTreeSet::new(),
        sccs: Vec::new(),
    };
    let ghost nothing = Set::<u64>::empty();
    proof {
        assert(search.stack@.to_set() =~= search.on_stack@);
        assert(search.wf(nodes@, inner, nothing));
        assert(nodes@.finite()) by {
            broadcast use vstd::seq_lib::seq_to_set_is_finite;
            assert(sorted_nodes@.to_set().finite());
        }
    }
    for i in 0..sorted_nodes.len()
        invariant
            inner == induced(nodes@, edges@),
            adjacency_edges(adjacency@) == inner,
            nodes@.finite(),
            nothing == Set::<u64>::empty(),
            sorted_nodes@.to_set() == nodes@,
            search.wf(nodes@, inner, nothing),
            forall|j: int|
                0 <= j < i ==> search.indices@.contains_key(#[trigger] sorted_nodes@[j]),
    {
        let node = sorted_nodes[i];
        assert(sorted_nodes@.to_set().contains(node));
        if !search.indices.contains_key(&node) {
            let ghost at = search;
            search.strong_connect(node, &adjacency, Ghost(nodes@), Ghost(nothing));
            assert(search.extends(at));
        }
    }
    proof {
        assert(search.stack@.len() == 0) by {
            if search.stack@.len() > 0 {
                assert(search.anchored(inner, nothing, 0));
            }
        }
        assert forall|x: u64| search.done(x) <==> nodes@.contains(x) by {
            if nodes@.contains(x) {
                assert(sorted_nodes@.to_set().contains(x));
                let j = choose|j: int| 0 <= j < sorted_nodes@.len() && sorted_nodes@[j] == x;
                assert(search.indices@.contains_key(sorted_nodes@[j]));
                assert(!search.stack@.to_set().contains(x));
            }
        }
        assert(Set::new(|x: u64| search.done(x)) =~= nodes@);
    }
    search.sccs
}

} // verus!
